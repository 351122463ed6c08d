//! Control-plane logic of a small virtualization cluster: placement and quorum,
//! IPv4 address management, sizes and records, and the text formats it reads and writes.
use vstd::prelude::*;

pub mod access;
pub mod addrs;
pub mod api;
pub mod backup;
pub mod cluster;
pub mod config;
pub mod disk_boot;
pub mod host;
pub mod hostnet;
pub mod ids;
pub mod inject;
pub mod inventory;
pub mod ipam;
pub mod netnames;
pub mod notify;
pub mod iso9660;
pub mod iso_boot;
pub mod json;
pub mod placement;
pub mod seed;
pub mod procfs;
pub mod recovery;
pub mod shell;
pub mod storage;
pub mod text;
pub mod types;
pub mod updates;
pub mod urls;
pub mod vm_edit;

verus! {

} // verus!
