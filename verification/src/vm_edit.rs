//! Changes to a guest's record: renaming and resizing it, and attaching and detaching
//! volumes and ISO images. Each takes the record and gives back the changed one, or the
//! reason it is refused (the record is then not stored).
use vstd::prelude::*;

use crate::host::DaemonError;
use crate::ids::{NodeId, VmId, VolumeId};
use crate::inventory::{ids_where, uses_volume, volume_users};
use crate::text::{append_str, chars_eq, chars_of, string_of, trim, trim_vec};
use crate::ids::clone_opt_string;
use crate::types::{spec_refusal, DiskSpec, DriverKind, TypesError, TypesErrorView, VmRecord, VmSpec, VmState};

verus! {

/// A change to a guest's settings: each field given replaces the current one.
#[derive(Debug)]
pub struct UpdateVmRequest {
    pub name: Option<String>,
    pub vcpus: Option<u8>,
    pub memory_mib: Option<u32>,
    pub ha: Option<bool>,
    pub autostart: Option<bool>,
    pub autostart_delay: Option<u64>,
    pub autostart_order: Option<u32>,
}

/// Some guest other than `except` has this name.
pub open spec fn spec_name_taken(vms: Seq<VmRecord>, name: Seq<char>, except: Option<VmId>) -> bool {
    exists|i: int|
        0 <= i < vms.len() && (#[trigger] vms[i]).spec.name@ == name && match except {
            Some(id) => vms[i].id != id,
            None => true,
        }
}

/// Whether a guest other than `except` is named `name`.
pub fn name_taken(vms: &Vec<VmRecord>, name: &str, except: Option<VmId>) -> (r: bool)
    ensures
        r == spec_name_taken(vms@, name@, except),
{
    let want = chars_of(name);
    let mut i: usize = 0;
    while i < vms.len()
        invariant
            i <= vms.len(),
            want@ == name@,
            forall|j: int|
                0 <= j < i ==> !((#[trigger] vms@[j]).spec.name@ == name@ && match except {
                    Some(id) => vms@[j].id != id,
                    None => true,
                }),
        decreases vms.len() - i,
    {
        let other = match except {
            Some(id) => vms[i].id != id,
            None => true,
        };
        if other && chars_eq(chars_of(vms[i].spec.name.as_str()).as_slice(), want.as_slice()) {
            return true;
        }
        i += 1;
    }
    false
}

pub open spec fn or_keep<T>(new: Option<T>, old: T) -> T {
    match new {
        Some(v) => v,
        None => old,
    }
}

/// The name a settings change leaves: the trimmed new name, else the current one.
pub open spec fn new_name(vm: VmRecord, req: UpdateVmRequest) -> Seq<char> {
    match req.name {
        Some(n) => trim(n@),
        None => vm.spec.name@,
    }
}

/// Changes a guest's name, vCPUs, memory, HA and autostart settings. Resizing a running
/// guest is refused; so is a (trimmed) name another guest of `all` has; so is a result
/// that is no valid spec. Everything else of the record is kept.
pub fn update_vm(vm: VmRecord, req: UpdateVmRequest, all: &Vec<VmRecord>) -> (r: Result<
    VmRecord,
    DaemonError,
>)
    ensures
        (req.vcpus is Some || req.memory_mib is Some) && vm.state == VmState::Running ==> (r matches Err(
            DaemonError::MustBeStopped(id, op),
        ) && id == vm.id && op@ == "resize cpu or memory"@),
        !((req.vcpus is Some || req.memory_mib is Some) && vm.state == VmState::Running) ==> {
            let name = new_name(vm, req);
            let taken = req.name is Some && spec_name_taken(all@, name, Some(vm.id));
            let vcpus = or_keep(req.vcpus, vm.spec.vcpus);
            let mem = or_keep(req.memory_mib, vm.spec.memory_mib);
            &&& taken ==> (r matches Err(DaemonError::NameTaken(m)) && m@ == name)
            &&& !taken && spec_refusal(name, vcpus, mem) is Some ==> (r matches Err(
                DaemonError::Types(e),
            ) && e@ == TypesErrorView::InvalidSpec(spec_refusal(name, vcpus, mem)->0))
            &&& !taken && spec_refusal(name, vcpus, mem) is None ==> (r matches Ok(v) && {
                &&& v.id == vm.id
                &&& v.state == vm.state
                &&& v.node_id == vm.node_id
                &&& v.template == vm.template
                &&& v.spec.name@ == name
                &&& v.spec.vcpus == vcpus
                &&& v.spec.memory_mib == mem
                &&& v.spec.ha == or_keep(req.ha, vm.spec.ha)
                &&& v.spec.autostart == or_keep(req.autostart, vm.spec.autostart)
                &&& v.spec.autostart_delay == or_keep(req.autostart_delay, vm.spec.autostart_delay)
                &&& v.spec.autostart_order == or_keep(req.autostart_order, vm.spec.autostart_order)
                &&& v.spec.disks == vm.spec.disks
                &&& v.spec.nets == vm.spec.nets
                &&& v.spec.kernel == vm.spec.kernel
                &&& v.spec.cmdline == vm.spec.cmdline
                &&& v.spec.initramfs == vm.spec.initramfs
                &&& v.spec.serial_log == vm.spec.serial_log
                &&& v.pid == vm.pid
                &&& v.api_socket == vm.api_socket
                &&& v.serial_log == vm.serial_log
                &&& v.last_error == vm.last_error
            })
        },
{
    let mut vm = vm;
    if (req.vcpus.is_some() || req.memory_mib.is_some()) && vm.state == VmState::Running {
        return Err(
            DaemonError::MustBeStopped(
                vm.id,
                string_of(chars_of("resize cpu or memory").as_slice()),
            ),
        );
    }
    if let Some(n) = &req.name {
        let t = string_of(trim_vec(chars_of(n.as_str()).as_slice()).as_slice());
        if name_taken(all, t.as_str(), Some(vm.id)) {
            return Err(DaemonError::NameTaken(t));
        }
        vm.spec.name = t;
    }
    if let Some(v) = req.vcpus {
        vm.spec.vcpus = v;
    }
    if let Some(v) = req.memory_mib {
        vm.spec.memory_mib = v;
    }
    if let Some(v) = req.ha {
        vm.spec.ha = v;
    }
    if let Some(v) = req.autostart {
        vm.spec.autostart = v;
    }
    if let Some(v) = req.autostart_delay {
        vm.spec.autostart_delay = v;
    }
    if let Some(v) = req.autostart_order {
        vm.spec.autostart_order = v;
    }
    match vm.spec.validate() {
        Ok(()) => Ok(vm),
        Err(e) => Err(DaemonError::Types(e)),
    }
}

fn stopped_for(vm: &VmRecord, op: &str) -> (r: Result<(), DaemonError>)
    ensures
        vm.state == VmState::Running ==> (r matches Err(DaemonError::MustBeStopped(id, o)) && id
            == vm.id && o@ == op@),
        vm.state != VmState::Running ==> r is Ok,
{
    if vm.state == VmState::Running {
        return Err(DaemonError::MustBeStopped(vm.id, string_of(chars_of(op).as_slice())));
    }
    Ok(())
}

// ---------------------------------------------------------------------------
// Volumes
// ---------------------------------------------------------------------------

/// The guest has a disk on this volume.
pub open spec fn has_volume(disks: Seq<DiskSpec>, id: VolumeId) -> bool {
    exists|i: int| 0 <= i < disks.len() && (#[trigger] disks[i]).volume_id == Some(id)
}

fn disks_have_volume(disks: &Vec<DiskSpec>, id: VolumeId) -> (r: bool)
    ensures
        r == has_volume(disks@, id),
{
    let mut i: usize = 0;
    while i < disks.len()
        invariant
            i <= disks.len(),
            forall|j: int| 0 <= j < i ==> (#[trigger] disks@[j]).volume_id != Some(id),
        decreases disks.len() - i,
    {
        let hit = match disks[i].volume_id {
            Some(v) => v == id,
            None => false,
        };
        if hit {
            return true;
        }
        i += 1;
    }
    false
}

/// Attaches volume `volume_id` to a stopped guest as a writable disk at the path `volume`
/// gives (the outcome of looking the volume up). A guest that has the volume already is
/// given back as it is; a volume another guest of `all` uses is refused as busy.
pub fn attach_volume(
    vm: VmRecord,
    volume_id: VolumeId,
    volume: Result<String, DaemonError>,
    all: &Vec<VmRecord>,
) -> (r: Result<VmRecord, DaemonError>)
    ensures
        vm.state == VmState::Running ==> (r matches Err(DaemonError::MustBeStopped(id, op)) && id
            == vm.id && op@ == "attach disk"@),
        vm.state != VmState::Running && has_volume(vm.spec.disks@, volume_id) ==> r == Ok::<
            VmRecord,
            DaemonError,
        >(vm),
        vm.state != VmState::Running && !has_volume(vm.spec.disks@, volume_id) ==> {
            let users = ids_where(all@, |v: VmRecord| uses_volume(v, volume_id));
            &&& users.len() > 0 ==> r == Err::<VmRecord, DaemonError>(DaemonError::VolumeBusy(volume_id))
            &&& users.len() == 0 ==> match volume {
                Err(e) => r == Err::<VmRecord, DaemonError>(e),
                Ok(path) => r matches Ok(v) && v.id == vm.id && v.state == vm.state && v.spec.disks@
                    == vm.spec.disks@.push(
                    DiskSpec {
                        path,
                        readonly: false,
                        cdrom: false,
                        volume_id: Some(volume_id),
                        iso_name: None,
                    },
                ) && v.spec.name == vm.spec.name && v.node_id == vm.node_id,
            }
        },
{
    let mut vm = vm;
    stopped_for(&vm, "attach disk")?;
    if disks_have_volume(&vm.spec.disks, volume_id) {
        return Ok(vm);
    }
    let users = volume_users(all, volume_id);
    if users.len() > 0 {
        return Err(DaemonError::VolumeBusy(volume_id));
    }
    let path = volume?;
    vm.spec.disks.push(
        DiskSpec { path, readonly: false, cdrom: false, volume_id: Some(volume_id), iso_name: None },
    );
    Ok(vm)
}

/// The disks that are not on volume `id`, in order.
pub open spec fn without_volume(disks: Seq<DiskSpec>, id: VolumeId) -> Seq<DiskSpec> {
    disks.filter(|d: DiskSpec| d.volume_id != Some(id))
}

/// The disks that are not ISO image `name`, in order.
pub open spec fn without_iso(disks: Seq<DiskSpec>, name: Seq<char>) -> Seq<DiskSpec> {
    disks.filter(not_iso(name))
}

/// The disk is not ISO image `name`.
pub open spec fn not_iso(name: Seq<char>) -> spec_fn(DiskSpec) -> bool {
    |d: DiskSpec| !(d.iso_name matches Some(n) && n@ == name)
}

/// Detaches every disk on volume `volume_id` from a stopped guest.
pub fn detach_volume(vm: VmRecord, volume_id: VolumeId) -> (r: Result<VmRecord, DaemonError>)
    ensures
        vm.state == VmState::Running ==> (r matches Err(DaemonError::MustBeStopped(id, op)) && id
            == vm.id && op@ == "detach disk"@),
        vm.state != VmState::Running ==> (r matches Ok(v) && v.id == vm.id && v.state == vm.state
            && v.spec.disks@ == without_volume(vm.spec.disks@, volume_id) && v.spec.name
            == vm.spec.name),
{
    let mut vm = vm;
    stopped_for(&vm, "detach disk")?;
    let ghost pred = |d: DiskSpec| d.volume_id != Some(volume_id);
    let ghost orig = vm.spec.disks@;
    let ghost v0 = vm;
    let n0: usize = vm.spec.disks.len();
    assert(orig.len() == n0);
    let mut kept: Vec<DiskSpec> = Vec::new();
    let mut k: usize = 0;
    while vm.spec.disks.len() > 0
        invariant
            k + vm.spec.disks@.len() == orig.len(),
            vm.spec.disks@ == orig.skip(k as int),
            kept@ == orig.take(k as int).filter(pred),
            pred == (|d: DiskSpec| d.volume_id != Some(volume_id)),
            orig.len() <= usize::MAX,
            vm.id == v0.id && vm.state == v0.state && vm.spec.name == v0.spec.name,
        decreases vm.spec.disks@.len(),
    {
        let d = vm.spec.disks.remove(0);
        proof {
            orig.take(k as int).lemma_filter_push(d, pred);
            assert(orig.take(k as int + 1) =~= orig.take(k as int).push(d));
            assert(vm.spec.disks@ =~= orig.skip(k as int + 1));
        }
        let keep = match d.volume_id {
            Some(v) => v != volume_id,
            None => true,
        };
        if keep {
            kept.push(d);
        }
        k += 1;
    }
    assert(orig.take(k as int) =~= orig);
    vm.spec.disks = kept;
    Ok(vm)
}

// ---------------------------------------------------------------------------
// ISO images
// ---------------------------------------------------------------------------

/// The guest has ISO image `name` attached.
pub open spec fn has_iso(disks: Seq<DiskSpec>, name: Seq<char>) -> bool {
    exists|i: int| 0 <= i < disks.len() && ((#[trigger] disks[i]).iso_name matches Some(n) && n@ == name)
}

fn disks_have_iso(disks: &Vec<DiskSpec>, name: &str) -> (r: bool)
    ensures
        r == has_iso(disks@, name@),
{
    let want = chars_of(name);
    let mut i: usize = 0;
    while i < disks.len()
        invariant
            i <= disks.len(),
            want@ == name@,
            forall|j: int|
                0 <= j < i ==> !((#[trigger] disks@[j]).iso_name matches Some(n) && n@ == name@),
        decreases disks.len() - i,
    {
        let hit = match &disks[i].iso_name {
            Some(n) => chars_eq(chars_of(n.as_str()).as_slice(), want.as_slice()),
            None => false,
        };
        if hit {
            return true;
        }
        i += 1;
    }
    false
}

/// Attaches ISO image `name` to a stopped guest as a read-only CD-ROM, with the name and
/// path that `iso` gives (the outcome of looking the image up). A guest that has the
/// image already is given back as it is.
pub fn attach_iso(vm: VmRecord, name: &str, iso: Result<(String, String), DaemonError>) -> (r:
    Result<VmRecord, DaemonError>)
    ensures
        vm.state == VmState::Running ==> (r matches Err(DaemonError::MustBeStopped(id, op)) && id
            == vm.id && op@ == "attach iso"@),
        vm.state != VmState::Running && has_iso(vm.spec.disks@, name@) ==> r == Ok::<
            VmRecord,
            DaemonError,
        >(vm),
        vm.state != VmState::Running && !has_iso(vm.spec.disks@, name@) ==> match iso {
            Err(e) => r == Err::<VmRecord, DaemonError>(e),
            Ok((iso_name, path)) => r matches Ok(v) && v.id == vm.id && v.state == vm.state
                && v.spec.disks@ == vm.spec.disks@.push(
                DiskSpec {
                    path,
                    readonly: true,
                    cdrom: true,
                    volume_id: None,
                    iso_name: Some(iso_name),
                },
            ) && v.spec.name == vm.spec.name,
        },
{
    let mut vm = vm;
    stopped_for(&vm, "attach iso")?;
    if disks_have_iso(&vm.spec.disks, name) {
        return Ok(vm);
    }
    let (iso_name, path) = iso?;
    vm.spec.disks.push(
        DiskSpec { path, readonly: true, cdrom: true, volume_id: None, iso_name: Some(iso_name) },
    );
    Ok(vm)
}

/// Detaches ISO image `name` from a stopped guest.
pub fn detach_iso(vm: VmRecord, name: &str) -> (r: Result<VmRecord, DaemonError>)
    ensures
        vm.state == VmState::Running ==> (r matches Err(DaemonError::MustBeStopped(id, op)) && id
            == vm.id && op@ == "detach iso"@),
        vm.state != VmState::Running ==> (r matches Ok(v) && v.id == vm.id && v.state == vm.state
            && v.spec.disks@ == without_iso(vm.spec.disks@, name@) && v.spec.name == vm.spec.name),
{
    let mut vm = vm;
    stopped_for(&vm, "detach iso")?;
    let want = chars_of(name);
    let ghost pred = not_iso(name@);
    let ghost orig = vm.spec.disks@;
    let ghost v0 = vm;
    let n0: usize = vm.spec.disks.len();
    assert(orig.len() == n0);
    let mut kept: Vec<DiskSpec> = Vec::new();
    let mut k: usize = 0;
    while vm.spec.disks.len() > 0
        invariant
            k + vm.spec.disks@.len() == orig.len(),
            vm.spec.disks@ == orig.skip(k as int),
            kept@ == orig.take(k as int).filter(pred),
            want@ == name@,
            pred == not_iso(name@),
            orig.len() <= usize::MAX,
            vm.id == v0.id && vm.state == v0.state && vm.spec.name == v0.spec.name,
        decreases vm.spec.disks@.len(),
    {
        let d = vm.spec.disks.remove(0);
        proof {
            orig.take(k as int).lemma_filter_push(d, pred);
            assert(orig.take(k as int + 1) =~= orig.take(k as int).push(d));
            assert(vm.spec.disks@ =~= orig.skip(k as int + 1));
        }
        let drop = match &d.iso_name {
            Some(n) => chars_eq(chars_of(n.as_str()).as_slice(), want.as_slice()),
            None => false,
        };
        if !drop {
            kept.push(d);
        }
        k += 1;
    }
    assert(orig.take(k as int) =~= orig);
    vm.spec.disks = kept;
    Ok(vm)
}


// ---------------------------------------------------------------------------
// Attaching, then detaching
// ---------------------------------------------------------------------------

proof fn lemma_filter_keeps_all(s: Seq<DiskSpec>, pred: spec_fn(DiskSpec) -> bool)
    requires
        forall|i: int| 0 <= i < s.len() ==> pred(#[trigger] s[i]),
    ensures
        s.filter(pred) == s,
    decreases s.len(),
{
    if s.len() > 0 {
        let d = s.drop_last();
        assert(forall|i: int| 0 <= i < d.len() ==> d[i] == s[i]);
        lemma_filter_keeps_all(d, pred);
        d.lemma_filter_push(s.last(), pred);
        assert(d.push(s.last()) =~= s);
    } else {
        assert(s.filter(pred) =~= s);
    }
}

/// Detaching a volume just attached gives the guest its disks back: for disks without
/// volume `id`, adding a disk on `id` and then removing the disks on `id` leaves them as
/// they were.
pub proof fn lemma_attach_then_detach_volume(disks: Seq<DiskSpec>, added: DiskSpec, id: VolumeId)
    requires
        !has_volume(disks, id),
        added.volume_id == Some(id),
    ensures
        without_volume(disks.push(added), id) == disks,
{
    let pred = |d: DiskSpec| d.volume_id != Some(id);
    assert forall|i: int| 0 <= i < disks.len() implies pred(#[trigger] disks[i]) by {
        if !pred(disks[i]) {
            assert(disks[i].volume_id == Some(id));
        }
    }
    lemma_filter_keeps_all(disks, pred);
    disks.lemma_filter_push(added, pred);
    assert(!pred(added));
    assert(disks.push(added).filter(pred) == disks);
}

/// Detaching an ISO image just attached gives the guest its disks back.
pub proof fn lemma_attach_then_detach_iso(disks: Seq<DiskSpec>, added: DiskSpec, name: Seq<char>)
    requires
        !has_iso(disks, name),
        added.iso_name matches Some(n) && n@ == name,
    ensures
        without_iso(disks.push(added), name) == disks,
{
    let pred = not_iso(name);
    assert forall|i: int| 0 <= i < disks.len() implies pred(#[trigger] disks[i]) by {
        if !pred(disks[i]) {
            assert(disks[i].iso_name matches Some(n) && n@ == name);
        }
    }
    lemma_filter_keeps_all(disks, pred);
    disks.lemma_filter_push(added, pred);
    assert(!pred(added));
    assert(disks.push(added).filter(pred) == disks);
}


// ---------------------------------------------------------------------------
// Clones
// ---------------------------------------------------------------------------

/// What a clone of a guest is asked to be.
#[derive(Debug)]
pub struct CloneSettings {
    pub name: String,
    pub vcpus: Option<u8>,
    pub memory_mib: Option<u32>,
    pub ha: Option<bool>,
    pub autostart: Option<bool>,
    pub autostart_delay: Option<u64>,
    pub autostart_order: Option<u32>,
    /// Start the clone once made.
    pub start: bool,
}

/// The memory of a clone: as asked, else the source's; a clone to be started is cut to
/// the host's free guest budget (when known and at least 64 MiB).
pub open spec fn clone_memory(source: u32, req: CloneSettings, budget: Option<u32>) -> u32 {
    let m = or_keep(req.memory_mib, source);
    match budget {
        Some(b) if req.start && m > b && b >= 64 => b,
        _ => m,
    }
}

/// The spec of a clone of a stopped guest: the source's, renamed to the trimmed name,
/// with no disks, NICs or serial log of its own (they are made afterwards), HA on and
/// autostart off unless asked, and the asked vCPUs and memory. Refused for a running
/// source, a blank name, a name another guest of `all` has, or an invalid result.
pub fn clone_spec(source: &VmRecord, req: &CloneSettings, all: &Vec<VmRecord>, budget: Option<u32>) -> (r:
    Result<VmSpec, DaemonError>)
    ensures
        source.state == VmState::Running ==> (r matches Err(DaemonError::MustBeStopped(id, op))
            && id == source.id && op@ == "clone"@),
        source.state != VmState::Running ==> {
            let name = trim(req.name@);
            let vcpus = or_keep(req.vcpus, source.spec.vcpus);
            let mem = clone_memory(source.spec.memory_mib, *req, budget);
            &&& name.len() == 0 ==> (r matches Err(DaemonError::Types(e)) && e@
                == TypesErrorView::InvalidSpec("name is required"@))
            &&& name.len() > 0 && spec_name_taken(all@, name, None) ==> (r matches Err(
                DaemonError::NameTaken(m),
            ) && m@ == name)
            &&& name.len() > 0 && !spec_name_taken(all@, name, None) && spec_refusal(name, vcpus, mem)
                is Some ==> (r matches Err(DaemonError::Types(e)) && e@ == TypesErrorView::InvalidSpec(
                spec_refusal(name, vcpus, mem)->0,
            ))
            &&& name.len() > 0 && !spec_name_taken(all@, name, None) && spec_refusal(name, vcpus, mem)
                is None ==> (r matches Ok(s) && {
                &&& s.name@ == name
                &&& s.vcpus == vcpus
                &&& s.memory_mib == mem
                &&& s.kernel == source.spec.kernel
                &&& s.cmdline == source.spec.cmdline
                &&& s.initramfs == source.spec.initramfs
                &&& s.disks@.len() == 0
                &&& s.nets@.len() == 0
                &&& s.serial_log is None
                &&& s.ha == or_keep(req.ha, true)
                &&& s.autostart == or_keep(req.autostart, false)
                &&& s.autostart_delay == or_keep(req.autostart_delay, 0)
                &&& s.autostart_order == or_keep(req.autostart_order, 0)
            })
        },
{
    stopped_for(source, "clone")?;
    let t = trim_vec(chars_of(req.name.as_str()).as_slice());
    if t.len() == 0 {
        return Err(
            DaemonError::Types(
                TypesError::InvalidSpec(string_of(chars_of("name is required").as_slice())),
            ),
        );
    }
    let name = string_of(t.as_slice());
    if name_taken(all, name.as_str(), None) {
        return Err(DaemonError::NameTaken(name));
    }
    let vcpus = match req.vcpus {
        Some(v) => v,
        None => source.spec.vcpus,
    };
    let mut mem = match req.memory_mib {
        Some(m) => m,
        None => source.spec.memory_mib,
    };
    if req.start {
        if let Some(b) = budget {
            if mem > b && b >= 64 {
                mem = b;
            }
        }
    }
    let spec = VmSpec {
        name,
        vcpus,
        memory_mib: mem,
        kernel: clone_opt_string(&source.spec.kernel),
        cmdline: clone_opt_string(&source.spec.cmdline),
        initramfs: clone_opt_string(&source.spec.initramfs),
        disks: Vec::new(),
        nets: Vec::new(),
        serial_log: None,
        ha: match req.ha {
            Some(v) => v,
            None => true,
        },
        autostart: match req.autostart {
            Some(v) => v,
            None => false,
        },
        autostart_delay: match req.autostart_delay {
            Some(v) => v,
            None => 0,
        },
        autostart_order: match req.autostart_order {
            Some(v) => v,
            None => 0,
        },
    };
    match spec.validate() {
        Ok(()) => Ok(spec),
        Err(e) => Err(DaemonError::Types(e)),
    }
}


// ---------------------------------------------------------------------------
// Starting a guest on this node
// ---------------------------------------------------------------------------

/// What a start does once the guest may start.
#[derive(Debug, PartialEq, Eq)]
pub enum StartStep {
    /// Another start got there first: the guest runs and is given back as it is.
    AlreadyRunning,
    /// Boot it, making its hypervisor process first when `recreate`.
    Boot { recreate: bool },
}

/// A guest may be started from these states.
pub open spec fn startable(state: VmState) -> bool {
    state == VmState::Created || state == VmState::Stopped || state == VmState::Failed
}

/// Whether the hypervisor process must be made before booting: with a hypervisor
/// process (Cloud Hypervisor, QEMU) when none is alive or its API socket is gone; with
/// the mock driver for a guest never made or failed.
pub open spec fn spec_recreate(driver: DriverKind, state: VmState, vmm_alive: bool, socket_missing: bool) -> bool {
    if driver == DriverKind::CloudHypervisor || driver == DriverKind::Qemu {
        !vmm_alive || socket_missing
    } else {
        state == VmState::Created || state == VmState::Failed
    }
}

/// The decision of a start of guest `id`, from its state as read first or, after waiting
/// for the start gate, read again (`rechecked`). A template never starts; a running
/// guest refuses a start on the first read and is given back as it is on the second.
pub fn plan_start(
    id: VmId,
    state: VmState,
    template: bool,
    rechecked: bool,
    driver: DriverKind,
    vmm_alive: bool,
    socket_missing: bool,
) -> (r: Result<StartStep, DaemonError>)
    ensures
        template ==> (r matches Err(DaemonError::IsTemplate(v, op)) && v == id && op@ == "start"@),
        !template && !startable(state) && !rechecked ==> (r matches Err(
            DaemonError::InvalidState(s, op),
        ) && s == state && op@ == "start"@),
        !template && !startable(state) && rechecked ==> r == Ok::<StartStep, DaemonError>(
            StartStep::AlreadyRunning,
        ),
        !template && startable(state) ==> r == Ok::<StartStep, DaemonError>(
            StartStep::Boot { recreate: spec_recreate(driver, state, vmm_alive, socket_missing) },
        ),
{
    if template {
        return Err(DaemonError::IsTemplate(id, string_of(chars_of("start").as_slice())));
    }
    match state {
        VmState::Created | VmState::Stopped | VmState::Failed => {},
        VmState::Running => {
            if rechecked {
                return Ok(StartStep::AlreadyRunning);
            }
            return Err(DaemonError::InvalidState(state, string_of(chars_of("start").as_slice())));
        },
    }
    let recreate = match driver {
        DriverKind::CloudHypervisor | DriverKind::Qemu => !vmm_alive || socket_missing,
        DriverKind::Mock => match state {
            VmState::Created | VmState::Failed => true,
            _ => false,
        },
    };
    Ok(StartStep::Boot { recreate })
}

/// The record after its hypervisor process was made: its pid and API socket, and the
/// serial log, console and graphics sockets the hypervisor named (others kept).
pub fn record_after_create(
    r: VmRecord,
    pid: Option<u32>,
    api_socket: Option<String>,
    serial: Option<String>,
    console: Option<String>,
    graphics: Option<String>,
) -> (o: VmRecord)
    ensures
        o == (VmRecord {
            pid,
            api_socket,
            serial_log: if serial is Some {
                serial
            } else {
                r.serial_log
            },
            console_socket: if console is Some {
                console
            } else {
                r.console_socket
            },
            graphics_socket: if graphics is Some {
                graphics
            } else {
                r.graphics_socket
            },
            ..r
        }),
{
    let mut o = r;
    o.pid = pid;
    o.api_socket = api_socket;
    if serial.is_some() {
        o.serial_log = serial;
    }
    if console.is_some() {
        o.console_socket = console;
    }
    if graphics.is_some() {
        o.graphics_socket = graphics;
    }
    o
}

/// The record after the guest booted on node `self_id`: running, with the pid the
/// hypervisor gave (when it gave one), no error, and placed here unless placed already.
pub fn record_after_start(r: VmRecord, pid: Option<u32>, self_id: NodeId) -> (o: VmRecord)
    ensures
        o == (VmRecord {
            state: VmState::Running,
            pid: if pid is Some {
                pid
            } else {
                r.pid
            },
            last_error: None,
            node_id: if r.node_id is None {
                Some(self_id)
            } else {
                r.node_id
            },
            ..r
        }),
{
    let mut o = r;
    o.state = VmState::Running;
    if pid.is_some() {
        o.pid = pid;
    }
    o.last_error = None;
    if o.node_id.is_none() {
        o.node_id = Some(self_id);
    }
    o
}

/// The record after a failed create or boot: failed, with the error's message.
pub fn record_after_failure(r: VmRecord, msg: String) -> (o: VmRecord)
    ensures
        o == (VmRecord { state: VmState::Failed, last_error: Some(msg), ..r }),
{
    let mut o = r;
    o.state = VmState::Failed;
    o.last_error = Some(msg);
    o
}


// ---------------------------------------------------------------------------
// Finishing a clone
// ---------------------------------------------------------------------------

/// A clone's volumes are linked to the source's only when asked and the hypervisor is not
/// Cloud Hypervisor (which cannot boot from a backing chain).
pub fn clone_linked(requested: bool, driver: DriverKind) -> (r: bool)
    ensures
        r == (requested && driver != DriverKind::CloudHypervisor),
{
    requested && match driver {
        DriverKind::CloudHypervisor => false,
        _ => true,
    }
}

/// The volumes a clone copies, in disk order: those of the source's disks that are no
/// CD-ROM and are backed by a volume.
pub open spec fn clone_source_ids(disks: Seq<DiskSpec>) -> Seq<VolumeId>
    decreases disks.len(),
{
    if disks.len() == 0 {
        seq![]
    } else {
        let rest = clone_source_ids(disks.drop_last());
        match disks.last().volume_id {
            Some(v) if !disks.last().cdrom => rest.push(v),
            _ => rest,
        }
    }
}

/// The volumes to clone for a copy of a guest with these disks (see `clone_source_ids`).
pub fn clone_sources(disks: &Vec<DiskSpec>) -> (r: Vec<VolumeId>)
    ensures
        r@ == clone_source_ids(disks@),
{
    let mut out: Vec<VolumeId> = Vec::new();
    let mut i: usize = 0;
    while i < disks.len()
        invariant
            i <= disks.len(),
            out@ == clone_source_ids(disks@.take(i as int)),
        decreases disks.len() - i,
    {
        proof {
            assert(disks@.take(i + 1).drop_last() =~= disks@.take(i as int));
        }
        let d = &disks[i];
        if !d.cdrom {
            if let Some(v) = d.volume_id {
                out.push(v);
            }
        }
        i += 1;
    }
    assert(disks@.take(disks.len() as int) =~= disks@);
    out
}

/// Whether a failed volume clone is tried again as a full copy: only a linked clone that
/// failed because linked clones need `qemu-img`.
pub fn clone_retry_full(linked: bool, err: &DaemonError) -> (r: bool)
    ensures
        r == (linked && *err == DaemonError::Storage(crate::storage::StorageError::LinkedRequiresQemu)),
{
    linked && match err {
        DaemonError::Storage(crate::storage::StorageError::LinkedRequiresQemu) => true,
        _ => false,
    }
}

/// The size to grow the clone of the `index`-th cloned volume to: the asked size is for
/// the first one only, and only when larger than that clone.
pub fn clone_grow_at(index: usize, size: Option<u64>, current: u64) -> (r: Option<u64>)
    ensures
        index == 0 ==> r == (match size {
            Some(s) if s > current => Some(s),
            _ => None,
        }),
        index != 0 ==> r is None,
{
    if index == 0 {
        clone_grow(size, current)
    } else {
        None
    }
}

/// The size to grow a freshly cloned volume to: the asked size when it is larger than
/// the clone (asked of the first volume disk only), else none.
pub fn clone_grow(size: Option<u64>, current: u64) -> (r: Option<u64>)
    ensures
        match size {
            Some(s) if s > current => r == Some(s),
            _ => r is None,
        },
{
    match size {
        Some(s) => if s > current {
            Some(s)
        } else {
            None
        },
        None => None,
    }
}

/// The network a clone's NIC joins: the asked one, else the source's first NIC's, else
/// the default network.
pub fn clone_network<T>(requested: Option<T>, source_first: Option<T>, default: Option<T>) -> (r:
    Option<T>)
    ensures
        r == (if requested is Some {
            requested
        } else if source_first is Some {
            source_first
        } else {
            default
        }),
{
    match requested {
        Some(n) => Some(n),
        None => match source_first {
            Some(n) => Some(n),
            None => default,
        },
    }
}

/// A text option trimmed, and none when blank.
pub open spec fn nonblank(o: Option<Seq<char>>) -> Option<Seq<char>> {
    match o {
        Some(t) if trim(t).len() > 0 => Some(trim(t)),
        _ => None,
    }
}

pub open spec fn opt_str_view(o: Option<&str>) -> Option<Seq<char>> {
    match o {
        Some(t) => Some(t@),
        None => None,
    }
}

/// A text option trimmed, and none when blank (a clone's cloud-init user or password).
pub fn nonblank_text(o: Option<&str>) -> (r: Option<String>)
    ensures
        match nonblank(opt_str_view(o)) {
            Some(t) => r matches Some(x) && x@ == t,
            None => r is None,
        },
{
    match o {
        None => None,
        Some(t) => {
            let v = trim_vec(chars_of(t).as_slice());
            if v.len() > 0 {
                Some(string_of(v.as_slice()))
            } else {
                None
            }
        },
    }
}

/// A clone's cloud-init host name: the asked one trimmed, else the clone's name.
pub fn clone_hostname(hostname: Option<&str>, name: &str) -> (r: String)
    ensures
        r@ == (match nonblank(opt_str_view(hostname)) {
            Some(t) => t,
            None => name@,
        }),
{
    match nonblank_text(hostname) {
        Some(h) => h,
        None => string_of(chars_of(name).as_slice()),
    }
}

/// The name of a clone's cloud-init seed image: `<name>-<id>-cidata.iso`.
pub fn clone_cidata_iso_name(name: &str, id: VmId) -> (r: String)
    ensures
        r@ == name@ + "-"@ + crate::ids::uuid_text(id.0) + "-cidata.iso"@,
{
    let mut v = chars_of(name);
    append_str(&mut v, "-");
    append_str(&mut v, id.to_string().as_str());
    append_str(&mut v, "-cidata.iso");
    string_of(v.as_slice())
}


// ---------------------------------------------------------------------------
// Shutdown, restart and migration
// ---------------------------------------------------------------------------

/// Only a running guest is shut down or restarted (`op`).
pub fn require_running(id: VmId, state: VmState, op: &str) -> (r: Result<(), DaemonError>)
    ensures
        state == VmState::Running ==> r is Ok,
        state != VmState::Running ==> (r matches Err(DaemonError::InvalidState(s, o)) && s == state
            && o@ == op@),
{
    if state == VmState::Running {
        Ok(())
    } else {
        Err(DaemonError::InvalidState(state, string_of(chars_of(op).as_slice())))
    }
}

/// The record after the guest stopped (a shutdown, or a hypervisor found gone): stopped,
/// no process, no error.
pub fn record_after_stop(r: VmRecord) -> (o: VmRecord)
    ensures
        o == (VmRecord { state: VmState::Stopped, pid: None, last_error: None, ..r }),
{
    let mut o = r;
    o.state = VmState::Stopped;
    o.pid = None;
    o.last_error = None;
    o
}

/// How a running guest restarts.
#[derive(Debug, PartialEq, Eq)]
pub enum RestartStep {
    /// The hypervisor resets the guest in place.
    Reset,
    /// Shut it down, then start it again (booting anew how it boots).
    StopStart,
}

/// How guest `id` restarts: a hard reset under QEMU and the mock driver, a stop and start
/// under Cloud Hypervisor, and under QEMU too when an installed disk should now boot in
/// place of the installer (`disk_recreate`); only a running guest restarts.
pub fn plan_restart(id: VmId, state: VmState, driver: DriverKind, disk_recreate: bool) -> (r: Result<
    RestartStep,
    DaemonError,
>)
    ensures
        state != VmState::Running ==> (r matches Err(DaemonError::InvalidState(s, o)) && s == state
            && o@ == "restart"@),
        state == VmState::Running ==> r == Ok::<RestartStep, DaemonError>(
            if driver == DriverKind::CloudHypervisor || (driver == DriverKind::Qemu && disk_recreate) {
                RestartStep::StopStart
            } else {
                RestartStep::Reset
            },
        ),
{
    require_running(id, state, "restart")?;
    match driver {
        DriverKind::CloudHypervisor => Ok(RestartStep::StopStart),
        DriverKind::Qemu => if disk_recreate {
            Ok(RestartStep::StopStart)
        } else {
            Ok(RestartStep::Reset)
        },
        DriverKind::Mock => Ok(RestartStep::Reset),
    }
}

/// The node a migration to `dest` moves a guest from: where it is placed (this node when
/// unplaced); none when that is `dest` already, and the guest stays. A move starts the
/// guest on `dest` first and only then drops it at the source.
pub fn migrate_source(node_id: Option<NodeId>, self_id: NodeId, dest: NodeId) -> (r: Option<NodeId>)
    ensures
        ({
            let src = match node_id {
                Some(n) => n,
                None => self_id,
            };
            r == (if src == dest {
                None
            } else {
                Some(src)
            })
        }),
{
    let src = match node_id {
        Some(n) => n,
        None => self_id,
    };
    if src == dest {
        None
    } else {
        Some(src)
    }
}

}
