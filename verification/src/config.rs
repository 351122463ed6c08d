//! Host configuration, paths under the data directory, and what a host reports of itself.
use vstd::prelude::*;

use crate::text::{append_chars, chars_of, string_of, trim, trim_vec};
use crate::types::{DriverKind, DEFAULT_LISTEN};

verus! {

/// A path with a root (`/...`).
pub open spec fn is_absolute(p: Seq<char>) -> bool {
    p.len() > 0 && p[0] == '/'
}

/// `Path::join` on Unix: an absolute `rel` replaces `base`; otherwise one `/` separates them
/// unless `base` is empty or already ends in `/`.
pub open spec fn join_path(base: Seq<char>, rel: Seq<char>) -> Seq<char> {
    if is_absolute(rel) || base.len() == 0 {
        rel
    } else if base.last() == '/' {
        base + rel
    } else {
        base + seq!['/'] + rel
    }
}

/// `base` joined with `rel`.
pub fn join(base: &str, rel: &str) -> (r: String)
    ensures
        r@ == join_path(base@, rel@),
{
    let b = chars_of(base);
    let rv = chars_of(rel);
    if (rv.len() > 0 && rv[0] == '/') || b.len() == 0 {
        return string_of(rv.as_slice());
    }
    let mut out = b;
    if out[out.len() - 1] != '/' {
        out.push('/');
    }
    append_chars(&mut out, rv.as_slice());
    string_of(out.as_slice())
}

/// Whether `p` has no root.
pub fn is_relative(p: &str) -> (r: bool)
    ensures
        r == !is_absolute(p@),
{
    let v = chars_of(p);
    !(v.len() > 0 && v[0] == '/')
}

/// The daemon's listeners and host hooks.
pub struct DaemonConfig {
    pub listen: String,
    /// Address of the HTTPS listener; blank means none.
    pub tls_listen: Option<String>,
    pub tls_cert: Option<String>,
    pub tls_key: Option<String>,
    /// Command that replaces the built-in host power commands.
    pub host_power_cmd: Option<String>,
}

impl Default for DaemonConfig {
    fn default() -> (r: DaemonConfig)
        ensures
            r.listen@ == DEFAULT_LISTEN@,
            r.tls_listen is None,
            r.tls_cert is None,
            r.tls_key is None,
            r.host_power_cmd is None,
    {
        DaemonConfig {
            listen: string_of(chars_of(DEFAULT_LISTEN).as_slice()),
            tls_listen: None,
            tls_cert: None,
            tls_key: None,
            host_power_cmd: None,
        }
    }
}

/// The HTTPS listen address: the configured one, trimmed, when it is not blank.
pub open spec fn spec_effective_tls_listen(tls_listen: Option<Seq<char>>) -> Option<Seq<char>> {
    match tls_listen {
        Some(s) => if trim(s).len() > 0 {
            Some(trim(s))
        } else {
            None
        },
        None => None,
    }
}

pub open spec fn opt_view(o: Option<String>) -> Option<Seq<char>> {
    match o {
        Some(s) => Some(s@),
        None => None,
    }
}

impl DaemonConfig {
    pub fn effective_tls_listen(&self) -> (r: Option<String>)
        ensures
            opt_view(r) == spec_effective_tls_listen(opt_view(self.tls_listen)),
    {
        match &self.tls_listen {
            Some(s) => {
                let t = trim_vec(chars_of(s.as_str()).as_slice());
                if t.len() > 0 {
                    Some(string_of(t.as_slice()))
                } else {
                    None
                }
            },
            None => None,
        }
    }
}

/// Where the HTTPS listener binds, and its certificate and key files.
pub struct TlsBind {
    pub listen: String,
    pub cert: String,
    pub key: String,
}

fn copy_or_join(given: &Option<String>, home: &str, rel: &str) -> (r: String)
    ensures
        r@ == (match given {
            Some(p) => p@,
            None => join_path(home@, rel@),
        }),
{
    match given {
        Some(p) => string_of(chars_of(p.as_str()).as_slice()),
        None => join(home, rel),
    }
}

/// The HTTPS listener when the daemon has one: the configured certificate and key, or
/// `tls/cert.pem` and `tls/key.pem` under `home`.
pub fn tls_bind(home: &str, daemon: &DaemonConfig) -> (r: Option<TlsBind>)
    ensures
        match r {
            None => spec_effective_tls_listen(opt_view(daemon.tls_listen)) is None,
            Some(b) => {
                &&& spec_effective_tls_listen(opt_view(daemon.tls_listen)) == Some(b.listen@)
                &&& b.cert@ == (match daemon.tls_cert {
                    Some(p) => p@,
                    None => join_path(home@, "tls/cert.pem"@),
                })
                &&& b.key@ == (match daemon.tls_key {
                    Some(p) => p@,
                    None => join_path(home@, "tls/key.pem"@),
                })
            },
        },
{
    let listen = daemon.effective_tls_listen()?;
    Some(
        TlsBind {
            listen,
            cert: copy_or_join(&daemon.tls_cert, home, "tls/cert.pem"),
            key: copy_or_join(&daemon.tls_key, home, "tls/key.pem"),
        },
    )
}

/// Where guests run and which VMM runs them.
pub struct VmmConfig {
    pub driver: DriverKind,
    pub cloud_hypervisor: Option<String>,
    pub run_dir: String,
}

impl VmmConfig {
    /// Defaults under `home`: the platform's driver, `home/run`, and the
    /// `cloud-hypervisor` binary found on the search path, if any.
    pub fn default_for(home: &str, is_linux: bool, cloud_hypervisor: Option<String>) -> (r:
        VmmConfig)
        ensures
            r.driver == (if is_linux { DriverKind::CloudHypervisor } else { DriverKind::Mock }),
            r.cloud_hypervisor == cloud_hypervisor,
            r.run_dir@ == join_path(home@, "run"@),
    {
        VmmConfig {
            driver: DriverKind::default_for_platform(is_linux),
            cloud_hypervisor,
            run_dir: join(home, "run"),
        }
    }
}

/// Where volumes live, and the `qemu-img` binary.
pub struct StorageConfig {
    pub root: String,
    pub qemu_img: Option<String>,
}

impl StorageConfig {
    /// Defaults under `home`: `home/storage`, and `qemu-img` found on the search path, if any.
    pub fn default_for(home: &str, qemu_img: Option<String>) -> (r: StorageConfig)
        ensures
            r.root@ == join_path(home@, "storage"@),
            r.qemu_img == qemu_img,
    {
        StorageConfig { root: join(home, "storage"), qemu_img }
    }
}

/// The whole host configuration file.
pub struct HostConfig {
    pub daemon: DaemonConfig,
    pub vmm: VmmConfig,
    pub storage: StorageConfig,
}

impl HostConfig {
    /// Defaults for a fresh data directory.
    pub fn default_for(
        home: &str,
        is_linux: bool,
        cloud_hypervisor: Option<String>,
        qemu_img: Option<String>,
    ) -> (r: HostConfig)
        ensures
            r.daemon.listen@ == DEFAULT_LISTEN@,
            r.daemon.tls_listen is None,
            r.daemon.host_power_cmd is None,
            r.vmm.driver == (if is_linux { DriverKind::CloudHypervisor } else { DriverKind::Mock }),
            r.vmm.cloud_hypervisor == cloud_hypervisor,
            r.vmm.run_dir@ == join_path(home@, "run"@),
            r.storage.root@ == join_path(home@, "storage"@),
            r.storage.qemu_img == qemu_img,
    {
        HostConfig {
            daemon: DaemonConfig::default(),
            vmm: VmmConfig::default_for(home, is_linux, cloud_hypervisor),
            storage: StorageConfig::default_for(home, qemu_img),
        }
    }

    /// Anchor relative storage and run directories at `home`; fill in `qemu-img` from
    /// `found_qemu_img` (the search-path lookup) when none is configured.
    pub fn resolve_paths(&mut self, home: &str, found_qemu_img: Option<String>)
        ensures
            final(self).storage.root@ == (if is_absolute(old(self).storage.root@) {
                old(self).storage.root@
            } else {
                join_path(home@, old(self).storage.root@)
            }),
            final(self).vmm.run_dir@ == (if is_absolute(old(self).vmm.run_dir@) {
                old(self).vmm.run_dir@
            } else {
                join_path(home@, old(self).vmm.run_dir@)
            }),
            final(self).storage.qemu_img == (if old(self).storage.qemu_img is None {
                found_qemu_img
            } else {
                old(self).storage.qemu_img
            }),
            final(self).vmm.driver == old(self).vmm.driver,
            final(self).vmm.cloud_hypervisor == old(self).vmm.cloud_hypervisor,
            final(self).daemon == old(self).daemon,
    {
        if is_relative(self.storage.root.as_str()) {
            self.storage.root = join(home, self.storage.root.as_str());
        }
        if is_relative(self.vmm.run_dir.as_str()) {
            self.vmm.run_dir = join(home, self.vmm.run_dir.as_str());
        }
        if self.storage.qemu_img.is_none() {
            self.storage.qemu_img = found_qemu_img;
        }
    }
}

/// What a host reports about itself.
pub struct HostInfo {
    pub os: String,
    pub arch: String,
    pub kvm: bool,
    pub driver: DriverKind,
    pub cloud_hypervisor: Option<String>,
    pub listen: String,
    pub data_dir: String,
    pub storage_root: String,
    pub qemu_img: Option<String>,
}

fn copy_string(s: &String) -> (r: String)
    ensures
        r@ == s@,
{
    string_of(chars_of(s.as_str()).as_slice())
}

fn copy_opt(s: &Option<String>) -> (r: Option<String>)
    ensures
        opt_view(r) == opt_view(*s),
{
    match s {
        Some(x) => Some(copy_string(x)),
        None => None,
    }
}

/// Host facts from the configuration and from what was probed: the configured binaries,
/// else those found on the search path.
pub fn probe_host(
    config: &HostConfig,
    data_dir: String,
    os: String,
    arch: String,
    kvm: bool,
    cloud_hypervisor_in_path: Option<String>,
    qemu_img_in_path: Option<String>,
) -> (r: HostInfo)
    ensures
        r.os == os,
        r.arch == arch,
        r.kvm == kvm,
        r.driver == config.vmm.driver,
        opt_view(r.cloud_hypervisor) == (if config.vmm.cloud_hypervisor is Some {
            opt_view(config.vmm.cloud_hypervisor)
        } else {
            opt_view(cloud_hypervisor_in_path)
        }),
        r.listen@ == config.daemon.listen@,
        r.data_dir == data_dir,
        r.storage_root@ == config.storage.root@,
        opt_view(r.qemu_img) == (if config.storage.qemu_img is Some {
            opt_view(config.storage.qemu_img)
        } else {
            opt_view(qemu_img_in_path)
        }),
{
    HostInfo {
        os,
        arch,
        kvm,
        driver: config.vmm.driver,
        cloud_hypervisor: if config.vmm.cloud_hypervisor.is_some() {
            copy_opt(&config.vmm.cloud_hypervisor)
        } else {
            cloud_hypervisor_in_path
        },
        listen: copy_string(&config.daemon.listen),
        data_dir,
        storage_root: copy_string(&config.storage.root),
        qemu_img: if config.storage.qemu_img.is_some() {
            copy_opt(&config.storage.qemu_img)
        } else {
            qemu_img_in_path
        },
    }
}


/// The daemon's home directory: `PERTISK_HOME` when set (`pertisk_home`), else `.pertisk`
/// in the user's home directory (`user_home`), else in the current directory.
pub fn home_dir(pertisk_home: Option<&str>, user_home: Option<&str>) -> (r: String)
    ensures
        r@ == (match pertisk_home {
            Some(p) => p@,
            None => join_path(
                match user_home {
                    Some(h) => h@,
                    None => "."@,
                },
                ".pertisk"@,
            ),
        }),
{
    match pertisk_home {
        Some(p) => string_of(chars_of(p).as_slice()),
        None => match user_home {
            Some(h) => join(h, ".pertisk"),
            None => join(".", ".pertisk"),
        },
    }
}

}
