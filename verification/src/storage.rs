//! Storage tool invocations: `qemu-img` and Ceph `rbd` command lines, and how their
//! results read.
use vstd::prelude::*;

use crate::ids::VolumeId;
use crate::json::{json_u64_member, json_u64_member_of};
use crate::text::{append_chars, append_str, chars_of, dec, dec_vec, string_of, trim, trim_vec};
use crate::types::VolumeFormat;

verus! {

/// Volume and image errors.
#[derive(Debug)]
pub enum StorageError {
    NotFound(VolumeId),
    NameTaken(String),
    IsoNotFound(String),
    IsoExists(String),
    InvalidIsoName(String),
    SnapshotNotFound(String),
    SnapshotExists(String),
    QemuImgRequired,
    LinkedRequiresQemu,
    CannotShrink { from: u64, to: u64 },
    Message(String),
}

/// A program to run and its arguments.
pub struct Invocation {
    pub program: String,
    pub args: Vec<String>,
}

pub open spec fn strs_view(v: Seq<String>) -> Seq<Seq<char>> {
    Seq::new(v.len(), |i: int| v[i]@)
}

fn s(x: &str) -> (r: String)
    ensures
        r@ == x@,
{
    string_of(chars_of(x).as_slice())
}

fn copy(x: &String) -> (r: String)
    ensures
        r@ == x@,
{
    string_of(chars_of(x.as_str()).as_slice())
}

/// `qemu-img` size argument with the largest exact unit suffix (so 32-bit builds do not
/// parse raw byte counts).
pub open spec fn spec_format_qemu_size(size: u64) -> Seq<char> {
    let n = size as nat;
    let g: nat = 1073741824;
    let m: nat = 1048576;
    let k: nat = 1024;
    if n > 0 && n % g == 0 {
        dec(n / g) + "G"@
    } else if n > 0 && n % m == 0 {
        dec(n / m) + "M"@
    } else if n > 0 && n % k == 0 {
        dec(n / k) + "K"@
    } else {
        dec(n)
    }
}

pub fn format_qemu_size(size: u64) -> (r: String)
    ensures
        r@ == spec_format_qemu_size(size),
{
    let g: u64 = 1024 * 1024 * 1024;
    let m: u64 = 1024 * 1024;
    let k: u64 = 1024;
    let mut v = if size > 0 && size % g == 0 {
        let mut v = dec_vec(size / g);
        append_str(&mut v, "G");
        v
    } else if size > 0 && size % m == 0 {
        let mut v = dec_vec(size / m);
        append_str(&mut v, "M");
        v
    } else if size > 0 && size % k == 0 {
        let mut v = dec_vec(size / k);
        append_str(&mut v, "K");
        v
    } else {
        dec_vec(size)
    };
    string_of(v.as_slice())
}

/// The `qemu-img` tool, when one was found.
pub struct QemuImg {
    pub binary: Option<String>,
}

pub open spec fn opt_view(o: Option<String>) -> Option<Seq<char>> {
    match o {
        Some(x) => Some(x@),
        None => None,
    }
}

fn strings(v: Vec<String>) -> (r: Vec<String>)
    ensures
        r@ == v@,
{
    v
}

impl QemuImg {
    /// The configured binary, else the one found on the search path.
    pub fn new(binary: Option<String>, in_path: Option<String>) -> (r: QemuImg)
        ensures
            r.binary == (if binary is Some {
                binary
            } else {
                in_path
            }),
    {
        QemuImg {
            binary: if binary.is_some() {
                binary
            } else {
                in_path
            },
        }
    }

    pub fn available(&self) -> (r: bool)
        ensures
            r == self.binary is Some,
    {
        self.binary.is_some()
    }

    pub fn binary(&self) -> (r: Option<String>)
        ensures
            opt_view(r) == opt_view(self.binary),
    {
        match &self.binary {
            Some(b) => Some(copy(b)),
            None => None,
        }
    }

    /// The invocation of `qemu-img` with `args`; `QemuImgRequired` without a binary.
    fn command(&self, args: Vec<String>) -> (r: Result<Invocation, StorageError>)
        ensures
            match self.binary {
                None => r matches Err(StorageError::QemuImgRequired),
                Some(b) => r matches Ok(inv) && inv.program@ == b@ && inv.args@ == args@,
            },
    {
        match &self.binary {
            None => Err(StorageError::QemuImgRequired),
            Some(b) => Ok(Invocation { program: copy(b), args }),
        }
    }

    pub open spec fn runs(&self, r: Result<Invocation, StorageError>, args: Seq<Seq<char>>) -> bool {
        match self.binary {
            None => r matches Err(StorageError::QemuImgRequired),
            Some(b) => r matches Ok(inv) && inv.program@ == b@ && strs_view(inv.args@) == args,
        }
    }

    /// `create -f qcow2 <path> <size>`.
    pub fn create_qcow2(&self, path: &str, size: u64) -> (r: Result<Invocation, StorageError>)
        ensures
            self.runs(r, seq!["create"@, "-f"@, "qcow2"@, path@, dec(size as nat)]),
    {
        let args = vec![s("create"), s("-f"), s("qcow2"), s(path), crate::text::dec_string(size)];
        let r = self.command(args);
        proof {
            if let Ok(inv) = &r {
                assert(strs_view(inv.args@) =~= seq!["create"@, "-f"@, "qcow2"@, path@, dec(size as nat)]);
            }
        }
        r
    }

    /// `resize -f qcow2 <path> <size>` with a unit-suffixed size.
    pub fn resize(&self, path: &str, size: u64) -> (r: Result<Invocation, StorageError>)
        ensures
            self.runs(r, seq!["resize"@, "-f"@, "qcow2"@, path@, spec_format_qemu_size(size)]),
    {
        let args = vec![s("resize"), s("-f"), s("qcow2"), s(path), format_qemu_size(size)];
        let r = self.command(args);
        proof {
            if let Ok(inv) = &r {
                assert(strs_view(inv.args@) =~= seq!["resize"@, "-f"@, "qcow2"@, path@, spec_format_qemu_size(size)]);
            }
        }
        r
    }

    /// A qcow2 overlay on `backing` (its canonical path when it has one).
    pub fn linked_clone(&self, backing: &str, backing_format: VolumeFormat, dest: &str) -> (r: Result<
        Invocation,
        StorageError,
    >)
        ensures
            self.runs(
                r,
                seq![
                    "create"@,
                    "-f"@,
                    "qcow2"@,
                    "-F"@,
                    backing_format.spec_as_str(),
                    "-b"@,
                    backing@,
                    dest@,
                ],
            ),
    {
        let args = vec![
            s("create"),
            s("-f"),
            s("qcow2"),
            s("-F"),
            s(backing_format.as_str()),
            s("-b"),
            s(backing),
            s(dest),
        ];
        let r = self.command(args);
        proof {
            if let Ok(inv) = &r {
                assert(strs_view(inv.args@) =~= seq![
                    "create"@,
                    "-f"@,
                    "qcow2"@,
                    "-F"@,
                    backing_format.spec_as_str(),
                    "-b"@,
                    backing@,
                    dest@,
                ]);
            }
        }
        r
    }

    /// A standalone (flattened, decompressed) copy in `dest_format`.
    pub fn convert(
        &self,
        source: &str,
        dest: &str,
        src_format: VolumeFormat,
        dest_format: VolumeFormat,
    ) -> (r: Result<Invocation, StorageError>)
        ensures
            self.runs(
                r,
                seq![
                    "convert"@,
                    "-t"@,
                    "writeback"@,
                    "-T"@,
                    "writeback"@,
                    "-W"@,
                    "-m"@,
                    "8"@,
                    "-S"@,
                    "64k"@,
                    "-f"@,
                    src_format.spec_as_str(),
                    "-O"@,
                    dest_format.spec_as_str(),
                    source@,
                    dest@,
                ],
            ),
    {
        let args = vec![
            s("convert"),
            s("-t"),
            s("writeback"),
            s("-T"),
            s("writeback"),
            s("-W"),
            s("-m"),
            s("8"),
            s("-S"),
            s("64k"),
            s("-f"),
            s(src_format.as_str()),
            s("-O"),
            s(dest_format.as_str()),
            s(source),
            s(dest),
        ];
        let r = self.command(args);
        proof {
            if let Ok(inv) = &r {
                assert(strs_view(inv.args@) =~= seq![
                    "convert"@,
                    "-t"@,
                    "writeback"@,
                    "-T"@,
                    "writeback"@,
                    "-W"@,
                    "-m"@,
                    "8"@,
                    "-S"@,
                    "64k"@,
                    "-f"@,
                    src_format.spec_as_str(),
                    "-O"@,
                    dest_format.spec_as_str(),
                    source@,
                    dest@,
                ]);
            }
        }
        r
    }

    /// `snapshot -c <name> <image>`.
    pub fn snapshot_create(&self, image: &str, name: &str) -> (r: Result<Invocation, StorageError>)
        ensures
            self.runs(r, seq!["snapshot"@, "-c"@, name@, image@]),
    {
        let r = self.command(vec![s("snapshot"), s("-c"), s(name), s(image)]);
        proof {
            if let Ok(inv) = &r {
                assert(strs_view(inv.args@) =~= seq!["snapshot"@, "-c"@, name@, image@]);
            }
        }
        r
    }

    /// `snapshot -a <name> <image>`.
    pub fn snapshot_apply(&self, image: &str, name: &str) -> (r: Result<Invocation, StorageError>)
        ensures
            self.runs(r, seq!["snapshot"@, "-a"@, name@, image@]),
    {
        let r = self.command(vec![s("snapshot"), s("-a"), s(name), s(image)]);
        proof {
            if let Ok(inv) = &r {
                assert(strs_view(inv.args@) =~= seq!["snapshot"@, "-a"@, name@, image@]);
            }
        }
        r
    }

    /// `info --output=json <path>`; none without a binary.
    pub fn inspect(&self, path: &str) -> (r: Option<Invocation>)
        ensures
            match self.binary {
                None => r is None,
                Some(b) => r matches Some(inv) && inv.program@ == b@ && strs_view(inv.args@)
                    == seq!["info"@, "--output=json"@, path@],
            },
    {
        match self.command(vec![s("info"), s("--output=json"), s(path)]) {
            Ok(inv) => {
                assert(strs_view(inv.args@) =~= seq!["info"@, "--output=json"@, path@]);
                Some(inv)
            },
            Err(_) => None,
        }
    }

    /// The virtual size that `qemu-img info --output=json` reports (a sparse qcow2 file
    /// is shorter on disk).
    pub fn virtual_size(info_json: &[u8]) -> (r: Option<u64>)
        ensures
            r == json_u64_member(info_json@, "virtual-size"@),
    {
        json_u64_member_of(info_json, "virtual-size")
    }
}


pub open spec fn join_args(args: Seq<Seq<char>>) -> Seq<char> {
    crate::text::join(args, " "@)
}

pub(crate) fn join_strings(args: &Vec<String>) -> (r: Vec<char>)
    ensures
        r@ == join_args(strs_view(args@)),
{
    let mut parts: Vec<Vec<char>> = Vec::new();
    let mut i: usize = 0;
    proof {
        crate::text::lemma_dv_empty(parts@);
    }
    while i < args.len()
        invariant
            i <= args.len(),
            crate::text::dv(parts@) == strs_view(args@).take(i as int),
        decreases args.len() - i,
    {
        let x = chars_of(args[i].as_str());
        let ghost p0 = parts@;
        let ghost xg = x;
        parts.push(x);
        proof {
            crate::text::lemma_dv_push(p0, xg, parts@);
            assert(crate::text::dv(parts@) =~= strs_view(args@).take(i as int + 1));
        }
        i += 1;
    }
    assert(strs_view(args@).take(args.len() as int) =~= strs_view(args@));
    assert(parts.deep_view() =~= crate::text::dv(parts@));
    let sp = vec![' '];
    proof {
        reveal_strlit(" ");
        assert(sp@ =~= " "@);
    }
    crate::text::join_vec(&parts, sp.as_slice())
}

/// How a finished tool run reads: success, or `<tool> <args> failed: <stderr>` with
/// standard error trimmed when `trim_stderr` is set.
pub fn run_result(tool: &str, args: &Vec<String>, success: bool, stderr: &str, trim_stderr: bool) -> (r:
    Result<(), StorageError>)
    ensures
        success ==> r is Ok,
        !success ==> (r matches Err(StorageError::Message(m)) && m@ == tool@ + " "@ + join_args(
            strs_view(args@),
        ) + " failed: "@ + (if trim_stderr {
            trim(stderr@)
        } else {
            stderr@
        })),
{
    if success {
        return Ok(());
    }
    let mut m = chars_of(tool);
    append_str(&mut m, " ");
    let j = join_strings(args);
    append_chars(&mut m, j.as_slice());
    append_str(&mut m, " failed: ");
    if trim_stderr {
        let t = trim_vec(chars_of(stderr).as_slice());
        append_chars(&mut m, t.as_slice());
    } else {
        append_str(&mut m, stderr);
    }
    Err(StorageError::Message(string_of(m.as_slice())))
}

/// A Ceph RBD pool and the `rbd` tool, when one was found.
pub struct Rbd {
    pub binary: Option<String>,
    pub pool: String,
}

impl Rbd {
    /// Pool `rbd` unless one is named.
    pub fn new(pool: Option<String>, binary: Option<String>) -> (r: Rbd)
        ensures
            r.binary == binary,
            r.pool@ == (match pool {
                Some(p) => p@,
                None => "rbd"@,
            }),
    {
        Rbd {
            binary,
            pool: match pool {
                Some(p) => p,
                None => s("rbd"),
            },
        }
    }

    /// Whether the search path has `rbd`.
    pub fn available(in_path: &Option<String>) -> (r: bool)
        ensures
            r == in_path is Some,
    {
        in_path.is_some()
    }

    pub fn pool(&self) -> (r: &str)
        ensures
            r@ == self.pool@,
    {
        self.pool.as_str()
    }

    pub fn binary(&self) -> (r: Option<String>)
        ensures
            opt_view(r) == opt_view(self.binary),
    {
        match &self.binary {
            Some(b) => Some(copy(b)),
            None => None,
        }
    }

    /// `rbd:<pool>/<name>`.
    pub fn image_path(&self, name: &str) -> (r: String)
        ensures
            r@ == "rbd:"@ + self.pool@ + "/"@ + name@,
    {
        let mut v = chars_of("rbd:");
        append_str(&mut v, self.pool.as_str());
        append_str(&mut v, "/");
        append_str(&mut v, name);
        string_of(v.as_slice())
    }

    fn spec_of(&self, name: &str) -> (r: String)
        ensures
            r@ == self.pool@ + "/"@ + name@,
    {
        let mut v = chars_of(self.pool.as_str());
        append_str(&mut v, "/");
        append_str(&mut v, name);
        string_of(v.as_slice())
    }

    fn snap_of(&self, name: &str, snap: &str) -> (r: String)
        ensures
            r@ == self.pool@ + "/"@ + name@ + "@"@ + snap@,
    {
        let mut v = chars_of(self.pool.as_str());
        append_str(&mut v, "/");
        append_str(&mut v, name);
        append_str(&mut v, "@");
        append_str(&mut v, snap);
        string_of(v.as_slice())
    }

    fn command(&self, args: Vec<String>) -> (r: Result<Invocation, StorageError>)
        ensures
            match self.binary {
                None => r matches Err(StorageError::Message(m)) && m@ == "rbd binary not found"@,
                Some(b) => r matches Ok(inv) && inv.program@ == b@ && inv.args@ == args@,
            },
    {
        match &self.binary {
            None => Err(StorageError::Message(s("rbd binary not found"))),
            Some(b) => Ok(Invocation { program: copy(b), args }),
        }
    }

    pub open spec fn runs(&self, r: Result<Invocation, StorageError>, args: Seq<Seq<char>>) -> bool {
        match self.binary {
            None => r matches Err(StorageError::Message(m)) && m@ == "rbd binary not found"@,
            Some(b) => r matches Ok(inv) && inv.program@ == b@ && strs_view(inv.args@) == args,
        }
    }

    /// `create <pool>/<name> --size <MiB>`: the size rounded up to whole MiB, at least 1.
    pub fn create_image(&self, name: &str, size_bytes: u64) -> (r: Result<Invocation, StorageError>)
        ensures
            self.runs(
                r,
                seq![
                    "create"@,
                    self.pool@ + "/"@ + name@,
                    "--size"@,
                    dec(
                        if size_bytes == 0 {
                            1
                        } else {
                            ((size_bytes + 1048575) / 1048576) as nat
                        },
                    ),
                ],
            ),
    {
        let q = size_bytes / 1048576;
        let mib = if size_bytes % 1048576 != 0 {
            q + 1
        } else {
            q
        };
        let mib = if mib >= 1 {
            mib
        } else {
            1
        };
        proof {
            let b = size_bytes as int;
            assert(b > 0 ==> (b + 1048575) / 1048576 == b / 1048576 + if b % 1048576 != 0 {
                1int
            } else {
                0int
            }) by (nonlinear_arith);
            assert(b > 0 ==> (b + 1048575) / 1048576 >= 1) by (nonlinear_arith);
        }
        let r = self.command(vec![s("create"), self.spec_of(name), s("--size"), crate::text::dec_string(mib)]);
        proof {
            if let Ok(inv) = &r {
                assert(strs_view(inv.args@) =~= seq![
                    "create"@,
                    self.pool@ + "/"@ + name@,
                    "--size"@,
                    dec(
                        if size_bytes == 0 {
                            1
                        } else {
                            ((size_bytes + 1048575) / 1048576) as nat
                        },
                    ),
                ]);
            }
        }
        r
    }

    /// `rm <pool>/<name>`.
    pub fn remove_image(&self, name: &str) -> (r: Result<Invocation, StorageError>)
        ensures
            self.runs(r, seq!["rm"@, self.pool@ + "/"@ + name@]),
    {
        let r = self.command(vec![s("rm"), self.spec_of(name)]);
        proof {
            if let Ok(inv) = &r {
                assert(strs_view(inv.args@) =~= seq!["rm"@, self.pool@ + "/"@ + name@]);
            }
        }
        r
    }

    /// `snap create <pool>/<name>@<snap>`.
    pub fn snapshot_create(&self, name: &str, snap: &str) -> (r: Result<Invocation, StorageError>)
        ensures
            self.runs(r, seq!["snap"@, "create"@, self.pool@ + "/"@ + name@ + "@"@ + snap@]),
    {
        let r = self.command(vec![s("snap"), s("create"), self.snap_of(name, snap)]);
        proof {
            if let Ok(inv) = &r {
                assert(strs_view(inv.args@) =~= seq!["snap"@, "create"@, self.pool@ + "/"@ + name@ + "@"@ + snap@]);
            }
        }
        r
    }

    /// `snap rollback <pool>/<name>@<snap>`.
    pub fn snapshot_rollback(&self, name: &str, snap: &str) -> (r: Result<Invocation, StorageError>)
        ensures
            self.runs(r, seq!["snap"@, "rollback"@, self.pool@ + "/"@ + name@ + "@"@ + snap@]),
    {
        let r = self.command(vec![s("snap"), s("rollback"), self.snap_of(name, snap)]);
        proof {
            if let Ok(inv) = &r {
                assert(strs_view(inv.args@) =~= seq!["snap"@, "rollback"@, self.pool@ + "/"@ + name@ + "@"@ + snap@]);
            }
        }
        r
    }

    /// `clone <pool>/<src>@<snap> <pool>/<dest>`.
    pub fn clone_image(&self, src: &str, snap: &str, dest: &str) -> (r: Result<Invocation, StorageError>)
        ensures
            self.runs(
                r,
                seq!["clone"@, self.pool@ + "/"@ + src@ + "@"@ + snap@, self.pool@ + "/"@ + dest@],
            ),
    {
        let r = self.command(vec![s("clone"), self.snap_of(src, snap), self.spec_of(dest)]);
        proof {
            if let Ok(inv) = &r {
                assert(strs_view(inv.args@) =~= seq!["clone"@, self.pool@ + "/"@ + src@ + "@"@ + snap@, self.pool@ + "/"@ + dest@]);
            }
        }
        r
    }
}

} // verus!
