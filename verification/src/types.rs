//! Shared VM spec, volume and host records, sizes.
use vstd::prelude::*;

use crate::ids::{NodeId, VmId, VolumeId};
use crate::text::{
    append_chars, append_str, chars_of, dec, dec_vec, eq_str, is_digit, is_digit_char, lower_seq,
    lower_vec, parse_unsigned, parse_unsigned_vec, slice_vec, string_of, trim, trim_vec,
};

verus! {

pub const DEFAULT_LISTEN: &'static str = "127.0.0.1:7480";

pub const DEFAULT_VCPUS: u8 = 1;

pub const DEFAULT_MEMORY_MIB: u32 = 512;

/// Errors about identifiers and specs.
#[derive(Debug, PartialEq, Eq)]
pub enum TypesError {
    InvalidVmId(String),
    InvalidVolumeId(String),
    InvalidSpec(String),
}

/// What a `TypesError` says.
pub enum TypesErrorView {
    InvalidVmId(Seq<char>),
    InvalidVolumeId(Seq<char>),
    InvalidSpec(Seq<char>),
}

impl View for TypesError {
    type V = TypesErrorView;

    open spec fn view(&self) -> TypesErrorView {
        match self {
            TypesError::InvalidVmId(m) => TypesErrorView::InvalidVmId(m@),
            TypesError::InvalidVolumeId(m) => TypesErrorView::InvalidVolumeId(m@),
            TypesError::InvalidSpec(m) => TypesErrorView::InvalidSpec(m@),
        }
    }
}

fn spec_error(msg: &str) -> (e: TypesError)
    ensures
        e@ == TypesErrorView::InvalidSpec(msg@),
{
    let v = chars_of(msg);
    TypesError::InvalidSpec(string_of(v.as_slice()))
}

/// `InvalidSpec(prefix + middle + suffix)`.
fn spec_error3(prefix: &str, middle: &[char], suffix: &str) -> (e: TypesError)
    ensures
        e@ == TypesErrorView::InvalidSpec(prefix@ + middle@ + suffix@),
{
    let mut v = chars_of(prefix);
    append_chars(&mut v, middle);
    append_str(&mut v, suffix);
    TypesError::InvalidSpec(string_of(v.as_slice()))
}

/// Disk image format of a volume.
#[derive(Clone, Copy, Debug, PartialEq, Eq, Structural)]
pub enum VolumeFormat {
    Raw,
    Qcow2,
}

impl VolumeFormat {
    pub open spec fn spec_as_str(self) -> Seq<char> {
        match self {
            VolumeFormat::Raw => "raw"@,
            VolumeFormat::Qcow2 => "qcow2"@,
        }
    }

    pub fn as_str(self) -> (r: &'static str)
        ensures
            r@ == self.spec_as_str(),
    {
        match self {
            VolumeFormat::Raw => {
                proof {
                    reveal_strlit("raw");
                }
                "raw"
            },
            VolumeFormat::Qcow2 => {
                proof {
                    reveal_strlit("qcow2");
                }
                "qcow2"
            },
        }
    }

    /// File extension: the format's name.
    pub fn extension(self) -> (r: &'static str)
        ensures
            r@ == self.spec_as_str(),
    {
        self.as_str()
    }

    /// `raw` or `qcow2`, in any letter case.
    pub fn parse(s: &str) -> (r: Result<VolumeFormat, TypesError>)
        ensures
            lower_seq(s@) == "raw"@ ==> r == Ok::<VolumeFormat, TypesError>(VolumeFormat::Raw),
            lower_seq(s@) == "qcow2"@ ==> r == Ok::<VolumeFormat, TypesError>(VolumeFormat::Qcow2),
            lower_seq(s@) != "raw"@ && lower_seq(s@) != "qcow2"@ ==> (r matches Err(e) && e@
                == TypesErrorView::InvalidSpec(
                "unknown volume format '"@ + lower_seq(s@) + "' (raw | qcow2)"@,
            )),
    {
        proof {
            reveal_strlit("raw");
            reveal_strlit("qcow2");
        }
        let v = chars_of(s);
        let l = lower_vec(v.as_slice());
        if eq_str(l.as_slice(), "raw") {
            assert("raw"@.len() != "qcow2"@.len());
            Ok(VolumeFormat::Raw)
        } else if eq_str(l.as_slice(), "qcow2") {
            assert(lower_seq(s@) == "qcow2"@);
            assert("qcow2"@ != "raw"@);
            Ok(VolumeFormat::Qcow2)
        } else {
            Err(spec_error3("unknown volume format '", l.as_slice(), "' (raw | qcow2)"))
        }
    }
}

impl Default for VolumeFormat {
    fn default() -> (r: VolumeFormat)
        ensures
            r == VolumeFormat::Raw,
    {
        VolumeFormat::Raw
    }
}

/// Which VMM drives guests.
#[derive(Clone, Copy, Debug, PartialEq, Eq, Structural)]
pub enum DriverKind {
    Mock,
    CloudHypervisor,
    Qemu,
}

impl DriverKind {
    pub open spec fn spec_as_str(self) -> Seq<char> {
        match self {
            DriverKind::Mock => "mock"@,
            DriverKind::CloudHypervisor => "cloud-hypervisor"@,
            DriverKind::Qemu => "qemu"@,
        }
    }

    /// Cloud Hypervisor on Linux, the mock driver elsewhere.
    pub fn default_for_platform(is_linux: bool) -> (r: DriverKind)
        ensures
            r == (if is_linux {
                DriverKind::CloudHypervisor
            } else {
                DriverKind::Mock
            }),
    {
        if is_linux {
            DriverKind::CloudHypervisor
        } else {
            DriverKind::Mock
        }
    }

    pub fn as_str(self) -> (r: &'static str)
        ensures
            r@ == self.spec_as_str(),
    {
        match self {
            DriverKind::Mock => {
                proof {
                    reveal_strlit("mock");
                }
                "mock"
            },
            DriverKind::CloudHypervisor => {
                proof {
                    reveal_strlit("cloud-hypervisor");
                }
                "cloud-hypervisor"
            },
            DriverKind::Qemu => {
                proof {
                    reveal_strlit("qemu");
                }
                "qemu"
            },
        }
    }

    /// `mock`, or `cloud-hypervisor` / `ch`.
    pub fn parse(s: &str) -> (r: Result<DriverKind, TypesError>)
        ensures
            s@ == "mock"@ ==> r == Ok::<DriverKind, TypesError>(DriverKind::Mock),
            (s@ == "cloud-hypervisor"@ || s@ == "ch"@) ==> r == Ok::<DriverKind, TypesError>(
                DriverKind::CloudHypervisor,
            ),
            s@ != "mock"@ && s@ != "cloud-hypervisor"@ && s@ != "ch"@ ==> (r matches Err(e) && e@
                == TypesErrorView::InvalidSpec(
                "unknown driver '"@ + s@ + "' (mock | cloud-hypervisor)"@,
            )),
    {
        proof {
            reveal_strlit("mock");
            reveal_strlit("cloud-hypervisor");
            reveal_strlit("ch");
        }
        let v = chars_of(s);
        if eq_str(v.as_slice(), "mock") {
            assert("mock"@.len() != "cloud-hypervisor"@.len() && "mock"@.len() != "ch"@.len());
            Ok(DriverKind::Mock)
        } else if eq_str(v.as_slice(), "cloud-hypervisor") || eq_str(v.as_slice(), "ch") {
            Ok(DriverKind::CloudHypervisor)
        } else {
            Err(spec_error3("unknown driver '", v.as_slice(), "' (mock | cloud-hypervisor)"))
        }
    }
}

/// Lifecycle state of a guest.
#[derive(Clone, Copy, Debug, PartialEq, Eq, Structural)]
pub enum VmState {
    Created,
    Running,
    Stopped,
    Failed,
}

impl VmState {
    pub open spec fn spec_as_str(self) -> Seq<char> {
        match self {
            VmState::Created => "created"@,
            VmState::Running => "running"@,
            VmState::Stopped => "stopped"@,
            VmState::Failed => "failed"@,
        }
    }

    /// The state's display name.
    pub fn as_str(self) -> (r: &'static str)
        ensures
            r@ == self.spec_as_str(),
    {
        match self {
            VmState::Created => {
                proof {
                    reveal_strlit("created");
                }
                "created"
            },
            VmState::Running => {
                proof {
                    reveal_strlit("running");
                }
                "running"
            },
            VmState::Stopped => {
                proof {
                    reveal_strlit("stopped");
                }
                "stopped"
            },
            VmState::Failed => {
                proof {
                    reveal_strlit("failed");
                }
                "failed"
            },
        }
    }
}

/// A snapshot of a volume.
#[derive(Debug, PartialEq, Eq)]
pub struct VolumeSnapshot {
    pub name: String,
    pub created_unix: u64,
    /// Copy-based snapshot file. Absent for qcow2 internal snapshots.
    pub path: Option<String>,
}

/// An ISO image in the library.
#[derive(Debug, PartialEq, Eq)]
pub struct IsoRecord {
    pub name: String,
    pub path: String,
    pub size_bytes: u64,
}

#[derive(Debug)]
pub struct CreateVolumeRequest {
    pub name: String,
    pub size_bytes: u64,
    pub format: VolumeFormat,
}

#[derive(Debug)]
pub struct CloneVolumeRequest {
    pub name: String,
    pub linked: bool,
}

#[derive(Debug)]
pub struct ResizeVolumeRequest {
    pub size_bytes: u64,
}

#[derive(Debug)]
pub struct SnapshotRequest {
    pub name: String,
}

#[derive(Debug)]
pub struct AttachIsoRequest {
    pub iso: String,
}

#[derive(Debug)]
pub struct ImportIsoRequest {
    pub path: String,
    pub name: Option<String>,
}

/// A disk attached to a guest.
#[derive(Debug, PartialEq, Eq)]
pub struct DiskSpec {
    pub path: String,
    pub readonly: bool,
    pub cdrom: bool,
    pub volume_id: Option<VolumeId>,
    pub iso_name: Option<String>,
}

/// A NIC of a guest.
#[derive(Debug, PartialEq, Eq)]
pub struct NetSpec {
    /// TAP device name; allocated when omitted.
    pub tap: Option<String>,
}

impl Default for NetSpec {
    fn default() -> (r: NetSpec)
        ensures
            r.tap is None,
    {
        NetSpec { tap: None }
    }
}

/// What a guest is made of.
#[derive(Debug, PartialEq, Eq)]
pub struct VmSpec {
    pub name: String,
    pub vcpus: u8,
    pub memory_mib: u32,
    pub kernel: Option<String>,
    pub cmdline: Option<String>,
    pub initramfs: Option<String>,
    pub disks: Vec<DiskSpec>,
    pub nets: Vec<NetSpec>,
    pub serial_log: Option<String>,
    /// Restarted on another node when its node goes offline.
    pub ha: bool,
    /// Started when its node's daemon comes up.
    pub autostart: bool,
    /// Seconds after the daemon's start before the guest is started.
    pub autostart_delay: u64,
    /// Guests start in ascending order.
    pub autostart_order: u32,
}

pub fn default_vcpus() -> (r: u8)
    ensures
        r == DEFAULT_VCPUS,
{
    DEFAULT_VCPUS
}

pub fn default_memory_mib() -> (r: u32)
    ensures
        r == DEFAULT_MEMORY_MIB,
{
    DEFAULT_MEMORY_MIB
}

/// Why a spec with this name, vCPU count and memory is refused, if it is: a blank name,
/// no vCPU, or less than 64 MiB, checked in that order.
pub open spec fn spec_refusal(name: Seq<char>, vcpus: u8, memory_mib: u32) -> Option<Seq<char>> {
    if trim(name).len() == 0 {
        Some("name is required"@)
    } else if vcpus == 0 {
        Some("vcpus must be >= 1"@)
    } else if memory_mib < 64 {
        Some("memory_mib must be >= 64"@)
    } else {
        None
    }
}

impl VmSpec {
    /// A spec needs a non-blank name, at least one vCPU and at least 64 MiB.
    pub fn validate(&self) -> (r: Result<(), TypesError>)
        ensures
            match spec_refusal(self.name@, self.vcpus, self.memory_mib) {
                Some(m) => r matches Err(e) && e@ == TypesErrorView::InvalidSpec(m),
                None => r is Ok,
            },
    {
        let n = chars_of(self.name.as_str());
        let t = trim_vec(n.as_slice());
        if t.len() == 0 {
            return Err(spec_error("name is required"));
        }
        if self.vcpus == 0 {
            return Err(spec_error("vcpus must be >= 1"));
        }
        if self.memory_mib < 64 {
            return Err(spec_error("memory_mib must be >= 64"));
        }
        Ok(())
    }
}

/// A guest in the inventory.
#[derive(Debug, PartialEq, Eq)]
pub struct VmRecord {
    pub id: VmId,
    pub spec: VmSpec,
    pub state: VmState,
    /// The guest's console socket, once its hypervisor made one.
    pub console_socket: Option<String>,
    /// The guest's graphics socket, once its hypervisor made one.
    pub graphics_socket: Option<String>,
    /// The node the guest is placed on.
    pub node_id: Option<NodeId>,
    /// A template is only cloned, never started.
    pub template: bool,
    pub pid: Option<u32>,
    pub api_socket: Option<String>,
    pub serial_log: Option<String>,
    pub last_error: Option<String>,
}

/// A volume in the inventory.
#[derive(Debug, PartialEq, Eq)]
pub struct VolumeRecord {
    pub id: VolumeId,
    pub name: String,
    pub format: VolumeFormat,
    pub size_bytes: u64,
    pub path: String,
    pub backing_id: Option<VolumeId>,
    pub snapshots: Vec<VolumeSnapshot>,
}

// ---------------------------------------------------------------------------
// Sizes
// ---------------------------------------------------------------------------

/// Multiplier of a (lower-cased, trimmed) size suffix.
pub open spec fn suffix_mul(sfx: Seq<char>) -> Option<nat> {
    if sfx == ""@ || sfx == "b"@ {
        Some(1)
    } else if sfx == "k"@ || sfx == "kb"@ || sfx == "kib"@ {
        Some(1024)
    } else if sfx == "m"@ || sfx == "mb"@ || sfx == "mib"@ {
        Some(1048576)
    } else if sfx == "g"@ || sfx == "gb"@ || sfx == "gib"@ {
        Some(1073741824)
    } else if sfx == "t"@ || sfx == "tb"@ || sfx == "tib"@ {
        Some(1099511627776)
    } else {
        None
    }
}

/// Index of the first non-digit at or after `i` (or the length).
pub open spec fn digit_run(s: Seq<char>, i: int) -> int
    decreases s.len() - i,
{
    if i < 0 || i >= s.len() {
        if i < 0 {
            0
        } else {
            s.len() as int
        }
    } else if is_digit(s[i]) {
        digit_run(s, i + 1)
    } else {
        i
    }
}

/// What `parse_size` returns: the leading digits times the unit of the suffix.
pub open spec fn spec_parse_size(input: Seq<char>) -> Result<nat, TypesErrorView> {
    let raw = trim(input);
    if raw.len() == 0 {
        Err(TypesErrorView::InvalidSpec("size is required"@))
    } else {
        let split = digit_run(raw, 0);
        let digits = raw.take(split);
        let sfx = lower_seq(trim(raw.skip(split)));
        match parse_unsigned(digits, u64::MAX as nat) {
            None => Err(TypesErrorView::InvalidSpec("invalid size '"@ + input + "'"@)),
            Some(n) => match suffix_mul(sfx) {
                None => Err(TypesErrorView::InvalidSpec("unknown size suffix '"@ + sfx + "'"@)),
                Some(m) => if n * m > u64::MAX {
                    Err(TypesErrorView::InvalidSpec("size overflow"@))
                } else {
                    Ok(n * m)
                },
            },
        }
    }
}

fn suffix_mul_exec(sfx: &[char]) -> (r: Option<u64>)
    ensures
        match r {
            Some(m) => suffix_mul(sfx@) == Some(m as nat),
            None => suffix_mul(sfx@) is None,
        },
{
    proof {
        reveal_strlit("");
    }
    if sfx.len() == 0 || eq_str(sfx, "b") {
        proof {
            if sfx.len() == 0 {
                assert(sfx@ =~= ""@);
            }
        }
        Some(1)
    } else if eq_str(sfx, "k") || eq_str(sfx, "kb") || eq_str(sfx, "kib") {
        Some(1024)
    } else if eq_str(sfx, "m") || eq_str(sfx, "mb") || eq_str(sfx, "mib") {
        Some(1048576)
    } else if eq_str(sfx, "g") || eq_str(sfx, "gb") || eq_str(sfx, "gib") {
        Some(1073741824)
    } else if eq_str(sfx, "t") || eq_str(sfx, "tb") || eq_str(sfx, "tib") {
        Some(1099511627776)
    } else {
        None
    }
}

/// Parse `10G`, `512M`, `1GiB`, `4096` … into bytes.
pub fn parse_size(input: &str) -> (r: Result<u64, TypesError>)
    ensures
        match r {
            Ok(n) => spec_parse_size(input@) == Ok::<nat, TypesErrorView>(n as nat),
            Err(e) => spec_parse_size(input@) == Err::<nat, TypesErrorView>(e@),
        },
{
    let iv = chars_of(input);
    let raw = trim_vec(iv.as_slice());
    if raw.len() == 0 {
        return Err(spec_error("size is required"));
    }
    let mut split: usize = 0;
    while split < raw.len() && is_digit_char(raw[split])
        invariant
            split <= raw.len(),
            digit_run(raw@, split as int) == digit_run(raw@, 0),
        decreases raw.len() - split,
    {
        split += 1;
    }
    let digits = slice_vec(raw.as_slice(), 0, split);
    let rest = slice_vec(raw.as_slice(), split, raw.len());
    assert(digits@ =~= raw@.take(split as int));
    assert(rest@ =~= raw@.skip(split as int));
    let rest_t = trim_vec(rest.as_slice());
    let sfx = lower_vec(rest_t.as_slice());
    let n = match parse_unsigned_vec(digits.as_slice(), u64::MAX) {
        None => {
            return Err(spec_error3("invalid size '", iv.as_slice(), "'"));
        },
        Some(n) => n,
    };
    let m = match suffix_mul_exec(sfx.as_slice()) {
        None => {
            return Err(spec_error3("unknown size suffix '", sfx.as_slice(), "'"));
        },
        Some(m) => m,
    };
    match n.checked_mul(m) {
        None => Err(spec_error("size overflow")),
        Some(v) => Ok(v),
    }
}

/// The largest binary unit that divides `bytes` exactly, at least 1 of it.
pub open spec fn spec_format_size(bytes: u64) -> Seq<char> {
    let kib: nat = 1024;
    let mib: nat = 1048576;
    let gib: nat = 1073741824;
    let tib: nat = 1099511627776;
    if (bytes as nat) >= tib && (bytes as nat) % tib == 0 {
        dec(bytes as nat / tib) + "TiB"@
    } else if (bytes as nat) >= gib && (bytes as nat) % gib == 0 {
        dec(bytes as nat / gib) + "GiB"@
    } else if (bytes as nat) >= mib && (bytes as nat) % mib == 0 {
        dec(bytes as nat / mib) + "MiB"@
    } else if (bytes as nat) >= kib && (bytes as nat) % kib == 0 {
        dec(bytes as nat / kib) + "KiB"@
    } else {
        dec(bytes as nat) + "B"@
    }
}

fn num_unit(n: u64, unit: &str) -> (r: String)
    ensures
        r@ == dec(n as nat) + unit@,
{
    let mut v = dec_vec(n);
    append_str(&mut v, unit);
    string_of(v.as_slice())
}

/// Human-readable size in the largest exact binary unit (`1GiB`, `512MiB`, `100B`).
pub fn format_size(bytes: u64) -> (r: String)
    ensures
        r@ == spec_format_size(bytes),
{
    let kib: u64 = 1024;
    let mib: u64 = 1048576;
    let gib: u64 = 1073741824;
    let tib: u64 = 1099511627776;
    if bytes >= tib && bytes % tib == 0 {
        num_unit(bytes / tib, "TiB")
    } else if bytes >= gib && bytes % gib == 0 {
        num_unit(bytes / gib, "GiB")
    } else if bytes >= mib && bytes % mib == 0 {
        num_unit(bytes / mib, "MiB")
    } else if bytes >= kib && bytes % kib == 0 {
        num_unit(bytes / kib, "KiB")
    } else {
        num_unit(bytes, "B")
    }
}

proof fn lemma_digit_run(s: Seq<char>, i: int, k: int)
    requires
        0 <= i <= k < s.len(),
        forall|j: int| i <= j < k ==> is_digit(#[trigger] s[j]),
        !is_digit(s[k]),
    ensures
        digit_run(s, i) == k,
    decreases k - i,
{
    if i < k {
        lemma_digit_run(s, i + 1, k);
    }
}

/// A count followed by a unit word parses to the count times the unit.
proof fn lemma_parse_num_unit(q: nat, u: Seq<char>, lu: Seq<char>, m: nat)
    requires
        q * m <= u64::MAX,
        u.len() > 0,
        !is_digit(u[0]),
        forall|j: int| 0 <= j < u.len() ==> !crate::text::is_ws(#[trigger] u[j]),
        lower_seq(u) == lu,
        suffix_mul(lu) == Some(m),
        m >= 1,
    ensures
        spec_parse_size(dec(q) + u) == Ok::<nat, TypesErrorView>(q * m),
{
    crate::text::lemma_dec(q);
    let d = dec(q);
    let s = d + u;
    assert(s[0] == d[0]);
    assert(crate::text::is_digit(d[0]));
    assert(s.last() == u.last());
    assert(!crate::text::is_ws(u[u.len() - 1]));
    crate::text::lemma_trim_id(s);
    assert forall|j: int| 0 <= j < d.len() implies is_digit(#[trigger] s[j]) by {
        assert(s[j] == d[j]);
    }
    assert(s[d.len() as int] == u[0]);
    lemma_digit_run(s, 0, d.len() as int);
    assert(s.take(d.len() as int) =~= d);
    assert(s.skip(d.len() as int) =~= u);
    crate::text::lemma_trim_id(u);
    assert(q <= q * m) by (nonlinear_arith)
        requires
            m >= 1,
    ;
    crate::text::lemma_parse_dec(q, u64::MAX as nat);
}

proof fn lemma_unit_words()
    ensures
        suffix_mul("b"@) == Some(1nat),
        suffix_mul("kib"@) == Some(1024nat),
        suffix_mul("mib"@) == Some(1048576nat),
        suffix_mul("gib"@) == Some(1073741824nat),
        suffix_mul("tib"@) == Some(1099511627776nat),
{
    reveal_strlit("");
    reveal_strlit("b");
    reveal_strlit("k");
    reveal_strlit("kb");
    reveal_strlit("kib");
    reveal_strlit("m");
    reveal_strlit("mb");
    reveal_strlit("mib");
    reveal_strlit("g");
    reveal_strlit("gb");
    reveal_strlit("gib");
    reveal_strlit("t");
    reveal_strlit("tb");
    reveal_strlit("tib");
    assert("kib"@.len() == 3 && ""@.len() == 0 && "b"@.len() == 1);
    assert("kib"@ != ""@ && "kib"@ != "b"@);
    assert("kib"@ != "k"@ && "kib"@ != "kb"@);
    assert(suffix_mul("kib"@) == Some(1024nat));
    assert("mib"@[0] != "kib"@[0]);
    assert("gib"@[0] != "kib"@[0] && "gib"@[0] != "mib"@[0]);
    assert("tib"@[0] != "kib"@[0] && "tib"@[0] != "mib"@[0] && "tib"@[0] != "gib"@[0]);
}

/// The rendering of a size parses back to the size.
pub proof fn lemma_size_roundtrip(bytes: u64)
    ensures
        spec_parse_size(spec_format_size(bytes)) == Ok::<nat, TypesErrorView>(bytes as nat),
{
    reveal_strlit("TiB");
    reveal_strlit("GiB");
    reveal_strlit("MiB");
    reveal_strlit("KiB");
    reveal_strlit("B");
    reveal_strlit("tib");
    reveal_strlit("gib");
    reveal_strlit("mib");
    reveal_strlit("kib");
    reveal_strlit("b");
    lemma_unit_words();
    let b = bytes as nat;
    let kib: nat = 1024;
    let mib: nat = 1048576;
    let gib: nat = 1073741824;
    let tib: nat = 1099511627776;
    if b >= tib && b % tib == 0 {
        vstd::arithmetic::div_mod::lemma_fundamental_div_mod(b as int, tib as int);
        assert(lower_seq("TiB"@) =~= "tib"@);
        lemma_parse_num_unit(b / tib, "TiB"@, "tib"@, tib);
    } else if b >= gib && b % gib == 0 {
        vstd::arithmetic::div_mod::lemma_fundamental_div_mod(b as int, gib as int);
        assert(lower_seq("GiB"@) =~= "gib"@);
        lemma_parse_num_unit(b / gib, "GiB"@, "gib"@, gib);
    } else if b >= mib && b % mib == 0 {
        vstd::arithmetic::div_mod::lemma_fundamental_div_mod(b as int, mib as int);
        assert(lower_seq("MiB"@) =~= "mib"@);
        lemma_parse_num_unit(b / mib, "MiB"@, "mib"@, mib);
    } else if b >= kib && b % kib == 0 {
        vstd::arithmetic::div_mod::lemma_fundamental_div_mod(b as int, kib as int);
        assert(lower_seq("KiB"@) =~= "kib"@);
        lemma_parse_num_unit(b / kib, "KiB"@, "kib"@, kib);
    } else {
        assert(lower_seq("B"@) =~= "b"@);
        lemma_parse_num_unit(b, "B"@, "b"@, 1);
    }
}

} // verus!
