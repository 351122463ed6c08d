//! Decisions over the daemon's inventory: free guest numbers and volume names, which
//! guests use a volume or an ISO, where replicated volumes pin a guest, and whether a
//! guest may start on this host.
use vstd::prelude::*;

use crate::host::DaemonError;
use crate::ids::{has_v4_layout, uuid_text, NodeId, VmId, VolumeId};
use crate::placement::{
    guest_memory_budget_mib, host_memory_reserve_mib, sat_sub, spec_budget,
    spec_guest_start_fits, spec_reserve,
};
use crate::storage::strs_view;
use crate::text::{append_chars, append_str, chars_eq, chars_of, dec, dec_vec, string_of};
use crate::cluster::ClusterMemberStatus;
use crate::placement::{
    schedule_define, schedule_define_ok, schedule_storage, schedule_storage_ok,
    spec_unschedulable_detail, unschedulable_detail, NodeLoad,
};
use crate::procfs::sat_add;
use crate::types::{DiskSpec, VmRecord, VmSpec, VmState, VolumeRecord};

verus! {

// ---------------------------------------------------------------------------
// Guest numbers
// ---------------------------------------------------------------------------

/// Guest numbers run from 100 up to this bound.
pub const MAX_NUMERIC_VM_ID: u64 = 9_999_999_999;

/// Is `x` in `v`?
fn u64_in(v: &Vec<u64>, x: u64) -> (r: bool)
    ensures
        r == v@.contains(x),
{
    let mut i: usize = 0;
    while i < v.len()
        invariant
            i <= v.len(),
            forall|j: int| 0 <= j < i ==> v@[j] != x,
        decreases v.len() - i,
    {
        if v[i] == x {
            return true;
        }
        i += 1;
    }
    false
}

/// The lowest guest number from 100 on that `used` does not hold; none when every number
/// up to `MAX_NUMERIC_VM_ID` is taken (the caller then draws a random id).
pub fn next_numeric_vm_id(used: &Vec<u64>) -> (r: Option<u64>)
    ensures
        match r {
            Some(n) => {
                &&& 100 <= n <= MAX_NUMERIC_VM_ID
                &&& !used@.contains(n)
                &&& forall|j: u64| 100 <= j < n ==> used@.contains(j)
            },
            None => forall|j: u64| 100 <= j <= MAX_NUMERIC_VM_ID ==> used@.contains(j),
        },
{
    let mut n: u64 = 100;
    while u64_in(used, n)
        invariant
            100 <= n <= MAX_NUMERIC_VM_ID,
            forall|j: u64| 100 <= j < n ==> used@.contains(j),
        decreases MAX_NUMERIC_VM_ID - n,
    {
        n += 1;
        if n > MAX_NUMERIC_VM_ID {
            return None;
        }
    }
    Some(n)
}

// ---------------------------------------------------------------------------
// Volume names
// ---------------------------------------------------------------------------

/// `base-i` for a suffix number.
pub open spec fn suffixed(base: Seq<char>, i: nat) -> Seq<char> {
    base + seq!['-'] + dec(i)
}

/// The first suffix from `i` below 10000 whose name is free, or 10000.
pub open spec fn first_free_suffix(base: Seq<char>, names: Seq<Seq<char>>, i: nat) -> nat
    decreases 10000 - i,
{
    if i >= 10000 {
        10000
    } else if !names.contains(suffixed(base, i)) {
        i
    } else {
        first_free_suffix(base, names, i + 1)
    }
}

proof fn lemma_first_free(base: Seq<char>, names: Seq<Seq<char>>, i: nat)
    requires
        i <= 10000,
    ensures
        i <= first_free_suffix(base, names, i) <= 10000,
        first_free_suffix(base, names, i) < 10000 ==> !names.contains(
            suffixed(base, first_free_suffix(base, names, i)),
        ),
        forall|j: nat| i <= j < first_free_suffix(base, names, i) ==> names.contains(
            #[trigger] suffixed(base, j),
        ),
    decreases 10000 - i,
{
    if i < 10000 && names.contains(suffixed(base, i)) {
        lemma_first_free(base, names, i + 1);
    }
}

fn names_have(names: &Vec<String>, x: &Vec<char>) -> (r: bool)
    ensures
        r == strs_view(names@).contains(x@),
{
    let mut i: usize = 0;
    while i < names.len()
        invariant
            i <= names.len(),
            forall|j: int| 0 <= j < i ==> strs_view(names@)[j] != x@,
        decreases names.len() - i,
    {
        if chars_eq(chars_of(names[i].as_str()).as_slice(), x.as_slice()) {
            assert(strs_view(names@)[i as int] == x@);
            return true;
        }
        i += 1;
    }
    false
}

/// A volume name not in `taken`: `base` itself, else `base-2`, `base-3`, … up to
/// `base-9999`, else `base-` and the text of a fresh random (version 4) volume id.
pub fn unique_volume_name(base: &str, taken: &Vec<String>) -> (r: String)
    ensures
        ({
            let names = strs_view(taken@);
            let k = first_free_suffix(base@, names, 2);
            if !names.contains(base@) {
                r@ == base@
            } else if k < 10000 {
                r@ == suffixed(base@, k)
            } else {
                exists|v: u128| has_v4_layout(v) && r@ == base@ + seq!['-'] + #[trigger] uuid_text(v)
            }
        }),
{
    let b = chars_of(base);
    let ghost names = strs_view(taken@);
    if !names_have(taken, &b) {
        return string_of(b.as_slice());
    }
    proof {
        lemma_first_free(base@, names, 2);
    }
    let mut i: u64 = 2;
    while i < 10000
        invariant
            2 <= i <= 10000,
            b@ == base@,
            names == strs_view(taken@),
            names.contains(base@),
            first_free_suffix(base@, names, 2) == first_free_suffix(base@, names, i as nat),
        decreases 10000 - i,
    {
        let mut name = b.clone();
        name.push('-');
        append_chars(&mut name, dec_vec(i).as_slice());
        assert(name@ =~= suffixed(base@, i as nat));
        if !names_have(taken, &name) {
            return string_of(name.as_slice());
        }
        i += 1;
    }
    let mut name = b.clone();
    name.push('-');
    let vid = VolumeId::new();
    let id = vid.to_string();
    append_str(&mut name, id.as_str());
    assert(name@ =~= base@ + seq!['-'] + uuid_text(vid.0));
    string_of(name.as_slice())
}

/// When `base` is taken, the suffixed name `unique_volume_name` picks below `base-10000`
/// is free and differs from `base`.
pub proof fn lemma_unique_volume_name_free(base: Seq<char>, names: Seq<Seq<char>>)
    ensures
        names.contains(base) && first_free_suffix(base, names, 2) < 10000 ==> !names.contains(
            suffixed(base, first_free_suffix(base, names, 2)),
        ),
        names.contains(base) && first_free_suffix(base, names, 2) < 10000 ==> suffixed(
            base,
            first_free_suffix(base, names, 2),
        ) != base,
{
    lemma_first_free(base, names, 2);
    let k = first_free_suffix(base, names, 2);
    if names.contains(base) && k < 10000 {
        assert(suffixed(base, k).len() > base.len());
    }
}

// ---------------------------------------------------------------------------
// Room to start a guest
// ---------------------------------------------------------------------------

/// Total of a list of memory sizes.
pub open spec fn mib_total(s: Seq<u32>) -> nat
    decreases s.len(),
{
    if s.len() == 0 {
        0
    } else {
        mib_total(s.drop_last()) + s.last() as nat
    }
}

fn total_mib(v: &Vec<u32>) -> (r: u64)
    requires
        mib_total(v@) <= u64::MAX,
    ensures
        r == mib_total(v@),
{
    let mut t: u64 = 0;
    let mut i: usize = 0;
    while i < v.len()
        invariant
            i <= v.len(),
            t == mib_total(v@.take(i as int)),
            mib_total(v@) <= u64::MAX,
        decreases v.len() - i,
    {
        proof {
            assert(v@.take(i as int + 1).drop_last() =~= v@.take(i as int));
            lemma_total_prefix(v@, i as int + 1);
        }
        t = t + v[i] as u64;
        i += 1;
    }
    assert(v@.take(v.len() as int) =~= v@);
    t
}

proof fn lemma_total_prefix(s: Seq<u32>, k: int)
    requires
        0 <= k <= s.len(),
    ensures
        mib_total(s.take(k)) <= mib_total(s),
    decreases s.len() - k,
{
    if k < s.len() {
        lemma_total_prefix(s, k + 1);
        assert(s.take(k + 1).drop_last() =~= s.take(k));
    } else {
        assert(s.take(k) =~= s);
    }
}

/// Host RAM as a `u32`, capped.
pub open spec fn capped_mib(host_mib: u64) -> u32 {
    if host_mib > u32::MAX {
        u32::MAX
    } else {
        host_mib as u32
    }
}

pub open spec fn low_disk_msg(avail: u64) -> Seq<char> {
    "only "@ + dec(avail as nat)
        + " MiB free on storage (need ≥ 1024 MiB); free disk or expand the appliance volume"@
}

pub open spec fn low_memory_msg(need: u64, running: nat, host: u64) -> Seq<char> {
    let reserve = spec_reserve(capped_mib(host));
    let free = if host < reserve {
        0nat
    } else {
        (host - reserve) as nat
    };
    "guest needs "@ + dec(need as nat) + " MiB; already running "@ + dec(running)
        + " MiB of guests on a "@ + dec(host as nat) + " MiB host ("@ + dec(free)
        + " MiB available after "@ + dec(reserve as nat) + " MiB host reserve)"@
}

/// Whether a guest that needs `need_mib` may start: refused below 1 GiB of free storage
/// (when that is known), then when the host's RAM (when known), less its reserve, does not
/// hold the guests already running here (`running`) and this one.
pub fn check_start_capacity(
    avail_mib: Option<u64>,
    host_mib: Option<u64>,
    running: &Vec<u32>,
    need_mib: u64,
) -> (r: Result<(), DaemonError>)
    requires
        mib_total(running@) <= u64::MAX,
    ensures
        match avail_mib {
            Some(a) if a < 1024 => r matches Err(DaemonError::Capacity(m)) && m@ == low_disk_msg(
                a,
            ),
            _ => match host_mib {
                Some(h) if !spec_guest_start_fits(h, mib_total(running@) as u64, need_mib) => r matches Err(
                    DaemonError::Capacity(m),
                ) && m@ == low_memory_msg(need_mib, mib_total(running@), h),
                _ => r is Ok,
            },
        },
{
    if let Some(a) = avail_mib {
        if a < 1024 {
            let mut m = chars_of("only ");
            append_chars(&mut m, dec_vec(a).as_slice());
            append_str(
                &mut m,
                " MiB free on storage (need ≥ 1024 MiB); free disk or expand the appliance volume",
            );
            return Err(DaemonError::Capacity(string_of(m.as_slice())));
        }
    }
    let run = total_mib(running);
    if let Some(h) = host_mib {
        if !crate::placement::guest_start_fits(h, run, need_mib) {
            let hu: u32 = if h > u32::MAX as u64 {
                u32::MAX
            } else {
                h as u32
            };
            let reserve = host_memory_reserve_mib(hu) as u64;
            let free = h.saturating_sub(reserve);
            let mut m = chars_of("guest needs ");
            append_chars(&mut m, dec_vec(need_mib).as_slice());
            append_str(&mut m, " MiB; already running ");
            append_chars(&mut m, dec_vec(run).as_slice());
            append_str(&mut m, " MiB of guests on a ");
            append_chars(&mut m, dec_vec(h).as_slice());
            append_str(&mut m, " MiB host (");
            append_chars(&mut m, dec_vec(free).as_slice());
            append_str(&mut m, " MiB available after ");
            append_chars(&mut m, dec_vec(reserve).as_slice());
            append_str(&mut m, " MiB host reserve)");
            assert(m@ =~= low_memory_msg(need_mib, mib_total(running@), h));
            return Err(DaemonError::Capacity(string_of(m.as_slice())));
        }
    }
    Ok(())
}

/// RAM left for starting guests here: the host's guest budget less what running guests
/// (`running`) hold; none when the host's RAM is unknown.
pub fn start_memory_budget_mib(host_mib: Option<u64>, running: &Vec<u32>) -> (r: Option<u32>)
    requires
        mib_total(running@) <= u32::MAX,
    ensures
        match host_mib {
            None => r is None,
            Some(h) => r == Some(sat_sub(spec_budget(capped_mib(h)), mib_total(running@) as u32)),
        },
{
    let h = host_mib?;
    let hu: u32 = if h > u32::MAX as u64 {
        u32::MAX
    } else {
        h as u32
    };
    let run = total_mib(running);
    Some(guest_memory_budget_mib(hu).saturating_sub(run as u32))
}

// ---------------------------------------------------------------------------
// Replica affinity
// ---------------------------------------------------------------------------

/// `x` is in every set of `rest`.
pub open spec fn in_all(rest: Seq<Seq<NodeId>>, x: NodeId) -> bool {
    forall|j: int| 0 <= j < rest.len() ==> #[trigger] rest[j].contains(x)
}

/// The nodes of `xs`, in order, that every set of `rest` holds.
pub open spec fn keep_in_all(xs: Seq<NodeId>, rest: Seq<Seq<NodeId>>) -> Seq<NodeId>
    decreases xs.len(),
{
    if xs.len() == 0 {
        seq![]
    } else {
        let k = keep_in_all(xs.drop_last(), rest);
        if in_all(rest, xs.last()) {
            k.push(xs.last())
        } else {
            k
        }
    }
}

/// Nodes that hold a replica of every replicated volume of a guest: the first replica
/// set's nodes that all the other sets hold; no constraint when there is no set.
pub open spec fn spec_volume_affinity(sets: Seq<Seq<NodeId>>) -> Seq<NodeId> {
    if sets.len() == 0 {
        seq![]
    } else {
        keep_in_all(sets[0], sets.skip(1))
    }
}

pub open spec fn sets_view(sets: Seq<Vec<NodeId>>) -> Seq<Seq<NodeId>> {
    Seq::new(sets.len(), |i: int| sets[i]@)
}

fn node_in(v: &Vec<NodeId>, x: NodeId) -> (r: bool)
    ensures
        r == v@.contains(x),
{
    let mut i: usize = 0;
    while i < v.len()
        invariant
            i <= v.len(),
            forall|j: int| 0 <= j < i ==> v@[j] != x,
        decreases v.len() - i,
    {
        if v[i] == x {
            return true;
        }
        i += 1;
    }
    false
}

pub fn volume_affinity(sets: &Vec<Vec<NodeId>>) -> (r: Vec<NodeId>)
    ensures
        r@ == spec_volume_affinity(sets_view(sets@)),
{
    let ghost sv = sets_view(sets@);
    if sets.len() == 0 {
        return Vec::new();
    }
    let first = &sets[0];
    let ghost rest = sv.skip(1);
    let mut out: Vec<NodeId> = Vec::new();
    let mut i: usize = 0;
    while i < first.len()
        invariant
            i <= first.len(),
            sets.len() > 0,
            sv == sets_view(sets@),
            rest == sv.skip(1),
            first@ == sv[0],
            out@ == keep_in_all(first@.take(i as int), rest),
        decreases first.len() - i,
    {
        let x = first[i];
        let mut all = true;
        let mut j: usize = 1;
        while j < sets.len()
            invariant
                1 <= j <= sets.len(),
                sv == sets_view(sets@),
                rest == sv.skip(1),
                all == (forall|q: int| 0 <= q < j - 1 ==> #[trigger] rest[q].contains(x)),
            decreases sets.len() - j,
        {
            let has = node_in(&sets[j], x);
            assert(rest[j - 1] == sets@[j as int]@);
            all = all && has;
            j += 1;
        }
        assert(all == in_all(rest, x));
        assert(first@.take(i as int + 1).drop_last() =~= first@.take(i as int));
        if all {
            out.push(x);
        }
        i += 1;
    }
    assert(first@.take(first.len() as int) =~= first@);
    out
}

/// Every node of the affinity holds a replica of each replicated volume, and comes from
/// the first set.
pub proof fn lemma_affinity_in_every_set(sets: Seq<Seq<NodeId>>, k: int)
    requires
        0 <= k < spec_volume_affinity(sets).len(),
    ensures
        forall|j: int| 0 <= j < sets.len() ==> #[trigger] sets[j].contains(
            spec_volume_affinity(sets)[k],
        ),
{
    lemma_keep_in_all(sets[0], sets.skip(1), k);
    let x = spec_volume_affinity(sets)[k];
    assert forall|j: int| 0 <= j < sets.len() implies #[trigger] sets[j].contains(x) by {
        if j > 0 {
            assert(sets.skip(1)[j - 1] == sets[j]);
        }
    }
}

proof fn lemma_keep_in_all(xs: Seq<NodeId>, rest: Seq<Seq<NodeId>>, k: int)
    requires
        0 <= k < keep_in_all(xs, rest).len(),
    ensures
        xs.contains(keep_in_all(xs, rest)[k]),
        in_all(rest, keep_in_all(xs, rest)[k]),
    decreases xs.len(),
{
    if xs.len() > 0 {
        let sub = keep_in_all(xs.drop_last(), rest);
        if k < sub.len() {
            lemma_keep_in_all(xs.drop_last(), rest, k);
            let y = sub[k];
            let w = choose|w: int| 0 <= w < xs.drop_last().len() && xs.drop_last()[w] == y;
            assert(xs[w] == y);
        } else {
            assert(xs[xs.len() - 1] == xs.last());
        }
    }
}

// ---------------------------------------------------------------------------
// Who uses what
// ---------------------------------------------------------------------------

/// Operations need a quorum and a node that is not fenced, in that order.
pub fn require_quorum(has_quorum: bool, fenced: bool) -> (r: Result<(), DaemonError>)
    ensures
        !has_quorum ==> r matches Err(DaemonError::NoQuorum),
        has_quorum && fenced ==> r matches Err(DaemonError::Fenced),
        has_quorum && !fenced ==> r is Ok,
{
    if !has_quorum {
        return Err(DaemonError::NoQuorum);
    }
    if fenced {
        return Err(DaemonError::Fenced);
    }
    Ok(())
}

/// A running guest refuses `op`.
pub fn require_stopped(vm: &VmRecord, op: &str) -> (r: Result<(), DaemonError>)
    ensures
        vm.state == VmState::Running ==> (r matches Err(DaemonError::MustBeStopped(id, o)) && id
            == vm.id && o@ == op@),
        vm.state != VmState::Running ==> r is Ok,
{
    if vm.state == VmState::Running {
        return Err(DaemonError::MustBeStopped(vm.id, string_of(chars_of(op).as_slice())));
    }
    Ok(())
}

pub open spec fn disk_has_iso(disk: crate::types::DiskSpec, name: Seq<char>) -> bool {
    match disk.iso_name {
        Some(n) => n@ == name,
        None => false,
    }
}

pub open spec fn uses_iso(vm: VmRecord, name: Seq<char>) -> bool {
    exists|d: int| 0 <= d < vm.spec.disks@.len() && #[trigger] disk_has_iso(vm.spec.disks@[d], name)
}

pub open spec fn uses_volume(vm: VmRecord, id: VolumeId) -> bool {
    exists|d: int| 0 <= d < vm.spec.disks@.len() && #[trigger] vm.spec.disks@[d].volume_id == Some(id)
}

/// The ids of `vms`, in order, that satisfy `p`.
pub open spec fn ids_where(vms: Seq<VmRecord>, p: spec_fn(VmRecord) -> bool) -> Seq<VmId>
    decreases vms.len(),
{
    if vms.len() == 0 {
        seq![]
    } else {
        let k = ids_where(vms.drop_last(), p);
        if p(vms.last()) {
            k.push(vms.last().id)
        } else {
            k
        }
    }
}

fn disks_use_iso(vm: &VmRecord, name: &str) -> (r: bool)
    ensures
        r == uses_iso(*vm, name@),
{
    let n = chars_of(name);
    let mut d: usize = 0;
    while d < vm.spec.disks.len()
        invariant
            d <= vm.spec.disks@.len(),
            n@ == name@,
            forall|q: int| 0 <= q < d ==> !#[trigger] disk_has_iso(vm.spec.disks@[q], name@),
        decreases vm.spec.disks.len() - d,
    {
        if let Some(x) = &vm.spec.disks[d].iso_name {
            if chars_eq(chars_of(x.as_str()).as_slice(), n.as_slice()) {
                assert(disk_has_iso(vm.spec.disks@[d as int], name@));
                return true;
            }
        }
        d += 1;
    }
    false
}

fn disks_use_volume(vm: &VmRecord, id: VolumeId) -> (r: bool)
    ensures
        r == uses_volume(*vm, id),
{
    let mut d: usize = 0;
    while d < vm.spec.disks.len()
        invariant
            d <= vm.spec.disks@.len(),
            forall|q: int| 0 <= q < d ==> #[trigger] vm.spec.disks@[q].volume_id != Some(id),
        decreases vm.spec.disks.len() - d,
    {
        if vm.spec.disks[d].volume_id == Some(id) {
            return true;
        }
        d += 1;
    }
    false
}

/// The guests, in inventory order, with the ISO `name` attached.
pub fn iso_users(vms: &Vec<VmRecord>, name: &str) -> (r: Vec<VmId>)
    ensures
        r@ == ids_where(vms@, |vm: VmRecord| uses_iso(vm, name@)),
{
    let ghost p = |vm: VmRecord| uses_iso(vm, name@);
    let mut out: Vec<VmId> = Vec::new();
    let mut i: usize = 0;
    while i < vms.len()
        invariant
            i <= vms.len(),
            p == (|vm: VmRecord| uses_iso(vm, name@)),
            out@ == ids_where(vms@.take(i as int), p),
        decreases vms.len() - i,
    {
        assert(vms@.take(i as int + 1).drop_last() =~= vms@.take(i as int));
        if disks_use_iso(&vms[i], name) {
            out.push(vms[i].id);
        }
        i += 1;
    }
    assert(vms@.take(vms.len() as int) =~= vms@);
    out
}

/// The guests, in inventory order, with the volume `id` attached.
pub fn volume_users(vms: &Vec<VmRecord>, id: VolumeId) -> (r: Vec<VmId>)
    ensures
        r@ == ids_where(vms@, |vm: VmRecord| uses_volume(vm, id)),
{
    let ghost p = |vm: VmRecord| uses_volume(vm, id);
    let mut out: Vec<VmId> = Vec::new();
    let mut i: usize = 0;
    while i < vms.len()
        invariant
            i <= vms.len(),
            p == (|vm: VmRecord| uses_volume(vm, id)),
            out@ == ids_where(vms@.take(i as int), p),
        decreases vms.len() - i,
    {
        assert(vms@.take(i as int + 1).drop_last() =~= vms@.take(i as int));
        if disks_use_volume(&vms[i], id) {
            out.push(vms[i].id);
        }
        i += 1;
    }
    assert(vms@.take(vms.len() as int) =~= vms@);
    out
}

/// A disk change on volume `id` waits until no guest using it runs: the first running
/// user, in inventory order, refuses it.
pub fn require_volume_idle(vms: &Vec<VmRecord>, id: VolumeId) -> (r: Result<(), DaemonError>)
    ensures
        match r {
            Ok(()) => forall|i: int|
                0 <= i < vms@.len() && uses_volume(#[trigger] vms@[i], id) ==> vms@[i].state
                    != VmState::Running,
            Err(e) => exists|i: int|
                0 <= i < vms@.len() && uses_volume(#[trigger] vms@[i], id) && vms@[i].state
                    == VmState::Running && (e matches DaemonError::MustBeStopped(v, o) && v
                    == vms@[i].id && o@ == "change disk"@) && forall|j: int|
                    0 <= j < i ==> !(uses_volume(#[trigger] vms@[j], id) && vms@[j].state
                        == VmState::Running),
        },
{
    let mut i: usize = 0;
    while i < vms.len()
        invariant
            i <= vms.len(),
            forall|j: int|
                0 <= j < i ==> !(uses_volume(#[trigger] vms@[j], id) && vms@[j].state
                    == VmState::Running),
        decreases vms.len() - i,
    {
        if disks_use_volume(&vms[i], id) && vms[i].state == VmState::Running {
            return Err(
                DaemonError::MustBeStopped(vms[i].id, string_of(chars_of("change disk").as_slice())),
            );
        }
        i += 1;
    }
    Ok(())
}

/// Is volume `id` the backing file of another volume?
pub fn volume_is_backing(vols: &Vec<VolumeRecord>, id: VolumeId) -> (r: bool)
    ensures
        r == exists|i: int| 0 <= i < vols@.len() && #[trigger] vols@[i].backing_id == Some(id),
{
    let mut i: usize = 0;
    while i < vols.len()
        invariant
            i <= vols.len(),
            forall|j: int| 0 <= j < i ==> #[trigger] vols@[j].backing_id != Some(id),
        decreases vols.len() - i,
    {
        if vols[i].backing_id == Some(id) {
            return true;
        }
        i += 1;
    }
    false
}


// ---------------------------------------------------------------------------
// Templates and node loads
// ---------------------------------------------------------------------------

/// A template is only cloned: every other operation `op` on it is refused.
pub fn require_not_template(vm: &VmRecord, op: &str) -> (r: Result<(), DaemonError>)
    ensures
        vm.template ==> (r matches Err(DaemonError::IsTemplate(id, o)) && id == vm.id && o@
            == op@),
        !vm.template ==> r is Ok,
{
    if vm.template {
        return Err(DaemonError::IsTemplate(vm.id, string_of(chars_of(op).as_slice())));
    }
    Ok(())
}

/// The guest runs, placed on `node`.
pub open spec fn runs_on(vm: VmRecord, node: NodeId) -> bool {
    vm.state == VmState::Running && vm.node_id == Some(node)
}

/// How many of `vms` run on `node`.
pub open spec fn count_running_on(vms: Seq<VmRecord>, node: NodeId) -> nat
    decreases vms.len(),
{
    if vms.len() == 0 {
        0
    } else {
        count_running_on(vms.drop_last(), node) + if runs_on(vms.last(), node) {
            1nat
        } else {
            0nat
        }
    }
}

/// vCPUs of the guests running on `node`.
pub open spec fn vcpus_on(vms: Seq<VmRecord>, node: NodeId) -> nat
    decreases vms.len(),
{
    if vms.len() == 0 {
        0
    } else {
        vcpus_on(vms.drop_last(), node) + if runs_on(vms.last(), node) {
            vms.last().spec.vcpus as nat
        } else {
            0nat
        }
    }
}

/// Memory (MiB) of the guests running on `node`.
pub open spec fn memory_on(vms: Seq<VmRecord>, node: NodeId) -> nat
    decreases vms.len(),
{
    if vms.len() == 0 {
        0
    } else {
        memory_on(vms.drop_last(), node) + if runs_on(vms.last(), node) {
            vms.last().spec.memory_mib as nat
        } else {
            0nat
        }
    }
}

proof fn lemma_on_prefix(vms: Seq<VmRecord>, node: NodeId, k: int)
    requires
        0 <= k <= vms.len(),
    ensures
        vcpus_on(vms.take(k), node) <= vcpus_on(vms, node),
        memory_on(vms.take(k), node) <= memory_on(vms, node),
        count_running_on(vms.take(k), node) <= count_running_on(vms, node),
    decreases vms.len(),
{
    if k < vms.len() {
        assert(vms.drop_last().take(k) =~= vms.take(k));
        lemma_on_prefix(vms.drop_last(), node, k);
    } else {
        assert(vms.take(k) =~= vms);
    }
}

/// How many guests run on this node (`self_id`).
pub fn running_local_guest_count(vms: &Vec<VmRecord>, self_id: NodeId) -> (r: usize)
    ensures
        r == count_running_on(vms@, self_id),
{
    let mut n: usize = 0;
    let mut i: usize = 0;
    while i < vms.len()
        invariant
            i <= vms.len(),
            n == count_running_on(vms@.take(i as int), self_id),
        decreases vms.len() - i,
    {
        assert(vms@.take(i as int + 1).drop_last() =~= vms@.take(i as int));
        proof {
            lemma_on_prefix(vms@, self_id, i as int + 1);
            assert(count_running_on(vms@, self_id) <= vms@.len()) by {
                lemma_count_le_len(vms@, self_id);
            }
        }
        let here = match vms[i].node_id {
            Some(id) => id == self_id,
            None => false,
        };
        if vms[i].state == VmState::Running && here {
            n += 1;
        }
        i += 1;
    }
    assert(vms@.take(vms.len() as int) =~= vms@);
    n
}

proof fn lemma_count_le_len(vms: Seq<VmRecord>, node: NodeId)
    ensures
        count_running_on(vms, node) <= vms.len(),
    decreases vms.len(),
{
    if vms.len() > 0 {
        lemma_count_le_len(vms.drop_last(), node);
    }
}

/// The scheduler's view of a member: its capacity, and what the guests running on it use.
pub open spec fn load_of(m: ClusterMemberStatus, vms: Seq<VmRecord>) -> NodeLoad {
    NodeLoad {
        id: m.id,
        online: m.online,
        cpus: m.cpus,
        memory_mib: m.memory_mib,
        used_vcpus: vcpus_on(vms, m.id) as u32,
        used_memory_mib: memory_on(vms, m.id) as u32,
    }
}

/// What the guests running on `node` use: `(vcpus, memory MiB)`.
fn usage_on(vms: &Vec<VmRecord>, node: NodeId) -> (r: (u32, u32))
    requires
        vcpus_on(vms@, node) <= u32::MAX,
        memory_on(vms@, node) <= u32::MAX,
    ensures
        r.0 == vcpus_on(vms@, node),
        r.1 == memory_on(vms@, node),
{
    let mut cpus: u32 = 0;
    let mut mem: u32 = 0;
    let mut i: usize = 0;
    while i < vms.len()
        invariant
            i <= vms.len(),
            cpus == vcpus_on(vms@.take(i as int), node),
            mem == memory_on(vms@.take(i as int), node),
            vcpus_on(vms@, node) <= u32::MAX,
            memory_on(vms@, node) <= u32::MAX,
        decreases vms.len() - i,
    {
        assert(vms@.take(i as int + 1).drop_last() =~= vms@.take(i as int));
        proof {
            lemma_on_prefix(vms@, node, i as int + 1);
        }
        let here = match vms[i].node_id {
            Some(id) => id == node,
            None => false,
        };
        if vms[i].state == VmState::Running && here {
            cpus = cpus + vms[i].spec.vcpus as u32;
            mem = mem + vms[i].spec.memory_mib;
        }
        i += 1;
    }
    assert(vms@.take(vms.len() as int) =~= vms@);
    (cpus, mem)
}

/// The load of each member, in order: its capacity, and the vCPUs and memory of the
/// guests running on it.
pub fn node_loads(members: &Vec<ClusterMemberStatus>, vms: &Vec<VmRecord>) -> (r: Vec<NodeLoad>)
    requires
        forall|i: int|
            0 <= i < members@.len() ==> vcpus_on(vms@, (#[trigger] members@[i]).id) <= u32::MAX
                && memory_on(vms@, members@[i].id) <= u32::MAX,
    ensures
        r@.len() == members@.len(),
        forall|i: int| 0 <= i < r@.len() ==> #[trigger] r@[i] == load_of(members@[i], vms@),
{
    let mut out: Vec<NodeLoad> = Vec::new();
    let mut i: usize = 0;
    while i < members.len()
        invariant
            i <= members.len(),
            out@.len() == i,
            forall|j: int| 0 <= j < i ==> #[trigger] out@[j] == load_of(members@[j], vms@),
            forall|j: int|
                0 <= j < members@.len() ==> vcpus_on(vms@, (#[trigger] members@[j]).id)
                    <= u32::MAX && memory_on(vms@, members@[j].id) <= u32::MAX,
        decreases members.len() - i,
    {
        let m = &members[i];
        let (c, mem) = usage_on(vms, m.id);
        out.push(
            NodeLoad {
                id: m.id,
                online: m.online,
                cpus: m.cpus,
                memory_mib: m.memory_mib,
                used_vcpus: c,
                used_memory_mib: mem,
            },
        );
        i += 1;
    }
    out
}


/// Where a guest that is to run goes: the storage-aware scheduler's choice, else an
/// unschedulable error that lists every node's load.
pub fn pick_node(
    loads: &Vec<NodeLoad>,
    spec: &VmSpec,
    prefer: Option<NodeId>,
    affinity: &Vec<NodeId>,
) -> (r: Result<NodeId, DaemonError>)
    ensures
        match r {
            Ok(id) => schedule_storage_ok(
                loads@,
                spec.vcpus,
                spec.memory_mib,
                prefer,
                affinity@,
                Some(id),
            ),
            Err(e) => schedule_storage_ok(loads@, spec.vcpus, spec.memory_mib, prefer, affinity@, None)
                && (e matches DaemonError::Unschedulable(m) && m@ == spec_unschedulable_detail(
                loads@,
            )),
        },
{
    match schedule_storage(loads.as_slice(), spec, prefer, affinity.as_slice()) {
        Some(id) => Ok(id),
        None => Err(DaemonError::Unschedulable(unschedulable_detail(loads))),
    }
}

/// Where a defined guest (created or imported, not started) goes: memory is checked when
/// it starts, so any online node will do; else an unschedulable error.
pub fn pick_node_define(loads: &Vec<NodeLoad>, prefer: Option<NodeId>, affinity: &Vec<NodeId>) -> (r:
    Result<NodeId, DaemonError>)
    ensures
        match r {
            Ok(id) => schedule_define_ok(loads@, prefer, affinity@, Some(id)),
            Err(e) => schedule_define_ok(loads@, prefer, affinity@, None) && (e matches DaemonError::Unschedulable(
                m,
            ) && m@ == spec_unschedulable_detail(loads@)),
        },
{
    match schedule_define(loads.as_slice(), prefer, affinity.as_slice()) {
        Some(id) => Ok(id),
        None => Err(DaemonError::Unschedulable(unschedulable_detail(loads))),
    }
}


// ---------------------------------------------------------------------------
// Disk usage of a guest
// ---------------------------------------------------------------------------

/// Which file holds a disk's bytes, and the disk's provisioned size when it is a volume
/// of the inventory (else the file's length stands for both).
#[derive(Debug, PartialEq, Eq)]
pub struct DiskStat {
    pub path: String,
    pub size_bytes: Option<u64>,
}

/// Index of the first volume with this id, or -1.
pub open spec fn volume_index(vols: Seq<VolumeRecord>, id: VolumeId) -> int
    decreases vols.len(),
{
    if vols.len() == 0 {
        -1
    } else if volume_index(vols.drop_last(), id) >= 0 {
        volume_index(vols.drop_last(), id)
    } else if vols.last().id == id {
        vols.len() - 1
    } else {
        -1
    }
}

/// The file and size of one disk.
pub open spec fn disk_stat(d: DiskSpec, vols: Seq<VolumeRecord>) -> (Seq<char>, Option<u64>) {
    match d.volume_id {
        Some(id) if volume_index(vols, id) >= 0 => (
            vols[volume_index(vols, id)].path@,
            Some(vols[volume_index(vols, id)].size_bytes),
        ),
        _ => (d.path@, None),
    }
}

/// The files and sizes of a guest's disks, CD-ROMs left out, in order.
pub open spec fn disk_stats(disks: Seq<DiskSpec>, vols: Seq<VolumeRecord>) -> Seq<
    (Seq<char>, Option<u64>),
>
    decreases disks.len(),
{
    if disks.len() == 0 {
        seq![]
    } else if disks.last().cdrom {
        disk_stats(disks.drop_last(), vols)
    } else {
        disk_stats(disks.drop_last(), vols).push(disk_stat(disks.last(), vols))
    }
}

pub open spec fn stats_view(s: Seq<DiskStat>) -> Seq<(Seq<char>, Option<u64>)> {
    s.map_values(|d: DiskStat| (d.path@, d.size_bytes))
}

proof fn lemma_volume_index(vols: Seq<VolumeRecord>, id: VolumeId)
    ensures
        -1 <= volume_index(vols, id) < vols.len(),
        volume_index(vols, id) >= 0 ==> vols[volume_index(vols, id)].id == id,
        volume_index(vols, id) < 0 ==> forall|j: int| 0 <= j < vols.len() ==> vols[j].id != id,
        volume_index(vols, id) >= 0 ==> forall|j: int|
            0 <= j < volume_index(vols, id) ==> vols[j].id != id,
    decreases vols.len(),
{
    if vols.len() > 0 {
        let d = vols.drop_last();
        lemma_volume_index(d, id);
        assert(forall|j: int| 0 <= j < d.len() ==> d[j] == vols[j]);
    }
}

fn find_volume(vols: &Vec<VolumeRecord>, id: VolumeId) -> (r: Option<usize>)
    ensures
        match r {
            Some(k) => k < vols@.len() && k as int == volume_index(vols@, id),
            None => volume_index(vols@, id) < 0,
        },
{
    proof {
        lemma_volume_index(vols@, id);
    }
    let mut i: usize = 0;
    while i < vols.len()
        invariant
            i <= vols.len(),
            forall|j: int| 0 <= j < i ==> vols@[j].id != id,
            -1 <= volume_index(vols@, id) < vols@.len(),
            volume_index(vols@, id) >= 0 ==> vols@[volume_index(vols@, id)].id == id,
            volume_index(vols@, id) < 0 ==> forall|j: int| 0 <= j < vols@.len() ==> vols@[j].id != id,
            volume_index(vols@, id) >= 0 ==> forall|j: int|
                0 <= j < volume_index(vols@, id) ==> vols@[j].id != id,
        decreases vols.len() - i,
    {
        if vols[i].id == id {
            return Some(i);
        }
        i += 1;
    }
    None
}

/// The file to measure and the provisioned size of each of a guest's disks but CD-ROMs:
/// a disk that is a known volume is measured at the volume's file.
pub fn disk_stat_targets(vm: &VmRecord, volumes: &Vec<VolumeRecord>) -> (r: Vec<DiskStat>)
    ensures
        stats_view(r@) == disk_stats(vm.spec.disks@, volumes@),
{
    let disks = &vm.spec.disks;
    let mut out: Vec<DiskStat> = Vec::new();
    let mut i: usize = 0;
    while i < disks.len()
        invariant
            i <= disks.len(),
            disks == &vm.spec.disks,
            stats_view(out@) == disk_stats(disks@.take(i as int), volumes@),
        decreases disks.len() - i,
    {
        assert(disks@.take(i as int + 1).drop_last() =~= disks@.take(i as int));
        let d = &disks[i];
        if !d.cdrom {
            let st = match d.volume_id {
                Some(id) => match find_volume(volumes, id) {
                    Some(k) => DiskStat {
                        path: string_of(chars_of(volumes[k].path.as_str()).as_slice()),
                        size_bytes: Some(volumes[k].size_bytes),
                    },
                    None => DiskStat {
                        path: string_of(chars_of(d.path.as_str()).as_slice()),
                        size_bytes: None,
                    },
                },
                None => DiskStat { path: string_of(chars_of(d.path.as_str()).as_slice()), size_bytes: None },
            };
            out.push(st);
        }
        assert(stats_view(out@) =~= disk_stats(disks@.take(i as int + 1), volumes@));
        i += 1;
    }
    assert(disks@.take(disks.len() as int) =~= disks@);
    out
}

/// `(used, total)` over the disks: the measured lengths add up to used; a volume adds its
/// provisioned size to total, another file its length (both saturating).
pub open spec fn disk_sums(sizes: Seq<Option<u64>>, on_disk: Seq<u64>) -> (u64, u64)
    decreases sizes.len(),
{
    if sizes.len() == 0 || on_disk.len() != sizes.len() {
        (0, 0)
    } else {
        let (u, t) = disk_sums(sizes.drop_last(), on_disk.drop_last());
        let len = on_disk.last();
        (
            sat_add(u, len),
            sat_add(
                t,
                match sizes.last() {
                    Some(s) => s,
                    None => len,
                },
            ),
        )
    }
}

/// A guest's disk bytes `(used, total)` from its disk targets and the measured length of
/// each target's file; total is at least used and at least 1.
pub fn vm_disk_bytes(stats: &Vec<DiskStat>, on_disk: &Vec<u64>) -> (r: (u64, u64))
    requires
        on_disk@.len() == stats@.len(),
    ensures
        ({
            let (u, t) = disk_sums(stats@.map_values(|d: DiskStat| d.size_bytes), on_disk@);
            r.0 == u && r.1 == (if t >= u && t >= 1 {
                t
            } else if u >= 1 {
                u
            } else {
                1
            })
        }),
{
    let ghost sizes = stats@.map_values(|d: DiskStat| d.size_bytes);
    let mut used: u64 = 0;
    let mut total: u64 = 0;
    let mut i: usize = 0;
    while i < stats.len()
        invariant
            i <= stats.len(),
            on_disk@.len() == stats@.len(),
            sizes == stats@.map_values(|d: DiskStat| d.size_bytes),
            (used, total) == disk_sums(sizes.take(i as int), on_disk@.take(i as int)),
        decreases stats.len() - i,
    {
        assert(sizes.take(i as int + 1).drop_last() =~= sizes.take(i as int));
        assert(on_disk@.take(i as int + 1).drop_last() =~= on_disk@.take(i as int));
        let len = on_disk[i];
        used = used.saturating_add(len);
        total = match stats[i].size_bytes {
            Some(s) => total.saturating_add(s),
            None => total.saturating_add(len),
        };
        i += 1;
    }
    assert(sizes.take(stats.len() as int) =~= sizes);
    assert(on_disk@.take(stats.len() as int) =~= on_disk@);
    let t = if total >= used {
        total
    } else {
        used
    };
    (used, if t >= 1 {
        t
    } else {
        1
    })
}

}
