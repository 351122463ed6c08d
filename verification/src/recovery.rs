//! What the daemon does for guests on its own after a change in the cluster: where a
//! high-availability guest of an offline node restarts, and in which order this node's
//! guests start on their own when the daemon comes up.
use vstd::prelude::*;

use crate::ids::{NodeId, VmId};
use crate::placement::{id_online, schedule_storage, schedule_storage_ok, NodeLoad};
use crate::types::{VmRecord, VmState};

verus! {

// ---------------------------------------------------------------------------
// High availability
// ---------------------------------------------------------------------------

/// The offline node an HA guest must leave: the guest runs, is no template, asks for HA,
/// is placed, and its node is not online.
pub open spec fn stranded_owner(vm: VmRecord, loads: Seq<NodeLoad>) -> Option<NodeId> {
    if vm.template || !vm.spec.ha || vm.state != VmState::Running {
        None
    } else {
        match vm.node_id {
            None => None,
            Some(o) => if id_online(loads, o) {
                None
            } else {
                Some(o)
            },
        }
    }
}

/// The affinity nodes that are online, in order.
pub open spec fn online_affinity(loads: Seq<NodeLoad>, affinity: Seq<NodeId>) -> Seq<NodeId> {
    affinity.filter(|id: NodeId| id_online(loads, id))
}

/// The first node of a list, if any.
pub open spec fn first_of(ids: Seq<NodeId>) -> Option<NodeId> {
    if ids.len() > 0 {
        Some(ids[0])
    } else {
        None
    }
}

fn is_online(loads: &Vec<NodeLoad>, id: NodeId) -> (r: bool)
    ensures
        r == id_online(loads@, id),
{
    let mut i: usize = 0;
    while i < loads.len()
        invariant
            i <= loads.len(),
            forall|j: int| 0 <= j < i ==> !(loads@[j].id == id && loads@[j].online),
        decreases loads.len() - i,
    {
        if loads[i].id == id && loads[i].online {
            return true;
        }
        i += 1;
    }
    false
}

/// Where an HA guest of an offline node restarts: the storage-aware scheduler's choice,
/// preferring the first online node that holds its volumes, unless that is the node it
/// left; none when the guest needs no restart or no node fits.
pub fn ha_restart_target(vm: &VmRecord, loads: &Vec<NodeLoad>, affinity: &Vec<NodeId>) -> (r:
    Option<NodeId>)
    ensures
        match stranded_owner(*vm, loads@) {
            None => r is None,
            Some(o) => {
                let aff = online_affinity(loads@, affinity@);
                exists|f: Option<NodeId>|
                    #[trigger] schedule_storage_ok(
                        loads@,
                        vm.spec.vcpus,
                        vm.spec.memory_mib,
                        first_of(aff),
                        aff,
                        f,
                    ) && r == (if f == Some(o) {
                        None
                    } else {
                        f
                    })
            },
        },
{
    if vm.template || !vm.spec.ha || vm.state != VmState::Running {
        return None;
    }
    let owner = match vm.node_id {
        None => {
            return None;
        },
        Some(o) => o,
    };
    if is_online(loads, owner) {
        return None;
    }
    let ghost pred = |id: NodeId| id_online(loads@, id);
    let mut aff: Vec<NodeId> = Vec::new();
    let mut i: usize = 0;
    while i < affinity.len()
        invariant
            i <= affinity.len(),
            pred == (|id: NodeId| id_online(loads@, id)),
            aff@ == affinity@.take(i as int).filter(pred),
        decreases affinity.len() - i,
    {
        proof {
            affinity@.take(i as int).lemma_filter_push(affinity@[i as int], pred);
        }
        assert(affinity@.take(i as int + 1) =~= affinity@.take(i as int).push(affinity@[i as int]));
        if is_online(loads, affinity[i]) {
            aff.push(affinity[i]);
        }
        i += 1;
    }
    assert(affinity@.take(affinity.len() as int) =~= affinity@);
    let prefer = if aff.len() > 0 {
        Some(aff[0])
    } else {
        None
    };
    let dest = schedule_storage(loads.as_slice(), &vm.spec, prefer, aff.as_slice());
    match dest {
        Some(d) => if d == owner {
            None
        } else {
            Some(d)
        },
        None => None,
    }
}

// ---------------------------------------------------------------------------
// Autostart
// ---------------------------------------------------------------------------

/// A guest of this node that starts on its own: no template, autostart set, placed here,
/// and not created since the daemon came up.
pub open spec fn autostarts(vm: VmRecord, self_id: NodeId, created: Seq<VmId>) -> bool {
    !vm.template && vm.spec.autostart && vm.node_id == Some(self_id) && !created.contains(vm.id)
}

/// Guest `a` starts before guest `b` (both indices into `vms`): by autostart order, then
/// delay, then id; equal keys keep their listed order.
pub open spec fn starts_before(vms: Seq<VmRecord>, a: int, b: int) -> bool {
    let x = vms[a];
    let y = vms[b];
    if x.spec.autostart_order != y.spec.autostart_order {
        x.spec.autostart_order < y.spec.autostart_order
    } else if x.spec.autostart_delay != y.spec.autostart_delay {
        x.spec.autostart_delay < y.spec.autostart_delay
    } else if x.id.0 != y.id.0 {
        x.id.0 < y.id.0
    } else {
        a < b
    }
}

/// `order` lists exactly the guests that start on their own, each once, in start order.
pub open spec fn autostart_sorted(
    vms: Seq<VmRecord>,
    self_id: NodeId,
    created: Seq<VmId>,
    order: Seq<usize>,
) -> bool {
    &&& forall|p: int|
        0 <= p < order.len() ==> (#[trigger] order[p]) < vms.len() && autostarts(
            vms[order[p] as int],
            self_id,
            created,
        )
    &&& forall|i: int|
        0 <= i < vms.len() && autostarts(vms[i], self_id, created) ==> #[trigger] order.contains(
            i as usize,
        )
    &&& forall|p: int, q: int|
        0 <= p < q < order.len() ==> starts_before(vms, #[trigger] order[p] as int, #[trigger] order[q] as int)
}

fn id_listed(ids: &Vec<VmId>, id: VmId) -> (r: bool)
    ensures
        r == ids@.contains(id),
{
    let mut i: usize = 0;
    while i < ids.len()
        invariant
            i <= ids.len(),
            forall|j: int| 0 <= j < i ==> ids@[j] != id,
        decreases ids.len() - i,
    {
        if ids[i] == id {
            return true;
        }
        i += 1;
    }
    false
}

fn before_exec(vms: &Vec<VmRecord>, a: usize, b: usize) -> (r: bool)
    requires
        a < vms.len(),
        b < vms.len(),
    ensures
        r == starts_before(vms@, a as int, b as int),
{
    let x = &vms[a];
    let y = &vms[b];
    if x.spec.autostart_order != y.spec.autostart_order {
        x.spec.autostart_order < y.spec.autostart_order
    } else if x.spec.autostart_delay != y.spec.autostart_delay {
        x.spec.autostart_delay < y.spec.autostart_delay
    } else if x.id.0 != y.id.0 {
        x.id.0 < y.id.0
    } else {
        a < b
    }
}

/// The guests of this node (`self_id`) that start on their own, as indices into `vms`,
/// in start order; `created` lists the guests created since the daemon came up.
pub fn autostart_order(vms: &Vec<VmRecord>, self_id: NodeId, created: &Vec<VmId>) -> (r: Vec<usize>)
    ensures
        autostart_sorted(vms@, self_id, created@, r@),
{
    let mut out: Vec<usize> = Vec::new();
    let mut i: usize = 0;
    while i < vms.len()
        invariant
            i <= vms.len(),
            forall|p: int|
                0 <= p < out@.len() ==> (#[trigger] out@[p]) < i && autostarts(
                    vms@[out@[p] as int],
                    self_id,
                    created@,
                ),
            forall|j: int|
                0 <= j < i && autostarts(vms@[j], self_id, created@) ==> #[trigger] out@.contains(
                    j as usize,
                ),
            forall|p: int, q: int|
                0 <= p < q < out@.len() ==> starts_before(
                    vms@,
                    #[trigger] out@[p] as int,
                    #[trigger] out@[q] as int,
                ),
        decreases vms.len() - i,
    {
        let vm = &vms[i];
        let here = match vm.node_id {
            Some(n) => n == self_id,
            None => false,
        };
        if !vm.template && vm.spec.autostart && here && !id_listed(created, vm.id) {
            // Insert after every guest that starts before this one.
            let mut k: usize = 0;
            while k < out.len() && before_exec(vms, out[k], i)
                invariant
                    k <= out@.len(),
                    i < vms.len(),
                    forall|p: int| 0 <= p < out@.len() ==> (#[trigger] out@[p]) < i,
                    forall|p: int| 0 <= p < k ==> starts_before(vms@, #[trigger] out@[p] as int, i as int),
                decreases out@.len() - k,
            {
                k += 1;
            }
            proof {
                assert forall|q: int| k <= q < out@.len() implies starts_before(
                    vms@,
                    i as int,
                    #[trigger] out@[q] as int,
                ) by {
                    assert(!starts_before(vms@, out@[k as int] as int, i as int));
                    if q > k {
                        assert(starts_before(vms@, out@[k as int] as int, out@[q] as int));
                    }
                }
            }
            let ghost old_out = out@;
            out.insert(k, i);
            proof {
                assert forall|j: int|
                    0 <= j < i + 1 && autostarts(vms@[j], self_id, created@) implies #[trigger] out@.contains(
                    j as usize,
                ) by {
                    if j < i {
                        assert(old_out.contains(j as usize));
                        let p = choose|p: int| 0 <= p < old_out.len() && old_out[p] == j as usize;
                        if p < k {
                            assert(out@[p] == j as usize);
                        } else {
                            assert(out@[p + 1] == j as usize);
                        }
                    } else {
                        assert(out@[k as int] == i);
                    }
                }
            }
        } else {
            proof {
                assert forall|j: int|
                    0 <= j < i + 1 && autostarts(vms@[j], self_id, created@) implies #[trigger] out@.contains(
                    j as usize,
                ) by {
                    if j == i {
                        assert(!autostarts(vms@[j], self_id, created@));
                    }
                }
            }
        }
        i += 1;
    }
    out
}

/// Which guests of the start order are taken up now, `elapsed` seconds after the daemon
/// came up, with `done` the guests already taken up: each whose delay has passed and that
/// is not done, in order, with whether it must be started (it does not run yet). Every
/// guest listed is then done.
pub open spec fn due_now(
    vms: Seq<VmRecord>,
    order: Seq<usize>,
    elapsed: u64,
    done: Seq<VmId>,
) -> Seq<(usize, bool)>
    decreases order.len(),
{
    if order.len() == 0 {
        seq![]
    } else {
        let prev = due_now(vms, order.drop_last(), elapsed, done);
        let i = order.last();
        let vm = vms[i as int];
        if elapsed < vm.spec.autostart_delay || done.contains(vm.id) || exists|p: int|
            0 <= p < prev.len() && vms[prev[p].0 as int].id == vm.id {
            prev
        } else {
            prev.push((i, vm.state != VmState::Running))
        }
    }
}

/// The guests to take up now, in start order (see `due_now`).
pub fn autostart_due(vms: &Vec<VmRecord>, order: &Vec<usize>, elapsed: u64, done: &Vec<VmId>) -> (r:
    Vec<(usize, bool)>)
    requires
        forall|p: int| 0 <= p < order@.len() ==> (#[trigger] order@[p]) < vms@.len(),
    ensures
        r@ == due_now(vms@, order@, elapsed, done@),
{
    let mut out: Vec<(usize, bool)> = Vec::new();
    let mut taken: Vec<VmId> = Vec::new();
    let mut k: usize = 0;
    while k < order.len()
        invariant
            k <= order.len(),
            forall|p: int| 0 <= p < order@.len() ==> (#[trigger] order@[p]) < vms@.len(),
            out@ == due_now(vms@, order@.take(k as int), elapsed, done@),
            taken@.len() == out@.len(),
            forall|p: int| 0 <= p < out@.len() ==> #[trigger] taken@[p] == vms@[out@[p].0 as int].id,
            forall|p: int| 0 <= p < out@.len() ==> (#[trigger] out@[p]).0 < vms@.len(),
        decreases order.len() - k,
    {
        assert(order@.take(k as int + 1).drop_last() =~= order@.take(k as int));
        let i = order[k];
        let vm = &vms[i];
        let seen = id_listed(&taken, vm.id);
        proof {
            if seen {
                let p = choose|p: int| 0 <= p < taken@.len() && taken@[p] == vm.id;
                assert(vms@[out@[p].0 as int].id == vm.id);
            } else {
                assert forall|p: int| 0 <= p < out@.len() implies vms@[out@[p].0 as int].id != vm.id by {
                    assert(taken@[p] == vms@[out@[p].0 as int].id);
                }
            }
        }
        if !(elapsed < vm.spec.autostart_delay || id_listed(done, vm.id) || seen) {
            out.push((i, vm.state != VmState::Running));
            taken.push(vm.id);
        }
        k += 1;
    }
    assert(order@.take(order.len() as int) =~= order@);
    out
}


/// The ids of the guests a `due_now` list takes up.
pub open spec fn due_ids(vms: Seq<VmRecord>, due: Seq<(usize, bool)>) -> Seq<VmId> {
    due.map_values(|x: (usize, bool)| vms[x.0 as int].id)
}

proof fn lemma_due_covers(vms: Seq<VmRecord>, order: Seq<usize>, elapsed: u64, done: Seq<VmId>)
    ensures
        forall|j: int|
            0 <= j < order.len() ==> {
                let vm = vms[(#[trigger] order[j]) as int];
                let r = due_now(vms, order, elapsed, done);
                elapsed < vm.spec.autostart_delay || done.contains(vm.id) || exists|p: int|
                    0 <= p < r.len() && vms[r[p].0 as int].id == vm.id
            },
    decreases order.len(),
{
    if order.len() > 0 {
        let d = order.drop_last();
        lemma_due_covers(vms, d, elapsed, done);
        let prev = due_now(vms, d, elapsed, done);
        let r = due_now(vms, order, elapsed, done);
        assert(prev.len() <= r.len());
        assert(forall|p: int| 0 <= p < prev.len() ==> prev[p] == r[p]);
        assert forall|j: int| 0 <= j < order.len() implies {
            let vm = vms[(#[trigger] order[j]) as int];
            elapsed < vm.spec.autostart_delay || done.contains(vm.id) || exists|p: int|
                0 <= p < r.len() && vms[r[p].0 as int].id == vm.id
        } by {
            let vm = vms[order[j] as int];
            if j < order.len() - 1 {
                assert(d[j] == order[j]);
                if !(elapsed < vm.spec.autostart_delay || done.contains(vm.id)) {
                    let p = choose|p: int| 0 <= p < prev.len() && vms[prev[p].0 as int].id == vm.id;
                    assert(r[p] == prev[p]);
                }
            } else {
                if !(elapsed < vm.spec.autostart_delay || done.contains(vm.id)) {
                    if exists|p: int| 0 <= p < prev.len() && vms[prev[p].0 as int].id == vm.id {
                        let p = choose|p: int|
                            0 <= p < prev.len() && vms[prev[p].0 as int].id == vm.id;
                        assert(r[p] == prev[p]);
                    } else {
                        assert(r[prev.len() as int].0 == order[j]);
                    }
                }
            }
        }
    }
}

proof fn lemma_none_due(
    vms: Seq<VmRecord>,
    order: Seq<usize>,
    elapsed: u64,
    done: Seq<VmId>,
    k: int,
)
    requires
        0 <= k <= order.len(),
        forall|j: int|
            0 <= j < order.len() ==> elapsed < vms[(#[trigger] order[j]) as int].spec.autostart_delay
                || done.contains(vms[order[j] as int].id),
    ensures
        due_now(vms, order.take(k), elapsed, done) == Seq::<(usize, bool)>::empty(),
    decreases k,
{
    if k == 0 {
        assert(order.take(0) =~= Seq::<usize>::empty());
    } else {
        lemma_none_due(vms, order, elapsed, done, k - 1);
        assert(order.take(k).drop_last() =~= order.take(k - 1));
        assert(order.take(k).last() == order[k - 1]);
    }
}

/// Autostart takes each guest up once: once the guests of a round are marked done, a
/// second round at the same time takes up nobody.
pub proof fn lemma_autostart_once(vms: Seq<VmRecord>, order: Seq<usize>, elapsed: u64, done: Seq<VmId>)
    ensures
        due_now(
            vms,
            order,
            elapsed,
            done + due_ids(vms, due_now(vms, order, elapsed, done)),
        ) == Seq::<(usize, bool)>::empty(),
{
    let r = due_now(vms, order, elapsed, done);
    let done2 = done + due_ids(vms, r);
    lemma_due_covers(vms, order, elapsed, done);
    assert forall|j: int| 0 <= j < order.len() implies elapsed < vms[(
    #[trigger] order[j]) as int].spec.autostart_delay || done2.contains(vms[order[j] as int].id) by {
        let vm = vms[order[j] as int];
        if done.contains(vm.id) {
            let q = choose|q: int| 0 <= q < done.len() && done[q] == vm.id;
            assert(done2[q] == vm.id);
        } else if !(elapsed < vm.spec.autostart_delay) {
            let p = choose|p: int| 0 <= p < r.len() && vms[r[p].0 as int].id == vm.id;
            assert(done2[done.len() + p] == vm.id);
        }
    }
    lemma_none_due(vms, order, elapsed, done2, order.len() as int);
    assert(order.take(order.len() as int) =~= order);
}

}
