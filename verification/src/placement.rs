//! Quorum, capacity and placement of guests and volume replicas.
use vstd::prelude::*;

use crate::ids::{uuid_text, NodeId};
use crate::text::{append_chars, append_str, chars_of, dec, dec_vec, join, join_vec, string_of};
use crate::types::VmSpec;

verus! {

/// What the scheduler knows of one node.
#[derive(Clone, Copy, Debug)]
pub struct NodeLoad {
    pub id: NodeId,
    pub online: bool,
    pub cpus: u32,
    pub memory_mib: u32,
    pub used_vcpus: u32,
    pub used_memory_mib: u32,
}

/// True when `online` members form a strict majority of `total`.
pub fn has_quorum(online: usize, total: usize) -> (res: bool)
    ensures
        res == (total > 0 && 2 * online > total),
{
    total > 0 && (online > total || online > total - online)
}

/// vCPU overcommit factor against the host's threads. Memory stays a hard cap.
pub const CPU_OVERCOMMIT: u32 = 8;

pub open spec fn sat_mul(a: u32, b: u32) -> u32 {
    if a * b > u32::MAX {
        u32::MAX
    } else {
        (a * b) as u32
    }
}

pub open spec fn sat_sub(a: u32, b: u32) -> u32 {
    if a < b {
        0
    } else {
        (a - b) as u32
    }
}

pub open spec fn spec_cpu_capacity(n: NodeLoad) -> u32 {
    let c = sat_mul(n.cpus, CPU_OVERCOMMIT);
    if c >= n.cpus {
        c
    } else {
        n.cpus
    }
}

/// Host RAM kept back: a twentieth of it, clamped to `64..=1536` MiB.
pub open spec fn spec_reserve(host_mib: u32) -> u32 {
    let r = host_mib / 20;
    if r < 64 {
        64
    } else if r > 1536 {
        1536
    } else {
        r
    }
}

pub open spec fn spec_budget(host_mib: u32) -> u32 {
    sat_sub(host_mib, spec_reserve(host_mib))
}

pub open spec fn spec_node_fits(n: NodeLoad, vcpus: u8, memory_mib: u32) -> bool {
    &&& n.online
    &&& sat_sub(spec_cpu_capacity(n), n.used_vcpus) >= vcpus
    &&& sat_sub(spec_budget(n.memory_mib), n.used_memory_mib) >= memory_mib
}

fn sat_mul_u32(a: u32, b: u32) -> (r: u32)
    ensures
        r == sat_mul(a, b),
{
    assert(a as u64 * b as u64 <= 0xffff_ffff_ffff_ffffu64) by (nonlinear_arith)
        requires
            a <= 0xffff_ffffu32,
            b <= 0xffff_ffffu32,
    ;
    let p: u64 = a as u64 * b as u64;
    if p > u32::MAX as u64 {
        u32::MAX
    } else {
        p as u32
    }
}

fn sat_sub_u32(a: u32, b: u32) -> (r: u32)
    ensures
        r == sat_sub(a, b),
{
    a.saturating_sub(b)
}

pub fn cpu_capacity(n: &NodeLoad) -> (r: u32)
    ensures
        r == spec_cpu_capacity(*n),
{
    let c = sat_mul_u32(n.cpus, CPU_OVERCOMMIT);
    if c >= n.cpus {
        c
    } else {
        n.cpus
    }
}

/// RAM kept for the host / VMM; scales down on small appliances.
pub fn host_memory_reserve_mib(host_mib: u32) -> (r: u32)
    ensures
        r == spec_reserve(host_mib),
{
    let r = host_mib / 20;
    if r < 64 {
        64
    } else if r > 1536 {
        1536
    } else {
        r
    }
}

/// Guest start/placement budget: installed RAM minus host reserve.
pub fn guest_memory_budget_mib(host_mib: u32) -> (r: u32)
    ensures
        r == spec_budget(host_mib),
{
    sat_sub_u32(host_mib, host_memory_reserve_mib(host_mib))
}

/// Guest budget of a node.
pub fn guest_memory_capacity(n: &NodeLoad) -> (r: u32)
    ensures
        r == spec_budget(n.memory_mib),
{
    guest_memory_budget_mib(n.memory_mib)
}

pub open spec fn spec_guest_start_fits(host_mib: u64, running_mib: u64, need_mib: u64) -> bool {
    let host_u32: u32 = if host_mib > u32::MAX {
        u32::MAX
    } else {
        host_mib as u32
    };
    let reserve = spec_reserve(host_u32) as int;
    let total = if running_mib + need_mib > u64::MAX {
        u64::MAX as int
    } else {
        running_mib + need_mib
    };
    let budget = if host_mib < reserve {
        0
    } else {
        host_mib - reserve
    };
    total <= budget
}

/// True when a guest of `need_mib` can start given host RAM and already-running guests.
pub fn guest_start_fits(host_mib: u64, running_mib: u64, need_mib: u64) -> (r: bool)
    ensures
        r == spec_guest_start_fits(host_mib, running_mib, need_mib),
{
    let host_u32: u32 = if host_mib > u32::MAX as u64 {
        u32::MAX
    } else {
        host_mib as u32
    };
    let reserve = host_memory_reserve_mib(host_u32) as u64;
    running_mib.saturating_add(need_mib) <= host_mib.saturating_sub(reserve)
}

/// Does the guest fit on the node (online, vCPU and memory headroom)?
pub fn node_fits(n: &NodeLoad, spec: &VmSpec) -> (r: bool)
    ensures
        r == spec_node_fits(*n, spec.vcpus, spec.memory_mib),
{
    n.online && sat_sub_u32(cpu_capacity(n), n.used_vcpus) >= spec.vcpus as u32 && sat_sub_u32(
        guest_memory_capacity(n),
        n.used_memory_mib,
    ) >= spec.memory_mib
}

/// Load score: per-mille of vCPUs used plus per-mille of guest budget used.
pub open spec fn score(n: NodeLoad) -> int {
    let cpus = if n.cpus > 1 {
        n.cpus
    } else {
        1
    };
    let cap = if spec_budget(n.memory_mib) > 1 {
        spec_budget(n.memory_mib)
    } else {
        1
    };
    (sat_mul(n.used_vcpus, 1000) / cpus) as int + (sat_mul(n.used_memory_mib, 1000) / cap) as int
}

/// Lexicographic `(score, id)` order.
pub open spec fn load_lt(a: NodeLoad, b: NodeLoad) -> bool {
    score(a) < score(b) || (score(a) == score(b) && a.id.0 < b.id.0)
}

pub open spec fn some_node_fits(nodes: Seq<NodeLoad>, vcpus: u8, mem: u32) -> bool {
    exists|i: int| 0 <= i < nodes.len() && spec_node_fits(#[trigger] nodes[i], vcpus, mem)
}

pub open spec fn id_fits(nodes: Seq<NodeLoad>, id: NodeId, vcpus: u8, mem: u32) -> bool {
    exists|i: int|
        0 <= i < nodes.len() && #[trigger] nodes[i].id == id && spec_node_fits(nodes[i], vcpus, mem)
}

/// `id` belongs to a least-loaded fitting node.
pub open spec fn least_loaded(nodes: Seq<NodeLoad>, id: NodeId, vcpus: u8, mem: u32) -> bool {
    exists|i: int|
        0 <= i < nodes.len() && #[trigger] nodes[i].id == id && spec_node_fits(nodes[i], vcpus, mem)
            && forall|j: int|
            0 <= j < nodes.len() && spec_node_fits(#[trigger] nodes[j], vcpus, mem) ==> !load_lt(
                nodes[j],
                nodes[i],
            )
}

/// What `schedule` picks: the preferred node if it fits, else the least loaded fitting one.
pub open spec fn schedule_ok(
    nodes: Seq<NodeLoad>,
    vcpus: u8,
    mem: u32,
    prefer: Option<NodeId>,
    r: Option<NodeId>,
) -> bool {
    if prefer is Some && id_fits(nodes, prefer->0, vcpus, mem) {
        r == prefer
    } else {
        match r {
            None => !some_node_fits(nodes, vcpus, mem),
            Some(id) => least_loaded(nodes, id, vcpus, mem),
        }
    }
}

fn load_score(n: &NodeLoad) -> (r: u64)
    ensures
        r == score(*n),
{
    let cpus = if n.cpus > 1 {
        n.cpus
    } else {
        1
    };
    let cap0 = guest_memory_capacity(n);
    let cap = if cap0 > 1 {
        cap0
    } else {
        1
    };
    let cpu = sat_mul_u32(n.used_vcpus, 1000) / cpus;
    let mem = sat_mul_u32(n.used_memory_mib, 1000) / cap;
    cpu as u64 + mem as u64
}

/// Place a guest: the preferred node if it fits, else the least loaded node that fits.
pub fn schedule(nodes: &[NodeLoad], spec: &VmSpec, prefer: Option<NodeId>) -> (r: Option<NodeId>)
    ensures
        schedule_ok(nodes@, spec.vcpus, spec.memory_mib, prefer, r),
        r matches Some(id) ==> id_fits(nodes@, id, spec.vcpus, spec.memory_mib),
{
    let ghost v = spec.vcpus;
    let ghost m = spec.memory_mib;
    if let Some(id) = prefer {
        let mut i: usize = 0;
        while i < nodes.len()
            invariant
                i <= nodes.len(),
                v == spec.vcpus,
                m == spec.memory_mib,
                prefer == Some(id),
                forall|j: int|
                    0 <= j < i ==> !(#[trigger] nodes@[j].id == id && spec_node_fits(
                        nodes@[j],
                        v,
                        m,
                    )),
            decreases nodes.len() - i,
        {
            if nodes[i].id == id && node_fits(&nodes[i], spec) {
                assert(nodes@[i as int].id == id && spec_node_fits(nodes@[i as int], v, m));
                assert(id_fits(nodes@, id, v, m));
                assert(prefer == Some(id));
                assert(schedule_ok(nodes@, v, m, prefer, Some(id)));
                return Some(id);
            }
            i += 1;
        }
    }
    let mut best: Option<usize> = None;
    let mut best_score: u64 = 0;
    let mut i: usize = 0;
    while i < nodes.len()
        invariant
            i <= nodes.len(),
            v == spec.vcpus,
            m == spec.memory_mib,
            match best {
                None => forall|j: int| 0 <= j < i ==> !spec_node_fits(#[trigger] nodes@[j], v, m),
                Some(b) => b < i && spec_node_fits(nodes@[b as int], v, m) && best_score == score(
                    nodes@[b as int],
                ) && forall|j: int|
                    0 <= j < i && spec_node_fits(#[trigger] nodes@[j], v, m) ==> !load_lt(
                        nodes@[j],
                        nodes@[b as int],
                    ),
            },
        decreases nodes.len() - i,
    {
        if node_fits(&nodes[i], spec) {
            let s = load_score(&nodes[i]);
            match best {
                None => {
                    best = Some(i);
                    best_score = s;
                },
                Some(b) => {
                    if s < best_score || (s == best_score && nodes[i].id.0 < nodes[b].id.0) {
                        best = Some(i);
                        best_score = s;
                    }
                },
            }
        }
        i += 1;
    }
    match best {
        None => None,
        Some(b) => {
            assert(nodes@[b as int].id == nodes[b as int].id);
            Some(nodes[b].id)
        },
    }
}

/// Key of `schedule_define`: `(used_memory_mib, used_vcpus, id)`.
pub open spec fn define_lt(a: NodeLoad, b: NodeLoad) -> bool {
    a.used_memory_mib < b.used_memory_mib || (a.used_memory_mib == b.used_memory_mib && (
    a.used_vcpus < b.used_vcpus || (a.used_vcpus == b.used_vcpus && a.id.0 < b.id.0)))
}

pub open spec fn id_online(nodes: Seq<NodeLoad>, id: NodeId) -> bool {
    exists|i: int| 0 <= i < nodes.len() && #[trigger] nodes[i].id == id && nodes[i].online
}

pub open spec fn any_online(nodes: Seq<NodeLoad>) -> bool {
    exists|i: int| 0 <= i < nodes.len() && #[trigger] nodes[i].online
}

/// Index of the first affinity id that names an online node, or the length.
pub open spec fn first_online_affinity(nodes: Seq<NodeLoad>, affinity: Seq<NodeId>, k: int) -> int
    decreases affinity.len() - k,
{
    if k < 0 || k >= affinity.len() {
        affinity.len() as int
    } else if id_online(nodes, affinity[k]) {
        k
    } else {
        first_online_affinity(nodes, affinity, k + 1)
    }
}

/// What `schedule_define` picks.
pub open spec fn schedule_define_ok(
    nodes: Seq<NodeLoad>,
    prefer: Option<NodeId>,
    affinity: Seq<NodeId>,
    r: Option<NodeId>,
) -> bool {
    if !any_online(nodes) {
        r is None
    } else if prefer is Some && id_online(nodes, prefer->0) {
        r == prefer
    } else if first_online_affinity(nodes, affinity, 0) < affinity.len() {
        r == Some(affinity[first_online_affinity(nodes, affinity, 0)])
    } else {
        exists|i: int|
            0 <= i < nodes.len() && nodes[i].online && r == Some(#[trigger] nodes[i].id) && forall|
                j: int,
            |
                0 <= j < nodes.len() && #[trigger] nodes[j].online ==> !define_lt(nodes[j], nodes[i])
    }
}

fn id_is_online(nodes: &[NodeLoad], id: NodeId) -> (r: bool)
    ensures
        r == id_online(nodes@, id),
{
    let mut i: usize = 0;
    while i < nodes.len()
        invariant
            i <= nodes.len(),
            forall|j: int| 0 <= j < i ==> !(#[trigger] nodes@[j].id == id && nodes@[j].online),
        decreases nodes.len() - i,
    {
        if nodes[i].id == id && nodes[i].online {
            return true;
        }
        i += 1;
    }
    false
}

/// Place a defined (not running) guest: any online node, prefer replica holders.
pub fn schedule_define(nodes: &[NodeLoad], prefer: Option<NodeId>, affinity: &[NodeId]) -> (r:
    Option<NodeId>)
    ensures
        schedule_define_ok(nodes@, prefer, affinity@, r),
{
    let mut best: Option<usize> = None;
    let mut i: usize = 0;
    while i < nodes.len()
        invariant
            i <= nodes.len(),
            match best {
                None => forall|j: int| 0 <= j < i ==> !(#[trigger] nodes@[j]).online,
                Some(b) => b < i && nodes@[b as int].online && forall|j: int|
                    0 <= j < i && (#[trigger] nodes@[j]).online ==> !define_lt(
                        nodes@[j],
                        nodes@[b as int],
                    ),
            },
        decreases nodes.len() - i,
    {
        if nodes[i].online {
            match best {
                None => {
                    best = Some(i);
                },
                Some(b) => {
                    let a = &nodes[i];
                    let c = &nodes[b];
                    if a.used_memory_mib < c.used_memory_mib || (a.used_memory_mib
                        == c.used_memory_mib && (a.used_vcpus < c.used_vcpus || (a.used_vcpus
                        == c.used_vcpus && a.id.0 < c.id.0))) {
                        best = Some(i);
                    }
                },
            }
        }
        i += 1;
    }
    let b = match best {
        None => {
            return None;
        },
        Some(b) => b,
    };
    if let Some(id) = prefer {
        if id_is_online(nodes, id) {
            return Some(id);
        }
    }
    assert(nodes@[b as int].online);
    let mut k: usize = 0;
    while k < affinity.len()
        invariant
            k <= affinity.len(),
            b < nodes.len(),
            nodes@[b as int].online,
            forall|j: int|
                0 <= j < nodes.len() && (#[trigger] nodes@[j]).online ==> !define_lt(
                    nodes@[j],
                    nodes@[b as int],
                ),
            !(prefer is Some && id_online(nodes@, prefer->0)),
            first_online_affinity(nodes@, affinity@, k as int) == first_online_affinity(
                nodes@,
                affinity@,
                0,
            ),
        decreases affinity.len() - k,
    {
        if id_is_online(nodes, affinity[k]) {
            assert(any_online(nodes@));
            return Some(affinity[k]);
        }
        k += 1;
    }
    assert(any_online(nodes@));
    Some(nodes[b].id)
}

/// Fitting nodes that already hold a replica.
pub open spec fn affinity_pred(affinity: Seq<NodeId>, vcpus: u8, mem: u32) -> spec_fn(NodeLoad) -> bool {
    |n: NodeLoad| spec_node_fits(n, vcpus, mem) && affinity.contains(n.id)
}

/// What `schedule_storage` picks: the plain schedule when it lands on a replica holder
/// (or no replica is known), else the schedule among fitting replica holders, else
/// the plain schedule.
pub open spec fn schedule_storage_ok(
    nodes: Seq<NodeLoad>,
    vcpus: u8,
    mem: u32,
    prefer: Option<NodeId>,
    affinity: Seq<NodeId>,
    r: Option<NodeId>,
) -> bool {
    exists|f: Option<NodeId>|
        #[trigger] schedule_ok(nodes, vcpus, mem, prefer, f) && if f is Some && (affinity.len() == 0
            || affinity.contains(f->0)) {
            r == f
        } else if nodes.filter(affinity_pred(affinity, vcpus, mem)).len() > 0 {
            schedule_ok(nodes.filter(affinity_pred(affinity, vcpus, mem)), vcpus, mem, prefer, r)
        } else {
            schedule_ok(nodes, vcpus, mem, prefer, r)
        }
}

/// Prefer nodes that already hold volume replicas; fall back to least-loaded.
pub fn schedule_storage(
    nodes: &[NodeLoad],
    spec: &VmSpec,
    prefer: Option<NodeId>,
    affinity: &[NodeId],
) -> (r: Option<NodeId>)
    ensures
        schedule_storage_ok(nodes@, spec.vcpus, spec.memory_mib, prefer, affinity@, r),
        r matches Some(id) ==> id_fits(nodes@, id, spec.vcpus, spec.memory_mib),
{
    let ghost pred = affinity_pred(affinity@, spec.vcpus, spec.memory_mib);
    let first = schedule(nodes, spec, prefer);
    if let Some(id) = first {
        if affinity.len() == 0 || node_id_in(affinity, id) {
            return Some(id);
        }
    }
    let mut local: Vec<NodeLoad> = Vec::new();
    let mut i: usize = 0;
    while i < nodes.len()
        invariant
            i <= nodes.len(),
            pred == affinity_pred(affinity@, spec.vcpus, spec.memory_mib),
            local@ == nodes@.take(i as int).filter(pred),
        decreases nodes.len() - i,
    {
        proof {
            reveal_with_fuel(Seq::filter, 1);
            nodes@.take(i as int).lemma_filter_push(nodes@[i as int], pred);
            assert(nodes@.take(i as int).push(nodes@[i as int]) =~= nodes@.take(i + 1));
        }
        if node_fits(&nodes[i], spec) && node_id_in(affinity, nodes[i].id) {
            local.push(nodes[i]);
        }
        i += 1;
    }
    assert(nodes@.take(nodes.len() as int) =~= nodes@);
    if local.len() > 0 {
        let r = schedule(local.as_slice(), spec, prefer);
        proof {
            if let Some(id) = r {
                let q = choose|q: int|
                    0 <= q < local@.len() && #[trigger] local@[q].id == id && spec_node_fits(
                        local@[q],
                        spec.vcpus,
                        spec.memory_mib,
                    );
                nodes@.lemma_filter_contains_rev(pred, local@[q]);
                let w2 = choose|w2: int| 0 <= w2 < nodes@.len() && nodes@[w2] == local@[q];
                assert(nodes@[w2].id == id);
            }
            assert(schedule_ok(nodes@, spec.vcpus, spec.memory_mib, prefer, first));
        }
        return r;
    }
    let r = schedule(nodes, spec, prefer);
    proof {
        assert(schedule_ok(nodes@, spec.vcpus, spec.memory_mib, prefer, first));
    }
    r
}

/// Is `id` in `ids`?
pub fn node_id_in(ids: &[NodeId], id: NodeId) -> (r: bool)
    ensures
        r == ids@.contains(id),
{
    let mut i: usize = 0;
    while i < ids.len()
        invariant
            i <= ids.len(),
            forall|j: int| 0 <= j < i ==> ids@[j] != id,
        decreases ids.len() - i,
    {
        if ids[i] == id {
            assert(ids@[i as int] == id);
            return true;
        }
        i += 1;
    }
    false
}

/// Greedy fill: walk `rest`, appending ids not yet chosen until `want` are chosen.
pub open spec fn fill(acc: Seq<NodeId>, rest: Seq<NodeId>, want: nat) -> Seq<NodeId>
    decreases rest.len(),
{
    if acc.len() >= want || rest.len() == 0 {
        acc
    } else if acc.contains(rest[0]) {
        fill(acc, rest.drop_first(), want)
    } else {
        fill(acc.push(rest[0]), rest.drop_first(), want)
    }
}

/// Number of replicas wanted: `max(count, 1)`, capped at `max(online, 1)`.
pub open spec fn want_replicas(online_len: nat, count: u8) -> nat {
    let c: nat = if count == 0 {
        1
    } else {
        count as nat
    };
    let o: nat = if online_len == 0 {
        1
    } else {
        online_len
    };
    if c < o {
        c
    } else {
        o
    }
}

/// What `place_replicas` returns.
pub open spec fn spec_place_replicas(online: Seq<NodeId>, count: u8, holder: Option<NodeId>) -> Seq<
    NodeId,
> {
    let seed: Seq<NodeId> = if holder is Some && online.contains(holder->0) {
        seq![holder->0]
    } else {
        seq![]
    };
    let out = fill(seed, online, want_replicas(online.len(), count));
    if out.len() == 0 && holder is Some {
        seq![holder->0]
    } else {
        out
    }
}

/// Replica holders for a volume: `holder` first when it is online, then other online nodes.
pub fn place_replicas(online: &[NodeId], count: u8, holder: Option<NodeId>) -> (r: Vec<NodeId>)
    ensures
        r@ == spec_place_replicas(online@, count, holder),
{
    let c: usize = if count == 0 {
        1
    } else {
        count as usize
    };
    let o: usize = if online.len() == 0 {
        1
    } else {
        online.len()
    };
    let want: usize = if c < o {
        c
    } else {
        o
    };
    let ghost w = want_replicas(online@.len(), count);
    assert(want as nat == w);
    let mut out: Vec<NodeId> = Vec::new();
    if let Some(id) = holder {
        if node_id_in(online, id) {
            out.push(id);
        }
    }
    let ghost seed = out@;
    assert(seed =~= (if holder is Some && online@.contains(holder->0) {
        seq![holder->0]
    } else {
        Seq::<NodeId>::empty()
    }));
    let mut i: usize = 0;
    assert(online@.skip(0) =~= online@);
    while i < online.len()
        invariant
            i <= online.len(),
            want as nat == w,
            fill(seed, online@, w) == fill(out@, online@.skip(i as int), w),
        ensures
            fill(seed, online@, w) == out@,
        decreases online.len() - i,
    {
        let ghost rest = online@.skip(i as int);
        assert(rest[0] == online@[i as int]);
        assert(rest.drop_first() =~= online@.skip(i + 1));
        if out.len() >= want {
            assert(fill(out@, rest, w) == out@);
            break;
        }
        let id = online[i];
        if !node_id_in(out.as_slice(), id) {
            out.push(id);
        }
        i += 1;
        proof {
            if i == online.len() {
                assert(online@.skip(i as int).len() == 0);
                assert(fill(out@, online@.skip(i as int), w) == out@);
            }
        }
    }
    if out.len() == 0 {
        if let Some(id) = holder {
            out.push(id);
            assert(out@ =~= seq![id]);
        }
    }
    out
}

/// A node that shows up in the result of `place_replicas` is online or is `holder`,
/// and no node shows up twice.
pub proof fn lemma_fill_distinct(acc: Seq<NodeId>, rest: Seq<NodeId>, want: nat)
    requires
        acc.no_duplicates(),
    ensures
        fill(acc, rest, want).no_duplicates(),
        forall|x: NodeId| #[trigger] fill(acc, rest, want).contains(x) ==> acc.contains(x) || rest.contains(x),
        acc.len() <= fill(acc, rest, want).len(),
        acc.len() <= want ==> fill(acc, rest, want).len() <= want,
        fill(acc, rest, want).take(acc.len() as int) == acc,
    decreases rest.len(),
{
    if acc.len() >= want || rest.len() == 0 {
        assert(acc.take(acc.len() as int) =~= acc);
    } else if acc.contains(rest[0]) {
        lemma_fill_distinct(acc, rest.drop_first(), want);
        assert forall|x: NodeId| #[trigger] fill(acc, rest, want).contains(x) implies acc.contains(x)
            || rest.contains(x) by {
            if rest.drop_first().contains(x) {
                let k = choose|k: int| 0 <= k < rest.drop_first().len() && rest.drop_first()[k] == x;
                assert(rest[k + 1] == x);
            }
        }
    } else {
        let a2 = acc.push(rest[0]);
        assert(a2.no_duplicates()) by {
            assert forall|i: int, j: int| 0 <= i < a2.len() && 0 <= j < a2.len() && i != j implies a2[i]
                != a2[j] by {
                if i == acc.len() as int {
                    assert(!acc.contains(rest[0]));
                    assert(acc[j] == a2[j]);
                } else if j == acc.len() as int {
                    assert(!acc.contains(rest[0]));
                    assert(acc[i] == a2[i]);
                }
            }
        }
        lemma_fill_distinct(a2, rest.drop_first(), want);
        assert forall|x: NodeId| #[trigger] fill(acc, rest, want).contains(x) implies acc.contains(x)
            || rest.contains(x) by {
            if a2.contains(x) && !acc.contains(x) {
                let k = choose|k: int| 0 <= k < a2.len() && a2[k] == x;
                assert(k == acc.len());
                assert(rest[0] == x);
            }
            if rest.drop_first().contains(x) {
                let k = choose|k: int| 0 <= k < rest.drop_first().len() && rest.drop_first()[k] == x;
                assert(rest[k + 1] == x);
            }
            if a2.contains(x) && acc.contains(x) {
            }
            if a2.contains(x) {
                let k = choose|k: int| 0 <= k < a2.len() && a2[k] == x;
                if k < acc.len() {
                    assert(acc[k] == x);
                }
            }
        }
        let f = fill(a2, rest.drop_first(), want);
        assert(f.take(a2.len() as int) == a2);
        assert(f.take(acc.len() as int) =~= a2.take(acc.len() as int));
        assert(a2.take(acc.len() as int) =~= acc);
    }
}

/// Replica placement law: the result has no duplicates, is never longer than the
/// number wanted, holds only online nodes or `holder`, and starts with `holder`
/// whenever `holder` is online.
pub proof fn lemma_place_replicas(online: Seq<NodeId>, count: u8, holder: Option<NodeId>)
    ensures
        spec_place_replicas(online, count, holder).no_duplicates(),
        spec_place_replicas(online, count, holder).len() <= want_replicas(online.len(), count),
        forall|x: NodeId| #[trigger]
            spec_place_replicas(online, count, holder).contains(x) ==> online.contains(x)
                || holder == Some(x),
        (holder is Some && online.contains(holder->0)) ==> spec_place_replicas(
            online,
            count,
            holder,
        )[0] == holder->0,
{
    let w = want_replicas(online.len(), count);
    let seed: Seq<NodeId> = if holder is Some && online.contains(holder->0) {
        seq![holder->0]
    } else {
        seq![]
    };
    assert(seed.no_duplicates());
    lemma_fill_distinct(seed, online, w);
    let out = fill(seed, online, w);
    assert(seed.len() <= w);
    if out.len() == 0 && holder is Some {
        let r = seq![holder->0];
        assert(r.no_duplicates());
        assert forall|x: NodeId| #[trigger] r.contains(x) implies online.contains(x) || holder
            == Some(x) by {
            assert(r[0] == holder->0);
        }
    } else {
        assert forall|x: NodeId| #[trigger] out.contains(x) implies online.contains(x) || holder
            == Some(x) by {
            if seed.contains(x) {
                assert(seed[0] == x);
            }
        }
        if holder is Some && online.contains(holder->0) {
            assert(out.take(1) == seed);
            assert(out[0] == out.take(1)[0]);
        }
    }
}


// ---------------------------------------------------------------------------
// Why nothing fits
// ---------------------------------------------------------------------------

/// `true` or `false`, as `bool` prints.
pub open spec fn bool_text(b: bool) -> Seq<char> {
    if b {
        "true"@
    } else {
        "false"@
    }
}

/// One node in an unschedulable report: id, online flag, vCPUs used of its count, guest
/// memory used of its budget, and its host memory.
pub open spec fn load_line(n: NodeLoad) -> Seq<char> {
    uuid_text(n.id.0) + " online="@ + bool_text(n.online) + " vcpu "@ + dec(n.used_vcpus as nat)
        + "/"@ + dec(n.cpus as nat) + " mem "@ + dec(n.used_memory_mib as nat) + "/"@ + dec(
        spec_budget(n.memory_mib) as nat,
    ) + " MiB guest ("@ + dec(n.memory_mib as nat) + " MiB host)"@
}

/// Every node's line joined by `; `, or `no members`.
pub open spec fn spec_unschedulable_detail(loads: Seq<NodeLoad>) -> Seq<char> {
    if loads.len() == 0 {
        "no members"@
    } else {
        join(loads.map_values(|n: NodeLoad| load_line(n)), "; "@)
    }
}

fn load_line_vec(n: &NodeLoad) -> (r: Vec<char>)
    ensures
        r@ == load_line(*n),
{
    let mut v = chars_of(crate::ids::uuid_string(n.id.0).as_str());
    append_str(&mut v, " online=");
    if n.online {
        append_str(&mut v, "true");
    } else {
        append_str(&mut v, "false");
    }
    append_str(&mut v, " vcpu ");
    append_chars(&mut v, dec_vec(n.used_vcpus as u64).as_slice());
    append_str(&mut v, "/");
    append_chars(&mut v, dec_vec(n.cpus as u64).as_slice());
    append_str(&mut v, " mem ");
    append_chars(&mut v, dec_vec(n.used_memory_mib as u64).as_slice());
    append_str(&mut v, "/");
    append_chars(&mut v, dec_vec(guest_memory_budget_mib(n.memory_mib) as u64).as_slice());
    append_str(&mut v, " MiB guest (");
    append_chars(&mut v, dec_vec(n.memory_mib as u64).as_slice());
    append_str(&mut v, " MiB host)");
    v
}

/// Why no node could take a guest: each node's load, for the error message.
pub fn unschedulable_detail(loads: &Vec<NodeLoad>) -> (r: String)
    ensures
        r@ == spec_unschedulable_detail(loads@),
{
    if loads.len() == 0 {
        return string_of(chars_of("no members").as_slice());
    }
    let mut parts: Vec<Vec<char>> = Vec::new();
    let mut i: usize = 0;
    while i < loads.len()
        invariant
            i <= loads.len(),
            parts.deep_view() == loads@.take(i as int).map_values(|n: NodeLoad| load_line(n)),
        decreases loads.len() - i,
    {
        let line = load_line_vec(&loads[i]);
        let ghost before = parts@;
        parts.push(line);
        proof {
            crate::text::lemma_dv_push(before, line, parts@);
        }
        assert(parts.deep_view() =~= loads@.take(i as int + 1).map_values(
            |n: NodeLoad| load_line(n),
        ));
        i += 1;
    }
    assert(loads@.take(loads.len() as int) =~= loads@);
    let sep = chars_of("; ");
    string_of(join_vec(&parts, sep.as_slice()).as_slice())
}


/// How many elements `fill` can still add: those of `rest` not already in the list, once.
pub open spec fn avail(acc: Seq<NodeId>, rest: Seq<NodeId>) -> nat
    decreases rest.len(),
{
    if rest.len() == 0 {
        0
    } else if acc.contains(rest[0]) {
        avail(acc, rest.drop_first())
    } else {
        1 + avail(acc.push(rest[0]), rest.drop_first())
    }
}

proof fn lemma_fill_len(acc: Seq<NodeId>, rest: Seq<NodeId>, want: nat)
    requires
        acc.len() <= want,
    ensures
        fill(acc, rest, want).len() == (if acc.len() + avail(acc, rest) < want {
            acc.len() + avail(acc, rest)
        } else {
            want
        }),
    decreases rest.len(),
{
    if acc.len() >= want || rest.len() == 0 {
    } else if acc.contains(rest[0]) {
        lemma_fill_len(acc, rest.drop_first(), want);
    } else {
        lemma_fill_len(acc.push(rest[0]), rest.drop_first(), want);
    }
}

proof fn lemma_avail_count(acc: Seq<NodeId>, rest: Seq<NodeId>, x: NodeId)
    requires
        rest.no_duplicates(),
        forall|y: NodeId| acc.contains(y) && rest.contains(y) ==> y == x,
        rest.contains(x) ==> acc.contains(x),
    ensures
        avail(acc, rest) == rest.len() - (if rest.contains(x) {
            1int
        } else {
            0int
        }),
    decreases rest.len(),
{
    if rest.len() > 0 {
        let r0 = rest[0];
        let t = rest.drop_first();
        assert(forall|k: int| 0 <= k < t.len() ==> t[k] == rest[k + 1]);
        assert(!t.contains(r0)) by {
            if t.contains(r0) {
                let k = choose|k: int| 0 <= k < t.len() && t[k] == r0;
                assert(rest[k + 1] == rest[0]);
            }
        }
        assert(t.no_duplicates()) by {
            assert forall|i: int, j: int| 0 <= i < t.len() && 0 <= j < t.len() && i != j implies t[i]
                != t[j] by {
                assert(t[i] == rest[i + 1] && t[j] == rest[j + 1]);
            }
        }
        assert(forall|y: NodeId| t.contains(y) ==> rest.contains(y)) by {
            assert forall|y: NodeId| t.contains(y) implies rest.contains(y) by {
                let k = choose|k: int| 0 <= k < t.len() && t[k] == y;
                assert(rest[k + 1] == y);
            }
        }
        assert(rest.contains(r0));
        if acc.contains(r0) {
            assert(r0 == x);
            lemma_avail_count(acc, t, x);
        } else {
            let a2 = acc.push(r0);
            assert forall|y: NodeId| a2.contains(y) && t.contains(y) implies y == x by {
                if acc.contains(y) {
                } else {
                    let k = choose|k: int| 0 <= k < a2.len() && a2[k] == y;
                    if k < acc.len() {
                        assert(acc.contains(y));
                    } else {
                        assert(y == r0);
                    }
                }
            }
            assert(r0 != x);
            assert(t.contains(x) == rest.contains(x)) by {
                if rest.contains(x) {
                    let k = choose|k: int| 0 <= k < rest.len() && rest[k] == x;
                    assert(k != 0);
                    assert(t[k - 1] == x);
                }
            }
            assert(t.contains(x) ==> a2.contains(x)) by {
                if t.contains(x) {
                    assert(acc.contains(x));
                    let k = choose|k: int| 0 <= k < acc.len() && acc[k] == x;
                    assert(a2[k] == x);
                }
            }
            lemma_avail_count(a2, t, x);
        }
    }
}

proof fn lemma_avail_disjoint(acc: Seq<NodeId>, rest: Seq<NodeId>)
    requires
        rest.no_duplicates(),
        forall|y: NodeId| acc.contains(y) ==> !rest.contains(y),
    ensures
        avail(acc, rest) == rest.len(),
    decreases rest.len(),
{
    if rest.len() > 0 {
        let r0 = rest[0];
        let t = rest.drop_first();
        assert(forall|k: int| 0 <= k < t.len() ==> t[k] == rest[k + 1]);
        assert(!t.contains(r0)) by {
            if t.contains(r0) {
                let k = choose|k: int| 0 <= k < t.len() && t[k] == r0;
                assert(rest[k + 1] == rest[0]);
            }
        }
        assert(t.no_duplicates()) by {
            assert forall|i: int, j: int| 0 <= i < t.len() && 0 <= j < t.len() && i != j implies t[i]
                != t[j] by {
                assert(t[i] == rest[i + 1] && t[j] == rest[j + 1]);
            }
        }
        assert(rest.contains(r0));
        assert(!acc.contains(r0));
        let a2 = acc.push(r0);
        assert forall|y: NodeId| a2.contains(y) implies !t.contains(y) by {
            let k = choose|k: int| 0 <= k < a2.len() && a2[k] == y;
            if k < acc.len() {
                assert(acc.contains(y));
                if t.contains(y) {
                    let q = choose|q: int| 0 <= q < t.len() && t[q] == y;
                    assert(rest[q + 1] == y);
                }
            } else {
                assert(y == r0);
            }
        }
        lemma_avail_disjoint(a2, t);
    }
}

/// With distinct online nodes, a volume gets exactly the replicas it wants: `count`
/// (at least 1), capped at the number of online nodes; with no node online, only the
/// holder, when there is one.
pub proof fn lemma_place_replicas_len(online: Seq<NodeId>, count: u8, holder: Option<NodeId>)
    requires
        online.no_duplicates(),
    ensures
        spec_place_replicas(online, count, holder).len() == (if online.len() > 0 {
            want_replicas(online.len(), count) as int
        } else if holder is Some {
            1int
        } else {
            0int
        }),
{
    let w = want_replicas(online.len(), count);
    let inside = holder is Some && online.contains(holder->0);
    let seed: Seq<NodeId> = if inside {
        seq![holder->0]
    } else {
        seq![]
    };
    let x = match holder {
        Some(h) => h,
        None => NodeId(0),
    };
    if inside {
        assert forall|y: NodeId| seed.contains(y) && online.contains(y) implies y == x by {
            assert(seed[0] == x);
        }
        assert(seed[0] == x);
        assert(seed.contains(x));
        lemma_avail_count(seed, online, x);
    } else {
        assert(forall|y: NodeId| !seed.contains(y));
        if online.contains(x) {
            assert(holder is None);
        }
        lemma_avail_disjoint(seed, online);
    }
    lemma_fill_len(seed, online, w);
}


/// Placing a guest: when the preferred node fits it goes there; otherwise it goes to a
/// node that fits and carries the least load, where a node's load is the per-mille of its
/// CPUs (at least 1) taken by used vCPUs plus the per-mille of its guest memory budget
/// (at least 1) taken by used memory, ties going to the smaller id; and nowhere only when
/// no node fits.
pub proof fn lemma_schedule_least_load(
    nodes: Seq<NodeLoad>,
    vcpus: u8,
    mem: u32,
    prefer: Option<NodeId>,
    r: Option<NodeId>,
)
    requires
        schedule_ok(nodes, vcpus, mem, prefer, r),
    ensures
        prefer is Some && id_fits(nodes, prefer->0, vcpus, mem) ==> r == prefer,
        !(prefer is Some && id_fits(nodes, prefer->0, vcpus, mem)) ==> (r is None <==> forall|j: int|
            0 <= j < nodes.len() ==> !spec_node_fits(#[trigger] nodes[j], vcpus, mem)),
        !(prefer is Some && id_fits(nodes, prefer->0, vcpus, mem)) ==> (r matches Some(id) ==> exists|i: int|
            0 <= i < nodes.len() && #[trigger] nodes[i].id == id && spec_node_fits(nodes[i], vcpus, mem)
                && forall|j: int|
                0 <= j < nodes.len() && spec_node_fits(#[trigger] nodes[j], vcpus, mem) ==> ({
                    let li = sat_mul(nodes[i].used_vcpus, 1000) / (if nodes[i].cpus > 1 {
                        nodes[i].cpus
                    } else {
                        1
                    }) + sat_mul(nodes[i].used_memory_mib, 1000) / (if spec_budget(
                        nodes[i].memory_mib,
                    ) > 1 {
                        spec_budget(nodes[i].memory_mib)
                    } else {
                        1
                    });
                    let lj = sat_mul(nodes[j].used_vcpus, 1000) / (if nodes[j].cpus > 1 {
                        nodes[j].cpus
                    } else {
                        1
                    }) + sat_mul(nodes[j].used_memory_mib, 1000) / (if spec_budget(
                        nodes[j].memory_mib,
                    ) > 1 {
                        spec_budget(nodes[j].memory_mib)
                    } else {
                        1
                    });
                    li < lj || (li == lj && nodes[i].id.0 <= nodes[j].id.0)
                })),
{
}

/// With no online preferred node and no online replica holder, placing a defined guest
/// picks an online node whose used memory is no more than any other online node's, ties
/// going to fewer used vCPUs, then to the smaller id; and nowhere only when no node is
/// online.
pub proof fn lemma_schedule_define_least_memory(
    nodes: Seq<NodeLoad>,
    prefer: Option<NodeId>,
    affinity: Seq<NodeId>,
    r: Option<NodeId>,
)
    requires
        schedule_define_ok(nodes, prefer, affinity, r),
        !(prefer is Some && id_online(nodes, prefer->0)),
        forall|k: int| 0 <= k < affinity.len() ==> !id_online(nodes, #[trigger] affinity[k]),
    ensures
        r is None <==> forall|j: int| 0 <= j < nodes.len() ==> !(#[trigger] nodes[j]).online,
        r matches Some(id) ==> exists|i: int|
            0 <= i < nodes.len() && #[trigger] nodes[i].id == id && nodes[i].online && forall|j: int|
                0 <= j < nodes.len() && (#[trigger] nodes[j]).online ==> (nodes[i].used_memory_mib
                    < nodes[j].used_memory_mib || (nodes[i].used_memory_mib == nodes[j].used_memory_mib
                    && (nodes[i].used_vcpus < nodes[j].used_vcpus || (nodes[i].used_vcpus
                    == nodes[j].used_vcpus && nodes[i].id.0 <= nodes[j].id.0)))),
{
    lemma_no_online_affinity(nodes, affinity, 0);
    if !any_online(nodes) {
        assert forall|j: int| 0 <= j < nodes.len() implies !(#[trigger] nodes[j]).online by {}
    } else {
        let w = choose|w: int| 0 <= w < nodes.len() && #[trigger] nodes[w].online;
        assert(nodes[w].online);
    }
}

/// Placing a defined guest: nowhere when no node is online; else on the preferred node
/// when it is online; else on the first replica holder (in the order given) that is
/// online, when there is one.
pub proof fn lemma_schedule_define_prefers(
    nodes: Seq<NodeLoad>,
    prefer: Option<NodeId>,
    affinity: Seq<NodeId>,
    r: Option<NodeId>,
)
    requires
        schedule_define_ok(nodes, prefer, affinity, r),
    ensures
        (forall|j: int| 0 <= j < nodes.len() ==> !(#[trigger] nodes[j]).online) ==> r is None,
        (prefer matches Some(p) && exists|i: int|
            0 <= i < nodes.len() && #[trigger] nodes[i].id == p && nodes[i].online) ==> r == prefer,
        !(prefer matches Some(p) && exists|i: int|
            0 <= i < nodes.len() && #[trigger] nodes[i].id == p && nodes[i].online) && (exists|k: int,
            i: int|
            0 <= k < affinity.len() && 0 <= i < nodes.len() && #[trigger] nodes[i].id
                == #[trigger] affinity[k] && nodes[i].online) ==> exists|k: int|
            0 <= k < affinity.len() && r == Some(#[trigger] affinity[k]) && (exists|i: int|
                0 <= i < nodes.len() && #[trigger] nodes[i].id == affinity[k] && nodes[i].online)
                && forall|q: int, i: int|
                0 <= q < k && 0 <= i < nodes.len() && #[trigger] nodes[i].id == #[trigger] affinity[q]
                    ==> !nodes[i].online,
{
    if exists|k: int, i: int|
        0 <= k < affinity.len() && 0 <= i < nodes.len() && #[trigger] nodes[i].id == #[trigger] affinity[k]
            && nodes[i].online {
        let (k, i) = choose|k: int, i: int|
            0 <= k < affinity.len() && 0 <= i < nodes.len() && #[trigger] nodes[i].id
                == #[trigger] affinity[k] && nodes[i].online;
        assert(nodes[i].online);
        assert(id_online(nodes, affinity[k]));
        lemma_first_online_affinity(nodes, affinity, 0, k);
        let f = first_online_affinity(nodes, affinity, 0);
        assert forall|q: int, j: int|
            0 <= q < f && 0 <= j < nodes.len() && #[trigger] nodes[j].id == #[trigger] affinity[q]
                implies !nodes[j].online by {
            assert(!id_online(nodes, affinity[q]));
        }
    }
}

proof fn lemma_first_online_affinity(nodes: Seq<NodeLoad>, affinity: Seq<NodeId>, k: int, w: int)
    requires
        0 <= k <= w < affinity.len(),
        id_online(nodes, affinity[w]),
    ensures
        k <= first_online_affinity(nodes, affinity, k) <= w,
        id_online(nodes, affinity[first_online_affinity(nodes, affinity, k)]),
        forall|q: int| k <= q < first_online_affinity(nodes, affinity, k) ==> !id_online(
            nodes,
            #[trigger] affinity[q],
        ),
    decreases affinity.len() - k,
{
    if !id_online(nodes, affinity[k]) {
        lemma_first_online_affinity(nodes, affinity, k + 1, w);
    }
}

/// Placing a guest that uses replicated volumes: when some node that fits holds a
/// replica, the guest lands on a replica holder; when none does, it is placed as any
/// guest would be.
pub proof fn lemma_schedule_storage_holders(
    nodes: Seq<NodeLoad>,
    vcpus: u8,
    mem: u32,
    prefer: Option<NodeId>,
    affinity: Seq<NodeId>,
    r: Option<NodeId>,
)
    requires
        schedule_storage_ok(nodes, vcpus, mem, prefer, affinity, r),
    ensures
        affinity.len() > 0 && (exists|i: int|
            0 <= i < nodes.len() && spec_node_fits(#[trigger] nodes[i], vcpus, mem) && affinity.contains(
                nodes[i].id,
            )) ==> (r is Some && affinity.contains(r->0)),
        !(exists|i: int|
            0 <= i < nodes.len() && spec_node_fits(#[trigger] nodes[i], vcpus, mem) && affinity.contains(
                nodes[i].id,
            )) ==> schedule_ok(nodes, vcpus, mem, prefer, r),
{
    let pred = affinity_pred(affinity, vcpus, mem);
    let local = nodes.filter(pred);
    let f = choose|f: Option<NodeId>|
        #[trigger] schedule_ok(nodes, vcpus, mem, prefer, f) && if f is Some && (affinity.len() == 0
            || affinity.contains(f->0)) {
            r == f
        } else if local.len() > 0 {
            schedule_ok(local, vcpus, mem, prefer, r)
        } else {
            schedule_ok(nodes, vcpus, mem, prefer, r)
        };
    if exists|i: int|
        0 <= i < nodes.len() && spec_node_fits(#[trigger] nodes[i], vcpus, mem) && affinity.contains(
            nodes[i].id,
        ) {
        let i = choose|i: int|
            0 <= i < nodes.len() && spec_node_fits(#[trigger] nodes[i], vcpus, mem) && affinity.contains(
                nodes[i].id,
            );
        nodes.lemma_filter_contains(pred, i);
        let w = choose|w: int| 0 <= w < local.len() && local[w] == nodes[i];
        assert(spec_node_fits(local[w], vcpus, mem));
        if !(f is Some && (affinity.len() == 0 || affinity.contains(f->0))) && affinity.len() > 0 {
            assert(local.len() > 0);
            if prefer is Some && id_fits(local, prefer->0, vcpus, mem) {
                let q = choose|q: int|
                    0 <= q < local.len() && #[trigger] local[q].id == prefer->0 && spec_node_fits(
                        local[q],
                        vcpus,
                        mem,
                    );
                nodes.lemma_filter_pred(pred, q);
            } else {
                assert(some_node_fits(local, vcpus, mem));
                let id = r->0;
                let q = choose|q: int|
                    0 <= q < local.len() && #[trigger] local[q].id == id && spec_node_fits(
                        local[q],
                        vcpus,
                        mem,
                    ) && forall|j: int|
                        0 <= j < local.len() && spec_node_fits(#[trigger] local[j], vcpus, mem)
                            ==> !load_lt(local[j], local[q]);
                nodes.lemma_filter_pred(pred, q);
            }
        }
    } else {
        if local.len() > 0 {
            nodes.lemma_filter_pred(pred, 0);
            nodes.lemma_filter_contains_rev(pred, local[0]);
            let w = choose|w: int| 0 <= w < nodes.len() && nodes[w] == local[0];
            assert(spec_node_fits(nodes[w], vcpus, mem) && affinity.contains(nodes[w].id));
        }
    }
}

proof fn lemma_no_online_affinity(nodes: Seq<NodeLoad>, affinity: Seq<NodeId>, k: int)
    requires
        0 <= k,
        forall|q: int| 0 <= q < affinity.len() ==> !id_online(nodes, #[trigger] affinity[q]),
    ensures
        first_online_affinity(nodes, affinity, k) == affinity.len(),
    decreases affinity.len() - k,
{
    if k < affinity.len() {
        lemma_no_online_affinity(nodes, affinity, k + 1);
    }
}


/// A node fits a guest when it is online and, for vCPUs and for memory alike, the guest
/// asks for none or its need added to what is in use stays within the node's room: eight
/// vCPUs per CPU (capped at `u32::MAX`), and the installed memory less a host reserve of
/// a twentieth of it clamped to `64..=1536` MiB (no room when that reserve is larger).
pub proof fn lemma_node_fits_room(n: NodeLoad, vcpus: u8, mem: u32)
    ensures
        spec_node_fits(n, vcpus, mem) == ({
            let cpu_room: int = if n.cpus * 8 > u32::MAX {
                u32::MAX as int
            } else {
                n.cpus * 8
            };
            let reserve: int = if n.memory_mib / 20 < 64 {
                64
            } else if n.memory_mib / 20 > 1536 {
                1536
            } else {
                (n.memory_mib / 20) as int
            };
            let mem_room: int = if n.memory_mib < reserve {
                0
            } else {
                n.memory_mib - reserve
            };
            &&& n.online
            &&& (vcpus == 0 || n.used_vcpus + vcpus <= cpu_room)
            &&& (mem == 0 || n.used_memory_mib + mem <= mem_room)
        }),
{
}

}
