//! Membership, heartbeats, quorum, leadership and fencing of a cluster.
//!
//! Time is given to every method that needs it (`now`, in milliseconds); the caller
//! persists the state after each change.
use vstd::prelude::*;

use crate::ids::{clone_strings, has_v4_layout, random_uuid, NodeId};
use crate::netnames::{hex_pad, hex_pad_vec};
use crate::placement::{has_quorum, NodeLoad};
use crate::text::{chars_eq, chars_of, string_of};
use crate::urls::{
    is_loopback_peer_url, rewrite_peer_host, spec_is_loopback_peer_url, spec_rewrite_peer_host,
    HostAddrs,
};

verus! {

/// What a node tells the cluster about itself.
#[derive(Debug)]
pub struct NodeRecord {
    pub id: NodeId,
    pub name: String,
    pub peer_url: String,
    pub cpus: u32,
    pub memory_mib: u32,
    pub ipv4: Vec<String>,
    pub ipv6: Vec<String>,
}

pub struct NodeRecordView {
    pub id: NodeId,
    pub name: Seq<char>,
    pub peer_url: Seq<char>,
    pub cpus: u32,
    pub memory_mib: u32,
    pub ipv4: Seq<String>,
    pub ipv6: Seq<String>,
}

impl View for NodeRecord {
    type V = NodeRecordView;

    open spec fn view(&self) -> NodeRecordView {
        NodeRecordView {
            id: self.id,
            name: self.name@,
            peer_url: self.peer_url@,
            cpus: self.cpus,
            memory_mib: self.memory_mib,
            ipv4: self.ipv4@,
            ipv6: self.ipv6@,
        }
    }
}

impl NodeRecord {
    /// A copy with the same view.
    pub fn copy(&self) -> (r: NodeRecord)
        ensures
            r@ == self@,
    {
        NodeRecord {
            id: self.id,
            name: self.name.clone(),
            peer_url: self.peer_url.clone(),
            cpus: self.cpus,
            memory_mib: self.memory_mib,
            ipv4: clone_strings(&self.ipv4),
            ipv6: clone_strings(&self.ipv6),
        }
    }
}

/// One member as the cluster keeps it: its key, its record, and when it was last heard.
#[derive(Debug)]
pub struct MemberState {
    pub id: NodeId,
    pub record: NodeRecord,
    pub last_seen_ms: u64,
}

pub struct MemberView {
    pub id: NodeId,
    pub record: NodeRecordView,
    pub last_seen_ms: u64,
}

impl View for MemberState {
    type V = MemberView;

    open spec fn view(&self) -> MemberView {
        MemberView { id: self.id, record: self.record@, last_seen_ms: self.last_seen_ms }
    }
}

impl MemberState {
    pub fn copy(&self) -> (r: MemberState)
        ensures
            r@ == self@,
    {
        MemberState { id: self.id, record: self.record.copy(), last_seen_ms: self.last_seen_ms }
    }
}

/// Membership as exchanged between nodes.
#[derive(Debug)]
pub struct ClusterSnapshot {
    pub name: String,
    pub secret: String,
    pub generation: u64,
    pub members: Vec<NodeRecord>,
    /// Guest records carried along (none in a membership snapshot).
    pub vms: Vec<crate::types::VmRecord>,
    /// Volume records carried along (none in a membership snapshot).
    pub volumes: Vec<crate::types::VolumeRecord>,
}

/// One member as reported by `status`.
#[derive(Debug)]
pub struct ClusterMemberStatus {
    pub id: NodeId,
    pub name: String,
    pub peer_url: String,
    pub online: bool,
    pub cpus: u32,
    pub memory_mib: u32,
    pub used_vcpus: u32,
    pub used_memory_mib: u32,
    pub ipv4: Vec<String>,
    pub ipv6: Vec<String>,
}

/// The cluster as reported by `status`.
#[derive(Debug)]
pub struct ClusterStatus {
    pub name: String,
    pub generation: u64,
    pub self_id: NodeId,
    pub leader_id: Option<NodeId>,
    pub quorum: bool,
    pub fenced: bool,
    pub members: Vec<ClusterMemberStatus>,
}

/// A heartbeat sent to peers.
#[derive(Debug)]
pub struct HeartbeatMessage {
    pub from: NodeId,
    pub generation: u64,
    pub member: NodeRecord,
    pub snapshot: Option<ClusterSnapshot>,
}

/// Membership, generation and fencing state of this node's view of the cluster.
#[derive(Debug)]
pub struct Cluster {
    pub heartbeat_ms: u64,
    pub offline_after_ms: u64,
    pub self_id: NodeId,
    pub name: String,
    pub secret: String,
    pub generation: u64,
    /// Members ordered by id, at most one per id.
    pub members: Vec<MemberState>,
    pub fenced: bool,
}

// ---------------------------------------------------------------------------
// Ordered member lists
// ---------------------------------------------------------------------------

pub open spec fn mviews(ms: Seq<MemberState>) -> Seq<MemberView> {
    Seq::new(ms.len(), |i: int| ms[i]@)
}

/// Strictly increasing ids: an ordered map from id to member.
pub open spec fn sorted_ids(s: Seq<MemberView>) -> bool {
    forall|i: int, j: int| 0 <= i < j < s.len() ==> (#[trigger] s[i]).id.0 < (#[trigger] s[j]).id.0
}

/// Position of `id` at or after `i`, or -1.
pub open spec fn index_from(s: Seq<MemberView>, id: NodeId, i: int) -> int
    decreases s.len() - i,
{
    if i < 0 || i >= s.len() {
        -1
    } else if s[i].id == id {
        i
    } else {
        index_from(s, id, i + 1)
    }
}

/// Position of `id`, or -1.
pub open spec fn index_of(s: Seq<MemberView>, id: NodeId) -> int {
    index_from(s, id, 0)
}

/// The member list with this node's record taking the addresses `v4` and `v6`; the list
/// as it is when this node is no member.
pub open spec fn with_self_addrs(
    s: Seq<MemberView>,
    self_id: NodeId,
    v4: Seq<String>,
    v6: Seq<String>,
) -> Seq<MemberView> {
    if index_of(s, self_id) >= 0 {
        let m = s[index_of(s, self_id)];
        s.update(
            index_of(s, self_id),
            MemberView { record: NodeRecordView { ipv4: v4, ipv6: v6, ..m.record }, ..m },
        )
    } else {
        s
    }
}

/// The first load from position `q` on that is for node `id`.
pub open spec fn first_load_from(loads: Seq<NodeLoad>, id: NodeId, q: int) -> Option<NodeLoad>
    decreases loads.len() - q,
{
    if q < 0 || q >= loads.len() {
        None
    } else if loads[q].id == id {
        Some(loads[q])
    } else {
        first_load_from(loads, id, q + 1)
    }
}

/// What node `id` uses by the first of `loads` for it: `(vcpus, memory MiB)`, else none.
pub open spec fn used_by(loads: Seq<NodeLoad>, id: NodeId) -> (u32, u32) {
    match first_load_from(loads, id, 0) {
        Some(n) => (n.used_vcpus, n.used_memory_mib),
        None => (0, 0),
    }
}

/// Two member lists with the same keys, record ids and last-seen times, in order.
pub open spec fn same_liveness(a: Seq<MemberView>, b: Seq<MemberView>) -> bool {
    &&& a.len() == b.len()
    &&& forall|i: int|
        0 <= i < a.len() ==> (#[trigger] a[i]).id == b[i].id && a[i].record.id == b[i].record.id
            && a[i].last_seen_ms == b[i].last_seen_ms
}

proof fn lemma_index_same_keys(a: Seq<MemberView>, b: Seq<MemberView>, id: NodeId, i: int)
    requires
        same_liveness(a, b),
    ensures
        index_from(a, id, i) == index_from(b, id, i),
    decreases a.len() - i,
{
    if 0 <= i < a.len() {
        assert(a[i].id == b[i].id);
        lemma_index_same_keys(a, b, id, i + 1);
    }
}

proof fn lemma_online_same_liveness(a: Seq<MemberView>, b: Seq<MemberView>, self_id: NodeId, now: u64, t: u64)
    requires
        same_liveness(a, b),
    ensures
        online_of(a, self_id, now, t) == online_of(b, self_id, now, t),
    decreases a.len(),
{
    if a.len() > 0 {
        let (da, db) = (a.drop_last(), b.drop_last());
        assert(same_liveness(da, db)) by {
            assert forall|i: int| 0 <= i < da.len() implies (#[trigger] da[i]).id == db[i].id
                && da[i].record.id == db[i].record.id && da[i].last_seen_ms == db[i].last_seen_ms by {
                assert(da[i] == a[i] && db[i] == b[i]);
            }
        }
        lemma_online_same_liveness(da, db, self_id, now, t);
        assert(a.last() == a[a.len() - 1] && b.last() == b[b.len() - 1]);
    }
}

proof fn lemma_self_addrs_liveness(s: Seq<MemberView>, self_id: NodeId, v4: Seq<String>, v6: Seq<String>)
    ensures
        same_liveness(s, with_self_addrs(s, self_id, v4, v6)),
{
    lemma_index_from(s, self_id, 0);
}

/// The member with key `id`.
pub open spec fn lookup(s: Seq<MemberView>, id: NodeId) -> Option<MemberView> {
    if index_of(s, id) >= 0 {
        Some(s[index_of(s, id)])
    } else {
        None
    }
}

/// Insert or replace the member with key `m.id`, keeping ids ordered.
pub open spec fn upsert(s: Seq<MemberView>, m: MemberView) -> Seq<MemberView>
    decreases s.len(),
{
    if s.len() == 0 {
        seq![m]
    } else if s[0].id == m.id {
        seq![m] + s.drop_first()
    } else if m.id.0 < s[0].id.0 {
        seq![m] + s
    } else {
        seq![s[0]] + upsert(s.drop_first(), m)
    }
}

pub proof fn lemma_index_from(s: Seq<MemberView>, id: NodeId, i: int)
    requires
        0 <= i,
    ensures
        index_from(s, id, i) == -1 || (i <= index_from(s, id, i) < s.len() && s[index_from(
            s,
            id,
            i,
        )].id == id),
        forall|k: int|
            i <= k < s.len() && (index_from(s, id, i) == -1 || k < index_from(s, id, i)) ==> s[k].id
                != id,
    decreases s.len() - i,
{
    if i < s.len() && s[i].id != id {
        lemma_index_from(s, id, i + 1);
    }
}

proof fn lemma_index_drop_first(s: Seq<MemberView>, id: NodeId)
    requires
        s.len() > 0,
        s[0].id != id,
    ensures
        index_of(s, id) == if index_of(s.drop_first(), id) < 0 {
            -1
        } else {
            index_of(s.drop_first(), id) + 1
        },
{
    lemma_index_from(s, id, 0);
    lemma_index_from(s.drop_first(), id, 0);
    lemma_index_from(s, id, 1);
    lemma_index_shift(s, id, 1);
}

proof fn lemma_index_shift(s: Seq<MemberView>, id: NodeId, i: int)
    requires
        1 <= i <= s.len(),
    ensures
        index_from(s, id, i) == if index_from(s.drop_first(), id, i - 1) < 0 {
            -1
        } else {
            index_from(s.drop_first(), id, i - 1) + 1
        },
    decreases s.len() - i,
{
    if i < s.len() && s[i].id != id {
        lemma_index_shift(s, id, i + 1);
    }
}

proof fn lemma_lookup_cons(s: Seq<MemberView>, x: NodeId)
    requires
        s.len() > 0,
        s[0].id != x,
    ensures
        lookup(s, x) == lookup(s.drop_first(), x),
{
    lemma_index_drop_first(s, x);
    lemma_index_from(s.drop_first(), x, 0);
    if index_of(s.drop_first(), x) >= 0 {
        assert(s[index_of(s.drop_first(), x) + 1] == s.drop_first()[index_of(s.drop_first(), x)]);
    }
}

/// Lookup law of `upsert`: the written key reads back the written member, every
/// other key reads back what it read before, and ids stay ordered.
pub proof fn lemma_upsert(s: Seq<MemberView>, m: MemberView)
    requires
        sorted_ids(s),
    ensures
        sorted_ids(upsert(s, m)),
        lookup(upsert(s, m), m.id) == Some(m),
        forall|x: NodeId| x != m.id ==> lookup(upsert(s, m), x) == lookup(s, x),
        forall|k: int| 0 <= k < upsert(s, m).len() ==> (#[trigger] upsert(s, m)[k]).id == m.id || exists|
            q: int,
        | 0 <= q < s.len() && s[q] == upsert(s, m)[k],
        forall|q: int| 0 <= q < s.len() && s[q].id != m.id ==> upsert(s, m).contains(#[trigger] s[q]),
    decreases s.len(),
{
    let u = upsert(s, m);
    if s.len() == 0 {
        assert(index_from(u, m.id, 0) == 0);
        assert forall|x: NodeId| x != m.id implies lookup(u, x) == lookup(s, x) by {
            assert(index_from(u, x, 1) == -1);
        }
    } else if s[0].id == m.id {
        let t = s.drop_first();
        assert(u[0] == m);
        assert(index_from(u, m.id, 0) == 0);
        assert(sorted_ids(u)) by {
            assert forall|i: int, j: int| 0 <= i < j < u.len() implies (#[trigger] u[i]).id.0 < (
            #[trigger] u[j]).id.0 by {
                if i == 0 {
                    assert(u[j] == s[j]);
                } else {
                    assert(u[i] == s[i]);
                    assert(u[j] == s[j]);
                }
            }
        }
        assert(u.drop_first() =~= s.drop_first());
        assert forall|x: NodeId| x != m.id implies lookup(u, x) == lookup(s, x) by {
            lemma_lookup_cons(u, x);
            lemma_lookup_cons(s, x);
        }
        assert forall|k: int| 0 <= k < u.len() implies (#[trigger] u[k]).id == m.id || exists|q: int|
            0 <= q < s.len() && s[q] == u[k] by {
            if k > 0 {
                assert(s[k] == u[k]);
            }
        }
        assert forall|q: int| 0 <= q < s.len() && s[q].id != m.id implies u.contains(
            #[trigger] s[q],
        ) by {
            assert(u[q] == s[q]);
        }
    } else if m.id.0 < s[0].id.0 {
        assert(u[0] == m);
        assert(index_from(u, m.id, 0) == 0);
        assert(sorted_ids(u)) by {
            assert forall|i: int, j: int| 0 <= i < j < u.len() implies (#[trigger] u[i]).id.0 < (
            #[trigger] u[j]).id.0 by {
                if i == 0 {
                    assert(u[j] == s[j - 1]);
                    if j > 1 {
                        assert(s[0].id.0 < s[j - 1].id.0);
                    }
                } else {
                    assert(u[i] == s[i - 1]);
                    assert(u[j] == s[j - 1]);
                }
            }
        }
        assert(u.drop_first() =~= s);
        assert forall|x: NodeId| x != m.id implies lookup(u, x) == lookup(s, x) by {
            lemma_lookup_cons(u, x);
        }
        assert forall|k: int| 0 <= k < u.len() implies (#[trigger] u[k]).id == m.id || exists|q: int|
            0 <= q < s.len() && s[q] == u[k] by {
            if k > 0 {
                assert(s[k - 1] == u[k]);
            }
        }
        assert forall|q: int| 0 <= q < s.len() && s[q].id != m.id implies u.contains(
            #[trigger] s[q],
        ) by {
            assert(u[q + 1] == s[q]);
        }
    } else {
        let t = s.drop_first();
        assert(sorted_ids(t)) by {
            assert forall|i: int, j: int| 0 <= i < j < t.len() implies (#[trigger] t[i]).id.0 < (
            #[trigger] t[j]).id.0 by {
                assert(t[i] == s[i + 1]);
                assert(t[j] == s[j + 1]);
            }
        }
        lemma_upsert(t, m);
        let ut = upsert(t, m);
        assert(u =~= seq![s[0]] + ut);
        assert(u.drop_first() =~= ut);
        assert(u[0] == s[0]);
        assert(sorted_ids(u)) by {
            assert forall|i: int, j: int| 0 <= i < j < u.len() implies (#[trigger] u[i]).id.0 < (
            #[trigger] u[j]).id.0 by {
                if i == 0 {
                    assert(u[j] == ut[j - 1]);
                    if ut[j - 1].id == m.id {
                    } else {
                        let q = choose|q: int| 0 <= q < t.len() && t[q] == ut[j - 1];
                        assert(t[q] == s[q + 1]);
                    }
                } else {
                    assert(u[i] == ut[i - 1]);
                    assert(u[j] == ut[j - 1]);
                }
            }
        }
        lemma_lookup_cons(u, m.id);
        assert(lookup(u, m.id) == Some(m));
        assert forall|x: NodeId| x != m.id implies lookup(u, x) == lookup(s, x) by {
            if x == s[0].id {
                assert(index_from(u, x, 0) == 0);
                assert(index_from(s, x, 0) == 0);
            } else {
                lemma_lookup_cons(u, x);
                lemma_lookup_cons(s, x);
            }
        }
        assert forall|k: int| 0 <= k < u.len() implies (#[trigger] u[k]).id == m.id || exists|q: int|
            0 <= q < s.len() && s[q] == u[k] by {
            if k == 0 {
                assert(s[0] == u[0]);
            } else {
                assert(u[k] == ut[k - 1]);
                if ut[k - 1].id != m.id {
                    let q = choose|q: int| 0 <= q < t.len() && t[q] == ut[k - 1];
                    assert(s[q + 1] == u[k]);
                }
            }
        }
        assert forall|q: int| 0 <= q < s.len() && s[q].id != m.id implies u.contains(
            #[trigger] s[q],
        ) by {
            if q == 0 {
                assert(u[0] == s[0]);
            } else {
                assert(t[q - 1] == s[q]);
                assert(ut.contains(t[q - 1]));
                let w = choose|w: int| 0 <= w < ut.len() && ut[w] == t[q - 1];
                assert(u[w + 1] == s[q]);
            }
        }
    }
}

/// Where `upsert` writes: the first position whose id is not below `m.id`.
proof fn lemma_upsert_split(s: Seq<MemberView>, m: MemberView, i: int)
    requires
        0 <= i <= s.len(),
        forall|j: int| 0 <= j < i ==> (#[trigger] s[j]).id.0 < m.id.0,
        i == s.len() || s[i].id.0 >= m.id.0,
    ensures
        upsert(s, m) == s.take(i) + (if i < s.len() && s[i].id == m.id {
            seq![m] + s.skip(i + 1)
        } else {
            seq![m] + s.skip(i)
        }),
    decreases i,
{
    if i == 0 {
        if s.len() == 0 {
        } else if s[0].id == m.id {
            assert(s.skip(1) =~= s.drop_first());
        } else {
            assert(s[0].id.0 > m.id.0);
            assert(s.skip(0) =~= s);
        }
        assert(s.take(0) =~= Seq::<MemberView>::empty());
    } else {
        let t = s.drop_first();
        assert(s[0].id.0 < m.id.0);
        lemma_upsert_split(t, m, i - 1);
        assert(t.take(i - 1) =~= s.take(i).drop_first());
        assert(s.take(i) =~= seq![s[0]] + t.take(i - 1));
        assert(t.skip(i - 1) =~= s.skip(i));
        if i < s.len() {
            assert(t.skip(i) =~= s.skip(i + 1));
            assert(t[i - 1] == s[i]);
        }
    }
}

proof fn lemma_mviews_update(v: Seq<MemberState>, i: int, x: MemberState)
    requires
        0 <= i < v.len(),
    ensures
        mviews(v.update(i, x)) == mviews(v).take(i) + (seq![x@] + mviews(v).skip(i + 1)),
{
    assert(mviews(v.update(i, x)) =~= mviews(v).take(i) + (seq![x@] + mviews(v).skip(i + 1)));
}

proof fn lemma_mviews_insert(v: Seq<MemberState>, i: int, x: MemberState)
    requires
        0 <= i <= v.len(),
    ensures
        mviews(v.insert(i, x)) == mviews(v).take(i) + (seq![x@] + mviews(v).skip(i)),
{
    assert(mviews(v.insert(i, x)) =~= mviews(v).take(i) + (seq![x@] + mviews(v).skip(i)));
}

/// `BTreeMap::insert`: put `m` under its id.
fn upsert_member(members: &mut Vec<MemberState>, m: MemberState)
    requires
        sorted_ids(mviews(old(members)@)),
    ensures
        mviews(final(members)@) == upsert(mviews(old(members)@), m@),
        sorted_ids(mviews(final(members)@)),
{
    let ghost s = mviews(members@);
    let ghost v0 = members@;
    let mut i: usize = 0;
    while i < members.len() && members[i].id.0 < m.id.0
        invariant
            i <= members.len(),
            s == mviews(members@),
            forall|j: int| 0 <= j < i ==> (#[trigger] s[j]).id.0 < m.id.0,
        decreases members.len() - i,
    {
        assert(s[i as int] == members@[i as int]@);
        i += 1;
    }
    proof {
        if i < members.len() {
            assert(s[i as int] == members@[i as int]@);
        }
        lemma_upsert_split(s, m@, i as int);
        lemma_upsert(s, m@);
    }
    let ghost mv = m;
    if i < members.len() && members[i].id == m.id {
        proof {
            assert(s[i as int].id == m.id);
            lemma_mviews_update(v0, i as int, mv);
        }
        members[i] = m;
        assert(members@ == v0.update(i as int, mv));
    } else {
        proof {
            lemma_mviews_insert(v0, i as int, mv);
        }
        members.insert(i, m);
    }
}

/// Index of the member keyed `id`.
fn find_member(members: &Vec<MemberState>, id: NodeId) -> (r: Option<usize>)
    ensures
        match r {
            Some(k) => k as int == index_of(mviews(members@), id) && k < members@.len(),
            None => index_of(mviews(members@), id) == -1,
        },
{
    let ghost s = mviews(members@);
    let mut i: usize = 0;
    while i < members.len()
        invariant
            i <= members.len(),
            s == mviews(members@),
            index_from(s, id, i as int) == index_from(s, id, 0),
        decreases members.len() - i,
    {
        if members[i].id == id {
            return Some(i);
        }
        i += 1;
    }
    None
}

// ---------------------------------------------------------------------------
// Liveness
// ---------------------------------------------------------------------------

/// Self is always online; others when heard within `timeout` ms.
pub open spec fn spec_member_is_online(m: MemberView, self_id: NodeId, now: u64, timeout: u64) -> bool {
    m.record.id == self_id || (if now < m.last_seen_ms {
        0
    } else {
        now - m.last_seen_ms
    }) <= timeout
}

pub fn member_is_online(member: &MemberState, self_id: NodeId, now: u64, timeout: u64) -> (r: bool)
    ensures
        r == spec_member_is_online(member@, self_id, now, timeout),
{
    member.record.id == self_id || now.saturating_sub(member.last_seen_ms) <= timeout
}

/// Record ids of the online members, in key order.
pub open spec fn online_of(s: Seq<MemberView>, self_id: NodeId, now: u64, timeout: u64) -> Seq<NodeId>
    decreases s.len(),
{
    if s.len() == 0 {
        seq![]
    } else {
        let rest = online_of(s.drop_last(), self_id, now, timeout);
        if spec_member_is_online(s.last(), self_id, now, timeout) {
            rest.push(s.last().record.id)
        } else {
            rest
        }
    }
}

/// Smallest id of a list (`Iterator::min`).
pub open spec fn min_id(ids: Seq<NodeId>) -> Option<NodeId>
    decreases ids.len(),
{
    if ids.len() == 0 {
        None
    } else {
        match min_id(ids.drop_last()) {
            None => Some(ids.last()),
            Some(m) => if ids.last().0 < m.0 {
                Some(ids.last())
            } else {
                Some(m)
            },
        }
    }
}

fn min_id_exec(ids: &Vec<NodeId>) -> (r: Option<NodeId>)
    ensures
        r == min_id(ids@),
{
    let mut best: Option<NodeId> = None;
    let mut i: usize = 0;
    while i < ids.len()
        invariant
            i <= ids.len(),
            best == min_id(ids@.take(i as int)),
        decreases ids.len() - i,
    {
        assert(ids@.take(i + 1).drop_last() =~= ids@.take(i as int));
        let x = ids[i];
        match best {
            None => {
                best = Some(x);
            },
            Some(b) => {
                if x.0 < b.0 {
                    best = Some(x);
                }
            },
        }
        i += 1;
    }
    assert(ids@.take(ids.len() as int) =~= ids@);
    best
}

/// The minimum is in the list and below every other element.
pub proof fn lemma_min_id(ids: Seq<NodeId>)
    ensures
        ids.len() == 0 <==> min_id(ids) is None,
        min_id(ids) matches Some(m) ==> ids.contains(m) && forall|k: int|
            0 <= k < ids.len() ==> m.0 <= (#[trigger] ids[k]).0,
    decreases ids.len(),
{
    if ids.len() > 0 {
        let d = ids.drop_last();
        lemma_min_id(d);
        match min_id(d) {
            None => {
                assert(ids.contains(ids.last()));
            },
            Some(m) => {
                let k0 = choose|k: int| 0 <= k < d.len() && d[k] == m;
                assert(ids[k0] == m);
                assert forall|k: int| 0 <= k < ids.len() implies (min_id(ids)->0).0 <= (
                #[trigger] ids[k]).0 by {
                    if k < d.len() {
                        assert(ids[k] == d[k]);
                    }
                }
                if ids.last().0 < m.0 {
                    assert(ids.contains(ids.last()));
                }
            },
        }
    }
}

// ---------------------------------------------------------------------------
// The cluster
// ---------------------------------------------------------------------------

/// Members still on loopback are given `scheme://<their first address>:port` of self.
pub open spec fn heal_target(m: MemberView, self_id: NodeId, self_url: Seq<char>) -> Option<
    Seq<char>,
> {
    if m.id == self_id || !spec_is_loopback_peer_url(m.record.peer_url) {
        None
    } else {
        let host = if m.record.ipv4.len() > 0 {
            Some(m.record.ipv4[0]@)
        } else if m.record.ipv6.len() > 0 {
            Some(m.record.ipv6[0]@)
        } else {
            None
        };
        match host {
            None => None,
            Some(h) => spec_rewrite_peer_host(self_url, h),
        }
    }
}

pub open spec fn with_peer_url(m: MemberView, url: Seq<char>) -> MemberView {
    MemberView { record: NodeRecordView { peer_url: url, ..m.record }, ..m }
}

pub open spec fn healed(m: MemberView, self_id: NodeId, self_url: Seq<char>) -> MemberView {
    match heal_target(m, self_id, self_url) {
        Some(u) => with_peer_url(m, u),
        None => m,
    }
}

/// What `self_record` answers when self is missing.
pub open spec fn fallback_record(self_id: NodeId) -> NodeRecordView {
    NodeRecordView {
        id: self_id,
        name: "node"@,
        peer_url: ""@,
        cpus: 4,
        memory_mib: 16384,
        ipv4: seq![],
        ipv6: seq![],
    }
}

/// `touch` with a record: keep a known LAN URL over a loopback one.
pub open spec fn touched_record(r: NodeRecordView, existing: Option<MemberView>) -> NodeRecordView {
    if spec_is_loopback_peer_url(r.peer_url) && existing is Some && !spec_is_loopback_peer_url(
        existing->0.record.peer_url,
    ) {
        NodeRecordView { peer_url: existing->0.record.peer_url, ..r }
    } else {
        r
    }
}

/// Members from a snapshot, in snapshot order, upserted onto `acc`; self is seen `now`,
/// others keep the time they were last heard in `old` (or 0).
pub open spec fn merge_snapshot(
    acc: Seq<MemberView>,
    recs: Seq<NodeRecordView>,
    old: Seq<MemberView>,
    self_id: NodeId,
    now: u64,
) -> Seq<MemberView>
    decreases recs.len(),
{
    if recs.len() == 0 {
        acc
    } else {
        let r = recs[0];
        let seen = if r.id == self_id {
            now
        } else {
            match lookup(old, r.id) {
                Some(m) => m.last_seen_ms,
                None => 0,
            }
        };
        merge_snapshot(
            upsert(acc, MemberView { id: r.id, record: r, last_seen_ms: seen }),
            recs.drop_first(),
            old,
            self_id,
            now,
        )
    }
}

/// Members of `old` that `acc` lacks are added back.
pub open spec fn keep_absent(acc: Seq<MemberView>, old: Seq<MemberView>) -> Seq<MemberView>
    decreases old.len(),
{
    if old.len() == 0 {
        acc
    } else if lookup(acc, old[0].id) is Some {
        keep_absent(acc, old.drop_first())
    } else {
        keep_absent(upsert(acc, old[0]), old.drop_first())
    }
}

/// `(id, peer_url)` of the members whose record is not self's, in key order.
pub open spec fn peers_of(s: Seq<MemberView>, self_id: NodeId) -> Seq<(NodeId, Seq<char>)>
    decreases s.len(),
{
    if s.len() == 0 {
        seq![]
    } else {
        let rest = peers_of(s.drop_last(), self_id);
        if s.last().record.id != self_id {
            rest.push((s.last().record.id, s.last().record.peer_url))
        } else {
            rest
        }
    }
}

/// The pair names an online node.
pub open spec fn online_pair(online: Seq<NodeId>) -> spec_fn((NodeId, Seq<char>)) -> bool {
    |p: (NodeId, Seq<char>)| online.contains(p.0)
}

pub open spec fn pairs_view(p: Seq<(NodeId, String)>) -> Seq<(NodeId, Seq<char>)> {
    Seq::new(p.len(), |i: int| (p[i].0, p[i].1@))
}

pub open spec fn rviews(rs: Seq<NodeRecord>) -> Seq<NodeRecordView> {
    Seq::new(rs.len(), |i: int| rs[i]@)
}

/// The member list of a reopened cluster, against the persisted records `recs`: every
/// other node as the records give it, not heard from yet; this node, when the records
/// hold it, seen `now` and with this run's peer URL, name, CPUs and memory (`upd`).
pub open spec fn restored_membership(
    mem: Seq<MemberView>,
    self_id: NodeId,
    recs: Seq<NodeRecordView>,
    upd: NodeRecordView,
    now: u64,
) -> bool {
    let merged = merge_snapshot(seq![], recs, seq![], self_id, now);
    &&& forall|x: NodeId| x != self_id ==> #[trigger] lookup(mem, x) == lookup(merged, x)
    &&& lookup(merged, self_id) is Some ==> lookup(mem, self_id) == Some(
        MemberView {
            id: self_id,
            record: NodeRecordView {
                peer_url: upd.peer_url,
                name: upd.name,
                cpus: upd.cpus,
                memory_mib: upd.memory_mib,
                ..lookup(merged, self_id)->0.record
            },
            last_seen_ms: now,
        },
    )
    &&& lookup(merged, self_id) is None ==> lookup(mem, self_id) is None
}

/// Whether a state file's text holds a cluster to reopen: anything but blanks.
pub fn state_text_present(text: &str) -> (r: bool)
    ensures
        r == (crate::text::trim(text@).len() > 0),
{
    crate::text::trim_vec(chars_of(text).as_slice()).len() > 0
}

/// What a state file holds of a cluster.
pub struct PersistedCluster {
    pub self_id: NodeId,
    pub name: String,
    pub secret: String,
    pub generation: u64,
    pub members: Vec<NodeRecord>,
}

impl Cluster {
    pub open spec fn mem(&self) -> Seq<MemberView> {
        mviews(self.members@)
    }

    /// Members are ordered by id, one per id.
    pub open spec fn wf(&self) -> bool {
        sorted_ids(self.mem())
    }

    pub open spec fn spec_self_record(&self) -> NodeRecordView {
        match lookup(self.mem(), self.self_id) {
            Some(m) => m.record,
            None => fallback_record(self.self_id),
        }
    }

    pub open spec fn spec_online_ids(&self, now: u64) -> Seq<NodeId> {
        online_of(self.mem(), self.self_id, now, self.offline_after_ms)
    }

    /// This node keeps its id, and the generation has not gone down since `before`.
    pub open spec fn keeps_identity(&self, before: &Cluster) -> bool {
        self.self_id == before.self_id && self.generation >= before.generation
    }

    /// Everything but the member list is unchanged.
    pub open spec fn same_but_members(&self, other: &Cluster) -> bool {
        &&& self.heartbeat_ms == other.heartbeat_ms
        &&& self.offline_after_ms == other.offline_after_ms
        &&& self.self_id == other.self_id
        &&& self.name@ == other.name@
        &&& self.secret@ == other.secret@
        &&& self.generation == other.generation
        &&& self.fenced == other.fenced
    }

    /// A cluster of one: this node, generation 1, not fenced. Heartbeats run at
    /// least every 50 ms; members go offline after at least 100 ms of silence.
    pub fn new_solo(
        record: NodeRecord,
        name: String,
        secret: String,
        heartbeat_ms: u64,
        offline_after_ms: u64,
        now: u64,
    ) -> (c: Cluster)
        ensures
            c.wf(),
            c.self_id == record.id,
            c.mem() == seq![MemberView { id: record.id, record: record@, last_seen_ms: now }],
            c.name@ == name@,
            c.secret@ == secret@,
            c.generation == 1,
            !c.fenced,
            c.heartbeat_ms == (if heartbeat_ms > 50 {
                heartbeat_ms
            } else {
                50
            }),
            c.offline_after_ms == (if offline_after_ms > 100 {
                offline_after_ms
            } else {
                100
            }),
    {
        let id = record.id;
        let ghost rv = record@;
        let mut members: Vec<MemberState> = Vec::new();
        members.push(MemberState { id, record, last_seen_ms: now });
        assert(mviews(members@) =~= seq![MemberView { id, record: rv, last_seen_ms: now }]);
        Cluster {
            heartbeat_ms: if heartbeat_ms > 50 {
                heartbeat_ms
            } else {
                50
            },
            offline_after_ms: if offline_after_ms > 100 {
                offline_after_ms
            } else {
                100
            },
            self_id: id,
            name,
            secret,
            generation: 1,
            members,
            fenced: false,
        }
    }

    /// Reopen persisted state: every persisted member, self seen `now` and refreshed with
    /// this run's URL, name, CPUs and memory; others not heard yet.
    pub fn restore(
        self_id: NodeId,
        name: String,
        secret: String,
        generation: u64,
        members: Vec<NodeRecord>,
        self_update: NodeRecord,
        heartbeat_ms: u64,
        offline_after_ms: u64,
        now: u64,
    ) -> (c: Cluster)
        ensures
            c.wf(),
            c.self_id == self_id,
            c.generation == generation,
            !c.fenced,
            c.name@ == name@,
            c.secret@ == secret@,
            c.heartbeat_ms == (if heartbeat_ms > 50 {
                heartbeat_ms
            } else {
                50
            }),
            c.offline_after_ms == (if offline_after_ms > 100 {
                offline_after_ms
            } else {
                100
            }),
            restored_membership(c.mem(), self_id, rviews(members@), self_update@, now),
            members@.len() == 1 && members@[0].id == self_id ==> c.mem().len() == 1
                && c.mem()[0].record.id == self_id,
    {
        let mut ms: Vec<MemberState> = Vec::new();
        proof {
            assert(mviews(ms@) =~= Seq::<MemberView>::empty());
            assert(rviews(members@).skip(0) =~= rviews(members@));
        }
        let mut i: usize = 0;
        while i < members.len()
            invariant
                i <= members.len(),
                sorted_ids(mviews(ms@)),
                merge_snapshot(seq![], rviews(members@), seq![], self_id, now) == merge_snapshot(
                    mviews(ms@),
                    rviews(members@).skip(i as int),
                    seq![],
                    self_id,
                    now,
                ),
            decreases members.len() - i,
        {
            let r = members[i].copy();
            let seen = if r.id == self_id {
                now
            } else {
                0
            };
            proof {
                let rest = rviews(members@).skip(i as int);
                assert(rest[0] == members@[i as int]@);
                assert(rest.drop_first() =~= rviews(members@).skip(i + 1));
                assert(index_of(Seq::<MemberView>::empty(), r.id) == -1);
            }
            let id = r.id;
            upsert_member(&mut ms, MemberState { id, record: r, last_seen_ms: seen });
            i += 1;
        }
        assert(rviews(members@).skip(members.len() as int).len() == 0);
        let mut c = Cluster {
            heartbeat_ms: if heartbeat_ms > 50 {
                heartbeat_ms
            } else {
                50
            },
            offline_after_ms: if offline_after_ms > 100 {
                offline_after_ms
            } else {
                100
            },
            self_id,
            name,
            secret,
            generation,
            members: ms,
            fenced: false,
        };
        let ghost before = c.mem();
        if let Some(k) = find_member(&c.members, self_id) {
            proof {
                lemma_index_from(before, self_id, 0);
            }
            let old_m = c.members[k].copy();
            let rec = NodeRecord {
                id: old_m.record.id,
                name: self_update.name,
                peer_url: self_update.peer_url,
                cpus: self_update.cpus,
                memory_mib: self_update.memory_mib,
                ipv4: old_m.record.ipv4,
                ipv6: old_m.record.ipv6,
            };
            let nm = MemberState { id: self_id, record: rec, last_seen_ms: now };
            let ghost nv = nm@;
            upsert_member(&mut c.members, nm);
            proof {
                lemma_upsert(before, nv);
            }
        }
        proof {
            if members@.len() == 1 && members@[0].id == self_id {
                let recs = rviews(members@);
                let m0 = MemberView { id: self_id, record: recs[0], last_seen_ms: now };
                let merged = merge_snapshot(seq![], recs, seq![], self_id, now);
                assert(recs[0].id == self_id);
                assert(upsert(seq![], m0) == seq![m0]);
                assert(recs.drop_first().len() == 0);
                assert(merge_snapshot(seq![m0], recs.drop_first(), seq![], self_id, now) == seq![m0]);
                assert(merged == seq![m0]);
                assert(index_from(seq![m0], self_id, 0) == 0);
                assert forall|x: NodeId| x != self_id implies #[trigger] lookup(c.mem(), x) is None by {
                    assert(index_from(seq![m0], x, 1) == -1);
                    assert(index_from(seq![m0], x, 0) == -1);
                    assert(lookup(merged, x) is None);
                }
                lemma_single_member(c.mem(), self_id);
            }
        }
        c
    }

    /// Open a cluster: reopen the persisted state when there is one (see `restore`, with
    /// this run's record `self_record` for this node), else start a cluster of one under a
    /// fresh random node id, named `cluster_name`, with a secret of two random UUIDs' 32
    /// hex digits each, generation 1.
    pub fn open_state(
        persisted: Option<PersistedCluster>,
        self_record: NodeRecord,
        cluster_name: String,
        heartbeat_ms: u64,
        offline_after_ms: u64,
        now: u64,
    ) -> (c: Cluster)
        ensures
            c.wf(),
            !c.fenced,
            c.heartbeat_ms == (if heartbeat_ms > 50 {
                heartbeat_ms
            } else {
                50
            }),
            c.offline_after_ms == (if offline_after_ms > 100 {
                offline_after_ms
            } else {
                100
            }),
            match persisted {
                Some(p) => {
                    &&& c.self_id == p.self_id
                    &&& c.generation == p.generation
                    &&& c.name@ == p.name@
                    &&& c.secret@ == p.secret@
                    &&& restored_membership(c.mem(), p.self_id, rviews(p.members@), self_record@, now)
                    &&& p.members@.len() == 1 && p.members@[0].id == p.self_id ==> c.mem().len() == 1
                        && c.mem()[0].record.id == p.self_id
                },
                None => {
                    &&& has_v4_layout(c.self_id.0)
                    &&& c.generation == 1
                    &&& c.name@ == cluster_name@
                    &&& c.mem() == seq![
                        MemberView {
                            id: c.self_id,
                            record: NodeRecordView { id: c.self_id, ..self_record@ },
                            last_seen_ms: now,
                        },
                    ]
                    &&& exists|a: u128, b: u128|
                        has_v4_layout(a) && has_v4_layout(b) && c.secret@ == #[trigger] hex_pad(a as nat, 32)
                            + #[trigger] hex_pad(b as nat, 32)
                },
            },
    {
        match persisted {
            Some(p) => Cluster::restore(
                p.self_id,
                p.name,
                p.secret,
                p.generation,
                p.members,
                self_record,
                heartbeat_ms,
                offline_after_ms,
                now,
            ),
            None => {
                let id = NodeId::new();
                let record = NodeRecord {
                    id,
                    name: self_record.name,
                    peer_url: self_record.peer_url,
                    cpus: self_record.cpus,
                    memory_mib: self_record.memory_mib,
                    ipv4: self_record.ipv4,
                    ipv6: self_record.ipv6,
                };
                let a = random_uuid();
                let b = random_uuid();
                let mut secret = hex_pad_vec(a, 32);
                let tail = hex_pad_vec(b, 32);
                let mut i: usize = 0;
                while i < tail.len()
                    invariant
                        i <= tail.len(),
                        secret@ == hex_pad(a as nat, 32) + tail@.take(i as int),
                    decreases tail.len() - i,
                {
                    proof {
                        assert(tail@.take(i + 1) =~= tail@.take(i as int).push(tail@[i as int]));
                    }
                    secret.push(tail[i]);
                    i += 1;
                }
                assert(tail@.take(tail.len() as int) =~= tail@);
                let secret = string_of(secret.as_slice());
                Cluster::new_solo(record, cluster_name, secret, heartbeat_ms, offline_after_ms, now)
            },
        }
    }

    /// What is written to the state file: this node's id, the cluster's name, secret and
    /// generation, and every member's record in id order.
    pub fn persisted(&self) -> (p: PersistedCluster)
        ensures
            p.self_id == self.self_id,
            p.name@ == self.name@,
            p.secret@ == self.secret@,
            p.generation == self.generation,
            rviews(p.members@) == Seq::new(self.mem().len(), |i: int| self.mem()[i].record),
    {
        let mut recs: Vec<NodeRecord> = Vec::new();
        let mut i: usize = 0;
        while i < self.members.len()
            invariant
                i <= self.members.len(),
                rviews(recs@) == Seq::new(i as nat, |k: int| self.mem()[k].record),
            decreases self.members.len() - i,
        {
            let r = self.members[i].record.copy();
            assert(self.mem()[i as int].record == r@);
            let ghost before = recs@;
            assert(rviews(before).len() == before.len());
            assert(before.len() == i);
            recs.push(r);
            assert(recs@ == before.push(r));
            assert forall|k: int| 0 <= k <= i implies #[trigger] rviews(recs@)[k] == self.mem()[k].record by {
                if k < i {
                    assert(recs@[k] == before[k]);
                    assert(rviews(before)[k] == Seq::new(i as nat, |q: int| self.mem()[q].record)[k]);
                }
            }
            assert(rviews(recs@) =~= Seq::new((i + 1) as nat, |k: int| self.mem()[k].record));
            i += 1;
        }
        PersistedCluster {
            self_id: self.self_id,
            name: self.name.clone(),
            secret: self.secret.clone(),
            generation: self.generation,
            members: recs,
        }
    }

    pub fn heartbeat_ms(&self) -> (r: u64)
        ensures
            r == self.heartbeat_ms,
    {
        self.heartbeat_ms
    }

    pub fn self_id(&self) -> (r: NodeId)
        ensures
            r == self.self_id,
    {
        self.self_id
    }

    pub fn secret(&self) -> (r: String)
        ensures
            r@ == self.secret@,
    {
        self.secret.clone()
    }

    /// Does `got` equal the cluster secret?
    pub fn check_secret(&self, got: &str) -> (r: bool)
        ensures
            r == (self.secret@ == got@),
    {
        let a = chars_of(self.secret.as_str());
        let b = chars_of(got);
        chars_eq(a.as_slice(), b.as_slice())
    }

    /// This node's record (a default one when self is not a member).
    pub fn self_record(&self) -> (r: NodeRecord)
        ensures
            r@ == self.spec_self_record(),
    {
        proof {
            reveal_strlit("");
            reveal_strlit("node");
        }
        match find_member(&self.members, self.self_id) {
            Some(k) => self.members[k].record.copy(),
            None => {
                let r = NodeRecord {
                    id: self.self_id,
                    name: string_of(chars_of("node").as_slice()),
                    peer_url: String::new(),
                    cpus: 4,
                    memory_mib: 16384,
                    ipv4: Vec::new(),
                    ipv6: Vec::new(),
                };
                assert(r@.ipv4 =~= Seq::<String>::empty());
                assert(r@.ipv6 =~= Seq::<String>::empty());
                assert(r@.peer_url =~= ""@);
                r
            },
        }
    }

    /// Change the peer URL of member `id`, when it is a member.
    pub fn set_member_peer_url(&mut self, id: NodeId, url: String)
        requires
            old(self).wf(),
        ensures
            final(self).keeps_identity(old(self)),
            final(self).wf(),
            final(self).same_but_members(old(self)),
            index_of(old(self).mem(), id) >= 0 ==> final(self).mem() == old(self).mem().update(
                index_of(old(self).mem(), id),
                with_peer_url(old(self).mem()[index_of(old(self).mem(), id)], url@),
            ),
            index_of(old(self).mem(), id) < 0 ==> final(self).mem() == old(self).mem(),
    {
        let ghost s = self.mem();
        if let Some(k) = find_member(&self.members, id) {
            proof {
                lemma_index_from(s, id, 0);
            }
            let mut m = self.members.remove(k);
            m.record.peer_url = url;
            self.members.insert(k, m);
            assert(self.mem() =~= s.update(k as int, with_peer_url(s[k as int], url@)));
            assert(sorted_ids(self.mem())) by {
                assert forall|i: int, j: int| 0 <= i < j < self.mem().len() implies (
                #[trigger] self.mem()[i]).id.0 < (#[trigger] self.mem()[j]).id.0 by {
                    assert(s[i].id == self.mem()[i].id);
                    assert(s[j].id == self.mem()[j].id);
                }
            }
        }
    }

    /// Change this node's own peer URL.
    pub fn set_peer_url(&mut self, url: String)
        requires
            old(self).wf(),
        ensures
            final(self).keeps_identity(old(self)),
            final(self).wf(),
            final(self).same_but_members(old(self)),
            index_of(old(self).mem(), old(self).self_id) >= 0 ==> final(self).mem() == old(self).mem().update(
                index_of(old(self).mem(), old(self).self_id),
                with_peer_url(old(self).mem()[index_of(old(self).mem(), old(self).self_id)], url@),
            ),
            index_of(old(self).mem(), old(self).self_id) < 0 ==> final(self).mem() == old(self).mem(),
    {
        let id = self.self_id;
        self.set_member_peer_url(id, url);
    }

    /// When this node has a LAN URL, rewrite members still advertising loopback to
    /// `scheme://<their address>:port`. Returns whether any member changed.
    pub fn heal_remote_peer_urls(&mut self) -> (changed: bool)
        requires
            old(self).wf(),
        ensures
            final(self).keeps_identity(old(self)),
            final(self).wf(),
            final(self).same_but_members(old(self)),
            spec_is_loopback_peer_url(old(self).spec_self_record().peer_url) ==> !changed
                && final(self).mem() == old(self).mem(),
            !spec_is_loopback_peer_url(old(self).spec_self_record().peer_url) ==> {
                &&& final(self).mem() == Seq::new(
                    old(self).mem().len(),
                    |i: int|
                        healed(
                            old(self).mem()[i],
                            old(self).self_id,
                            old(self).spec_self_record().peer_url,
                        ),
                )
                &&& changed == exists|i: int|
                    0 <= i < old(self).mem().len() && #[trigger] heal_target(
                        old(self).mem()[i],
                        old(self).self_id,
                        old(self).spec_self_record().peer_url,
                    ) is Some
            },
    {
        let self_rec = self.self_record();
        if is_loopback_peer_url(self_rec.peer_url.as_str()) {
            return false;
        }
        let ghost s = self.mem();
        let ghost su = self_rec.peer_url@;
        let ghost orig: Cluster = *self;
        let sid = self.self_id;
        let mut changed = false;
        let mut i: usize = 0;
        while i < self.members.len()
            invariant
                i <= self.members.len(),
                self.members.len() == s.len(),
                sid == self.self_id,
                self.same_but_members(&orig),
                su == self_rec.peer_url@,
                forall|k: int| 0 <= k < i ==> self.mem()[k] == healed(s[k], sid, su),
                forall|k: int| i <= k < s.len() ==> self.mem()[k] == s[k],
                changed == exists|k: int|
                    0 <= k < i && #[trigger] heal_target(s[k], sid, su) is Some,
            decreases s.len() - i,
        {
            let ghost before = self.mem();
            let m = &self.members[i];
            let mut target: Option<String> = None;
            if m.id != sid && is_loopback_peer_url(m.record.peer_url.as_str()) {
                let host: Option<&String> = if m.record.ipv4.len() > 0 {
                    Some(&m.record.ipv4[0])
                } else if m.record.ipv6.len() > 0 {
                    Some(&m.record.ipv6[0])
                } else {
                    None
                };
                if let Some(h) = host {
                    target = rewrite_peer_host(self_rec.peer_url.as_str(), h.as_str());
                }
            }
            proof {
                assert(s[i as int] == before[i as int]);
            }
            match target {
                Some(url) => {
                    let mut mm = self.members.remove(i);
                    mm.record.peer_url = url;
                    self.members.insert(i, mm);
                    changed = true;
                    proof {
                        assert forall|k: int| 0 <= k < i + 1 implies self.mem()[k] == healed(
                            s[k],
                            sid,
                            su,
                        ) by {
                            if k < i {
                                assert(self.mem()[k] == before[k]);
                            }
                        }
                        assert forall|k: int| i + 1 <= k < s.len() implies self.mem()[k] == s[k] by {
                            assert(self.mem()[k] == before[k]);
                        }
                    }
                },
                None => {
                    proof {
                        assert(heal_target(s[i as int], sid, su) is None);
                    }
                },
            }
            i += 1;
        }
        assert(self.mem() =~= Seq::new(s.len(), |k: int| healed(s[k], sid, su)));
        assert(sorted_ids(self.mem())) by {
            assert forall|a: int, b: int| 0 <= a < b < self.mem().len() implies (
            #[trigger] self.mem()[a]).id.0 < (#[trigger] self.mem()[b]).id.0 by {
                assert(self.mem()[a].id == s[a].id);
                assert(self.mem()[b].id == s[b].id);
            }
        }
        changed
    }

    pub fn generation(&self) -> (r: u64)
        ensures
            r == self.generation,
    {
        self.generation
    }

    /// Advance the membership generation.
    pub fn bump(&mut self)
        requires
            old(self).generation < u64::MAX,
        ensures
            final(self).keeps_identity(old(self)),
            final(self).generation == old(self).generation + 1,
            final(self).mem() == old(self).mem(),
            final(self).self_id == old(self).self_id,
            final(self).fenced == old(self).fenced,
            final(self).name@ == old(self).name@,
            final(self).secret@ == old(self).secret@,
            final(self).heartbeat_ms == old(self).heartbeat_ms,
            final(self).offline_after_ms == old(self).offline_after_ms,
    {
        self.generation = self.generation + 1;
    }

    /// `(id, peer_url)` of every member other than self, in key order.
    pub fn peer_urls_except_self(&self) -> (r: Vec<(NodeId, String)>)
        ensures
            pairs_view(r@) == peers_of(self.mem(), self.self_id),
    {
        let mut out: Vec<(NodeId, String)> = Vec::new();
        let mut i: usize = 0;
        while i < self.members.len()
            invariant
                i <= self.members.len(),
                pairs_view(out@) == peers_of(self.mem().take(i as int), self.self_id),
            decreases self.members.len() - i,
        {
            assert(self.mem().take(i + 1).drop_last() =~= self.mem().take(i as int));
            assert(self.mem().take(i + 1).last() == self.members@[i as int]@);
            let m = &self.members[i];
            if m.record.id != self.self_id {
                let ghost before = out@;
                out.push((m.record.id, m.record.peer_url.clone()));
                assert(pairs_view(out@) =~= pairs_view(before).push((m.record.id, m.record.peer_url@)));
            }
            i += 1;
        }
        assert(self.mem().take(self.members.len() as int) =~= self.mem());
        out
    }

    /// Record ids of the online members, in key order.
    pub fn online_ids(&self, now: u64) -> (r: Vec<NodeId>)
        ensures
            r@ == self.spec_online_ids(now),
    {
        let mut out: Vec<NodeId> = Vec::new();
        let mut i: usize = 0;
        while i < self.members.len()
            invariant
                i <= self.members.len(),
                out@ == online_of(self.mem().take(i as int), self.self_id, now, self.offline_after_ms),
            decreases self.members.len() - i,
        {
            assert(self.mem().take(i + 1).drop_last() =~= self.mem().take(i as int));
            assert(self.mem().take(i + 1).last() == self.members@[i as int]@);
            if member_is_online(&self.members[i], self.self_id, now, self.offline_after_ms) {
                out.push(self.members[i].record.id);
            }
            i += 1;
        }
        assert(self.mem().take(self.members.len() as int) =~= self.mem());
        out
    }

    /// Peer URLs of the online members other than self.
    pub fn peer_urls_online_except_self(&self, now: u64) -> (r: Vec<(NodeId, String)>)
        ensures
            pairs_view(r@) == peers_of(self.mem(), self.self_id).filter(
                online_pair(self.spec_online_ids(now)),
            ),
            forall|k: int|
                0 <= k < r@.len() ==> self.spec_online_ids(now).contains(#[trigger] r@[k].0)
                    && r@[k].0 != self.self_id,
    {
        let online = self.online_ids(now);
        let all = self.peer_urls_except_self();
        proof {
            lemma_peers_not_self(self.mem(), self.self_id);
            assert forall|k: int| 0 <= k < all@.len() implies (#[trigger] all@[k]).0 != self.self_id by {
                assert(pairs_view(all@)[k].0 == all@[k].0);
            }
        }
        let mut out: Vec<(NodeId, String)> = Vec::new();
        let mut i: usize = 0;
        while i < all.len()
            invariant
                i <= all.len(),
                online@ == self.spec_online_ids(now),
                forall|k: int| 0 <= k < all@.len() ==> (#[trigger] all@[k]).0 != self.self_id,
                forall|k: int|
                    0 <= k < out@.len() ==> online@.contains(#[trigger] out@[k].0) && out@[k].0
                        != self.self_id,
                pairs_view(all@) == peers_of(self.mem(), self.self_id),
                pairs_view(out@) == pairs_view(all@).take(i as int).filter(online_pair(online@)),
            decreases all.len() - i,
        {
            proof {
                let pv = pairs_view(all@);
                pv.take(i as int).lemma_filter_push(pv[i as int], online_pair(online@));
                assert(pv.take(i as int + 1) =~= pv.take(i as int).push(pv[i as int]));
            }
            if node_in(&online, all[i].0) {
                let ghost before = out@;
                out.push((all[i].0, all[i].1.clone()));
                assert(pairs_view(out@) =~= pairs_view(before).push(pairs_view(all@)[i as int]));
            }
            i += 1;
        }
        assert(pairs_view(all@).take(all.len() as int) =~= pairs_view(all@));
        out
    }

    /// Peer URL of member `id`.
    pub fn member_url(&self, id: NodeId) -> (r: Option<String>)
        ensures
            match lookup(self.mem(), id) {
                Some(m) => r matches Some(u) && u@ == m.record.peer_url,
                None => r is None,
            },
    {
        match find_member(&self.members, id) {
            Some(k) => Some(self.members[k].record.peer_url.clone()),
            None => None,
        }
    }

    /// Note a heartbeat from `id` at `now`; with a record, (re)insert the member, keeping
    /// a known LAN URL when the new record only advertises loopback.
    pub fn touch(&mut self, id: NodeId, record: Option<NodeRecord>, now: u64)
        requires
            old(self).wf(),
        ensures
            final(self).keeps_identity(old(self)),
            final(self).wf(),
            final(self).same_but_members(old(self)),
            record matches Some(r) ==> final(self).mem() == upsert(
                old(self).mem(),
                MemberView {
                    id,
                    record: touched_record(r@, lookup(old(self).mem(), id)),
                    last_seen_ms: now,
                },
            ),
            record is None && index_of(old(self).mem(), id) >= 0 ==> final(self).mem() == old(self).mem().update(
                index_of(old(self).mem(), id),
                MemberView {
                    last_seen_ms: now,
                    ..old(self).mem()[index_of(old(self).mem(), id)]
                },
            ),
            record is None && index_of(old(self).mem(), id) < 0 ==> final(self).mem() == old(self).mem(),
    {
        let ghost s = self.mem();
        let found = find_member(&self.members, id);
        proof {
            lemma_index_from(s, id, 0);
        }
        match record {
            Some(mut r) => {
                if is_loopback_peer_url(r.peer_url.as_str()) {
                    if let Some(k) = found {
                        if !is_loopback_peer_url(self.members[k].record.peer_url.as_str()) {
                            r.peer_url = self.members[k].record.peer_url.clone();
                        }
                    }
                }
                upsert_member(&mut self.members, MemberState { id, record: r, last_seen_ms: now });
            },
            None => {
                if let Some(k) = found {
                    let mut m = self.members.remove(k);
                    m.last_seen_ms = now;
                    self.members.insert(k, m);
                    assert(self.mem() =~= s.update(
                        k as int,
                        MemberView { last_seen_ms: now, ..s[k as int] },
                    ));
                    assert(sorted_ids(self.mem())) by {
                        assert forall|i: int, j: int| 0 <= i < j < self.mem().len() implies (
                        #[trigger] self.mem()[i]).id.0 < (#[trigger] self.mem()[j]).id.0 by {
                            assert(s[i].id == self.mem()[i].id);
                            assert(s[j].id == self.mem()[j].id);
                        }
                    }
                }
            },
        }
    }

    /// Note that this node is alive.
    pub fn touch_self(&mut self, now: u64)
        requires
            old(self).wf(),
        ensures
            final(self).keeps_identity(old(self)),
            final(self).wf(),
            final(self).same_but_members(old(self)),
            index_of(old(self).mem(), old(self).self_id) >= 0 ==> final(self).mem() == old(self).mem().update(
                index_of(old(self).mem(), old(self).self_id),
                MemberView {
                    last_seen_ms: now,
                    ..old(self).mem()[index_of(old(self).mem(), old(self).self_id)]
                },
            ),
            index_of(old(self).mem(), old(self).self_id) < 0 ==> final(self).mem() == old(self).mem(),
    {
        let id = self.self_id;
        self.touch(id, None, now);
    }

    /// Majority of members online (self always counts as online).
    pub fn has_quorum(&self, now: u64) -> (r: bool)
        ensures
            r == (self.mem().len() > 0 && 2 * self.spec_online_ids(now).len() > self.mem().len()),
    {
        let online = self.online_ids(now);
        proof {
            lemma_online_len(self.mem(), self.self_id, now, self.offline_after_ms);
        }
        has_quorum(online.len(), self.members.len())
    }

    /// Smallest online id.
    pub fn leader_id(&self, now: u64) -> (r: Option<NodeId>)
        ensures
            r == min_id(self.spec_online_ids(now)),
    {
        let online = self.online_ids(now);
        min_id_exec(&online)
    }

    /// Is this node the leader (smallest online id)?
    pub fn is_leader(&self, now: u64) -> (r: bool)
        ensures
            r == (min_id(self.spec_online_ids(now)) == Some(self.self_id)),
    {
        match self.leader_id(now) {
            Some(id) => id == self.self_id,
            None => false,
        }
    }

    pub fn is_fenced(&self) -> (r: bool)
        ensures
            r == self.fenced,
    {
        self.fenced
    }

    /// Set the fencing flag; true when this call entered the fenced state.
    pub fn set_fenced(&mut self, fenced: bool) -> (entered: bool)
        ensures
            final(self).keeps_identity(old(self)),
            entered == (fenced && !old(self).fenced),
            final(self).fenced == fenced,
            final(self).mem() == old(self).mem(),
            final(self).generation == old(self).generation,
            final(self).self_id == old(self).self_id,
            final(self).name@ == old(self).name@,
            final(self).secret@ == old(self).secret@,
            final(self).heartbeat_ms == old(self).heartbeat_ms,
            final(self).offline_after_ms == old(self).offline_after_ms,
    {
        let entered = fenced && !self.fenced;
        self.fenced = fenced;
        entered
    }

    /// Admit a node (seen `now`) and advance the generation.
    pub fn add_member(&mut self, record: NodeRecord, now: u64)
        requires
            old(self).wf(),
            old(self).generation < u64::MAX,
        ensures
            final(self).keeps_identity(old(self)),
            final(self).wf(),
            final(self).mem() == upsert(
                old(self).mem(),
                MemberView { id: record.id, record: record@, last_seen_ms: now },
            ),
            final(self).generation == old(self).generation + 1,
            final(self).self_id == old(self).self_id,
            final(self).fenced == old(self).fenced,
            final(self).name@ == old(self).name@,
            final(self).secret@ == old(self).secret@,
            final(self).heartbeat_ms == old(self).heartbeat_ms,
            final(self).offline_after_ms == old(self).offline_after_ms,
    {
        let id = record.id;
        upsert_member(&mut self.members, MemberState { id, record, last_seen_ms: now });
        self.generation = self.generation + 1;
    }

    /// Drop every member but self, advance the generation and lift fencing.
    pub fn reset_solo(&mut self)
        requires
            old(self).wf(),
            old(self).generation < u64::MAX,
        ensures
            final(self).keeps_identity(old(self)),
            final(self).wf(),
            final(self).mem() == (if index_of(old(self).mem(), old(self).self_id) >= 0 {
                seq![old(self).mem()[index_of(old(self).mem(), old(self).self_id)]]
            } else {
                Seq::<MemberView>::empty()
            }),
            final(self).generation == old(self).generation + 1,
            !final(self).fenced,
            final(self).self_id == old(self).self_id,
            final(self).name@ == old(self).name@,
            final(self).secret@ == old(self).secret@,
            final(self).heartbeat_ms == old(self).heartbeat_ms,
            final(self).offline_after_ms == old(self).offline_after_ms,
    {
        let ghost s = self.mem();
        let found = find_member(&self.members, self.self_id);
        proof {
            lemma_index_from(s, self.self_id, 0);
        }
        let mut kept: Vec<MemberState> = Vec::new();
        if let Some(k) = found {
            let m = self.members.remove(k);
            kept.push(m);
        }
        self.members = kept;
        assert(self.mem() =~= (if index_of(s, self.self_id) >= 0 {
            seq![s[index_of(s, self.self_id)]]
        } else {
            Seq::<MemberView>::empty()
        }));
        self.generation = self.generation + 1;
        self.fenced = false;
    }

    /// Adopt a snapshot of equal or newer generation: its name, secret and generation,
    /// its members (self seen `now`, others keeping when they were last heard), and every
    /// member we knew that the snapshot lacks. An older snapshot changes nothing.
    pub fn apply_membership(&mut self, snap: &ClusterSnapshot, now: u64)
        requires
            old(self).wf(),
        ensures
            final(self).keeps_identity(old(self)),
            final(self).wf(),
            snap.generation < old(self).generation ==> final(self).mem() == old(self).mem()
                && final(self).generation == old(self).generation && final(self).name@ == old(self).name@ && final(self).secret@ == old(self).secret@,
            snap.generation >= old(self).generation ==> {
                &&& final(self).mem() == keep_absent(
                    merge_snapshot(
                        seq![],
                        rviews(snap.members@),
                        old(self).mem(),
                        old(self).self_id,
                        now,
                    ),
                    old(self).mem(),
                )
                &&& final(self).generation == snap.generation
                &&& final(self).name@ == snap.name@
                &&& final(self).secret@ == snap.secret@
            },
            final(self).self_id == old(self).self_id,
            final(self).fenced == old(self).fenced,
            final(self).heartbeat_ms == old(self).heartbeat_ms,
            final(self).offline_after_ms == old(self).offline_after_ms,
    {
        if snap.generation < self.generation {
            return;
        }
        let ghost old_mem = self.mem();
        let sid = self.self_id;
        self.name = snap.name.clone();
        self.secret = snap.secret.clone();
        self.generation = snap.generation;
        let mut next: Vec<MemberState> = Vec::new();
        proof {
            assert(mviews(next@) =~= Seq::<MemberView>::empty());
            assert(rviews(snap.members@).skip(0) =~= rviews(snap.members@));
        }
        let mut i: usize = 0;
        while i < snap.members.len()
            invariant
                i <= snap.members.len(),
                sorted_ids(mviews(next@)),
                old_mem == self.mem(),
                sorted_ids(old_mem),
                sid == self.self_id,
                merge_snapshot(seq![], rviews(snap.members@), old_mem, sid, now) == merge_snapshot(
                    mviews(next@),
                    rviews(snap.members@).skip(i as int),
                    old_mem,
                    sid,
                    now,
                ),
            decreases snap.members.len() - i,
        {
            let r = snap.members[i].copy();
            let seen = if r.id == sid {
                now
            } else {
                match find_member(&self.members, r.id) {
                    Some(k) => self.members[k].last_seen_ms,
                    None => 0,
                }
            };
            proof {
                let rest = rviews(snap.members@).skip(i as int);
                assert(rest[0] == snap.members@[i as int]@);
                assert(rest.drop_first() =~= rviews(snap.members@).skip(i + 1));
                lemma_index_from(old_mem, r.id, 0);
            }
            let id = r.id;
            upsert_member(&mut next, MemberState { id, record: r, last_seen_ms: seen });
            i += 1;
        }
        assert(rviews(snap.members@).skip(snap.members.len() as int).len() == 0);
        let ghost merged = mviews(next@);
        let mut j: usize = 0;
        assert(old_mem.skip(0) =~= old_mem);
        while j < self.members.len()
            invariant
                j <= self.members.len(),
                old_mem == self.mem(),
                sorted_ids(mviews(next@)),
                keep_absent(merged, old_mem) == keep_absent(mviews(next@), old_mem.skip(j as int)),
            decreases self.members.len() - j,
        {
            let ghost rest = old_mem.skip(j as int);
            assert(rest[0] == self.members@[j as int]@);
            assert(rest.drop_first() =~= old_mem.skip(j + 1));
            let id = self.members[j].id;
            let present = find_member(&next, id);
            proof {
                lemma_index_from(mviews(next@), id, 0);
            }
            if present.is_none() {
                let m = self.members[j].copy();
                upsert_member(&mut next, m);
            }
            j += 1;
        }
        assert(old_mem.skip(self.members.len() as int).len() == 0);
        self.members = next;
    }

    /// Name, secret, generation and member records, in key order.
    pub fn membership_snapshot(&self) -> (r: ClusterSnapshot)
        ensures
            r.name@ == self.name@,
            r.secret@ == self.secret@,
            r.generation == self.generation,
            rviews(r.members@) == Seq::new(self.mem().len(), |i: int| self.mem()[i].record),
            r.vms@.len() == 0,
            r.volumes@.len() == 0,
    {
        ClusterSnapshot {
            name: self.name.clone(),
            secret: self.secret.clone(),
            generation: self.generation,
            members: self.member_records(),
            vms: Vec::new(),
            volumes: Vec::new(),
        }
    }

    fn member_records(&self) -> (r: Vec<NodeRecord>)
        ensures
            rviews(r@) == Seq::new(self.mem().len(), |i: int| self.mem()[i].record),
    {
        let mut out: Vec<NodeRecord> = Vec::new();
        let mut i: usize = 0;
        while i < self.members.len()
            invariant
                i <= self.members.len(),
                out@.len() == i,
                forall|k: int| 0 <= k < i ==> (#[trigger] out@[k])@ == self.members@[k]@.record,
            decreases self.members.len() - i,
        {
            out.push(self.members[i].record.copy());
            i += 1;
        }
        assert(rviews(out@) =~= Seq::new(self.mem().len(), |i: int| self.mem()[i].record));
        out
    }

    /// Store this host's current addresses in the self record.
    pub fn refresh_self_addrs(&mut self, addrs: HostAddrs)
        requires
            old(self).wf(),
        ensures
            final(self).keeps_identity(old(self)),
            final(self).wf(),
            final(self).same_but_members(old(self)),
            final(self).mem() == with_self_addrs(
                old(self).mem(),
                old(self).self_id,
                addrs.ipv4@,
                addrs.ipv6@,
            ),
    {
        let ghost s = self.mem();
        if let Some(k) = find_member(&self.members, self.self_id) {
            proof {
                lemma_index_from(s, self.self_id, 0);
            }
            let mut m = self.members.remove(k);
            m.record.ipv4 = addrs.ipv4;
            m.record.ipv6 = addrs.ipv6;
            let ghost mv = m@;
            self.members.insert(k, m);
            assert(self.mem() =~= s.update(k as int, mv));
            assert(sorted_ids(self.mem())) by {
                assert forall|i: int, j: int| 0 <= i < j < self.mem().len() implies (
                #[trigger] self.mem()[i]).id.0 < (#[trigger] self.mem()[j]).id.0 by {
                    assert(s[i].id == self.mem()[i].id);
                    assert(s[j].id == self.mem()[j].id);
                }
            }
        }
    }

    /// A heartbeat from this node, after refreshing its addresses; with the membership
    /// snapshot when asked.
    pub fn heartbeat_out(&mut self, include_snapshot: bool, addrs: HostAddrs) -> (h: HeartbeatMessage)
        requires
            old(self).wf(),
        ensures
            final(self).keeps_identity(old(self)),
            final(self).wf(),
            final(self).same_but_members(old(self)),
            h.from == old(self).self_id,
            h.generation == old(self).generation,
            h.member@ == final(self).spec_self_record(),
            final(self).mem() == with_self_addrs(
                old(self).mem(),
                old(self).self_id,
                addrs.ipv4@,
                addrs.ipv6@,
            ),
            index_of(old(self).mem(), old(self).self_id) >= 0 ==> h.member@ == (NodeRecordView {
                ipv4: addrs.ipv4@,
                ipv6: addrs.ipv6@,
                ..old(self).spec_self_record()
            }),
            include_snapshot == h.snapshot is Some,
            h.snapshot matches Some(sn) ==> sn.generation == old(self).generation && rviews(
                sn.members@,
            ) == Seq::new(final(self).mem().len(), |i: int| final(self).mem()[i].record)
                && sn.vms@.len() == 0 && sn.volumes@.len() == 0,
    {
        let ghost a4 = addrs.ipv4@;
        let ghost a6 = addrs.ipv6@;
        self.refresh_self_addrs(addrs);
        proof {
            lemma_self_addrs_liveness(old(self).mem(), self.self_id, a4, a6);
            lemma_index_same_keys(old(self).mem(), self.mem(), self.self_id, 0);
            lemma_index_from(old(self).mem(), self.self_id, 0);
        }
        let member = self.self_record();
        let snapshot = if include_snapshot {
            Some(self.membership_snapshot())
        } else {
            None
        };
        HeartbeatMessage { from: self.self_id, generation: self.generation, member, snapshot }
    }

    /// Members with liveness and load, quorum, leader and fencing, after refreshing
    /// this node's addresses. A node without quorum reports itself fenced.
    pub fn status(&mut self, loads: &[NodeLoad], now: u64, addrs: HostAddrs) -> (st: ClusterStatus)
        requires
            old(self).wf(),
        ensures
            final(self).keeps_identity(old(self)),
            final(self).wf(),
            final(self).same_but_members(old(self)),
            st.members@.len() == final(self).mem().len(),
            forall|i: int|
                0 <= i < st.members@.len() ==> (#[trigger] st.members@[i]).id == final(self).mem()[i].record.id && st.members@[i].online == spec_member_is_online(
                    final(self).mem()[i],
                    final(self).self_id,
                    now,
                    final(self).offline_after_ms,
                ),
            st.quorum == (final(self).mem().len() > 0 && 2 * final(self).spec_online_ids(now).len()
                > final(self).mem().len()),
            st.leader_id == min_id(final(self).spec_online_ids(now)),
            final(self).mem() == with_self_addrs(
                old(self).mem(),
                old(self).self_id,
                addrs.ipv4@,
                addrs.ipv6@,
            ),
            final(self).spec_online_ids(now) == old(self).spec_online_ids(now),
            forall|i: int|
                0 <= i < st.members@.len() ==> ({
                    let rec = final(self).mem()[i].record;
                    &&& (#[trigger] st.members@[i]).name@ == rec.name
                    &&& st.members@[i].peer_url@ == rec.peer_url
                    &&& st.members@[i].cpus == rec.cpus
                    &&& st.members@[i].memory_mib == rec.memory_mib
                    &&& st.members@[i].ipv4@ == rec.ipv4
                    &&& st.members@[i].ipv6@ == rec.ipv6
                    &&& (st.members@[i].used_vcpus, st.members@[i].used_memory_mib) == used_by(
                        loads@,
                        rec.id,
                    )
                }),
            st.fenced == (old(self).fenced || !st.quorum),
            st.self_id == old(self).self_id,
            st.generation == old(self).generation,
            st.name@ == old(self).name@,
    {
        let ghost a4 = addrs.ipv4@;
        let ghost a6 = addrs.ipv6@;
        self.refresh_self_addrs(addrs);
        proof {
            lemma_self_addrs_liveness(old(self).mem(), self.self_id, a4, a6);
            lemma_online_same_liveness(
                old(self).mem(),
                self.mem(),
                self.self_id,
                now,
                self.offline_after_ms,
            );
        }
        let mut members: Vec<ClusterMemberStatus> = Vec::new();
        let mut i: usize = 0;
        while i < self.members.len()
            invariant
                i <= self.members.len(),
                members@.len() == i,
                forall|k: int|
                    0 <= k < i ==> (#[trigger] members@[k]).id == self.mem()[k].record.id
                        && members@[k].online == spec_member_is_online(
                        self.mem()[k],
                        self.self_id,
                        now,
                        self.offline_after_ms,
                    ),
                forall|k: int|
                    0 <= k < i ==> {
                        let rec = self.mem()[k].record;
                        &&& (#[trigger] members@[k]).name@ == rec.name
                        &&& members@[k].peer_url@ == rec.peer_url
                        &&& members@[k].cpus == rec.cpus
                        &&& members@[k].memory_mib == rec.memory_mib
                        &&& members@[k].ipv4@ == rec.ipv4
                        &&& members@[k].ipv6@ == rec.ipv6
                        &&& (members@[k].used_vcpus, members@[k].used_memory_mib) == used_by(
                            loads@,
                            rec.id,
                        )
                    },
            decreases self.members.len() - i,
        {
            let m = &self.members[i];
            let online = member_is_online(m, self.self_id, now, self.offline_after_ms);
            let mut used_vcpus: u32 = 0;
            let mut used_memory_mib: u32 = 0;
            let mut q: usize = 0;
            while q < loads.len()
                invariant_except_break
                    q <= loads.len(),
                    used_vcpus == 0 && used_memory_mib == 0,
                    first_load_from(loads@, m.record.id, 0) == first_load_from(
                        loads@,
                        m.record.id,
                        q as int,
                    ),
                ensures
                    (used_vcpus, used_memory_mib) == used_by(loads@, m.record.id),
                decreases loads.len() - q,
            {
                if loads[q].id == m.record.id {
                    used_vcpus = loads[q].used_vcpus;
                    used_memory_mib = loads[q].used_memory_mib;
                    break;
                }
                q += 1;
            }
            members.push(
                ClusterMemberStatus {
                    id: m.record.id,
                    name: m.record.name.clone(),
                    peer_url: m.record.peer_url.clone(),
                    online,
                    cpus: m.record.cpus,
                    memory_mib: m.record.memory_mib,
                    used_vcpus,
                    used_memory_mib,
                    ipv4: clone_strings(&m.record.ipv4),
                    ipv6: clone_strings(&m.record.ipv6),
                },
            );
            i += 1;
        }
        let quorum = self.has_quorum(now);
        let leader_id = self.leader_id(now);
        ClusterStatus {
            name: self.name.clone(),
            generation: self.generation,
            self_id: self.self_id,
            leader_id,
            quorum,
            fenced: self.fenced || !quorum,
            members,
        }
    }
}

proof fn lemma_peers_not_self(s: Seq<MemberView>, self_id: NodeId)
    ensures
        forall|k: int| 0 <= k < peers_of(s, self_id).len() ==> (#[trigger] peers_of(s, self_id)[k]).0 != self_id,
    decreases s.len(),
{
    if s.len() > 0 {
        lemma_peers_not_self(s.drop_last(), self_id);
        let r = peers_of(s.drop_last(), self_id);
        assert forall|k: int| 0 <= k < peers_of(s, self_id).len() implies (#[trigger] peers_of(
            s,
            self_id,
        )[k]).0 != self_id by {
            if k < r.len() {
                assert(peers_of(s, self_id)[k] == r[k]);
            }
        }
    }
}

/// At most one online id per member.
pub proof fn lemma_online_len(s: Seq<MemberView>, self_id: NodeId, now: u64, timeout: u64)
    ensures
        online_of(s, self_id, now, timeout).len() <= s.len(),
    decreases s.len(),
{
    if s.len() > 0 {
        lemma_online_len(s.drop_last(), self_id, now, timeout);
    }
}

/// Self is always online: when self is a member, its record id is among the online ids.
pub proof fn lemma_self_online(s: Seq<MemberView>, self_id: NodeId, now: u64, timeout: u64, k: int)
    requires
        0 <= k < s.len(),
        s[k].record.id == self_id,
    ensures
        online_of(s, self_id, now, timeout).contains(self_id),
    decreases s.len(),
{
    let d = s.drop_last();
    if k == s.len() - 1 {
        assert(online_of(s, self_id, now, timeout) == online_of(d, self_id, now, timeout).push(
            self_id,
        ));
        assert(online_of(s, self_id, now, timeout).last() == self_id);
    } else {
        assert(d[k] == s[k]);
        lemma_self_online(d, self_id, now, timeout, k);
        let o = online_of(d, self_id, now, timeout);
        let w = choose|w: int| 0 <= w < o.len() && o[w] == self_id;
        if spec_member_is_online(s.last(), self_id, now, timeout) {
            assert(o.push(s.last().record.id)[w] == self_id);
        }
    }
}

/// Is `id` in `ids`?
fn node_in(ids: &Vec<NodeId>, id: NodeId) -> (r: bool)
    ensures
        r == ids@.contains(id),
{
    crate::placement::node_id_in(ids.as_slice(), id)
}

/// Whether a snapshot names node `x`.
pub open spec fn snap_has(recs: Seq<NodeRecordView>, x: NodeId) -> bool {
    exists|j: int| 0 <= j < recs.len() && (#[trigger] recs[j]).id == x
}

proof fn lemma_snap_has_cons(recs: Seq<NodeRecordView>, x: NodeId)
    requires
        recs.len() > 0,
    ensures
        snap_has(recs, x) <==> (recs[0].id == x || snap_has(recs.drop_first(), x)),
{
    if snap_has(recs, x) && recs[0].id != x {
        let j = choose|j: int| 0 <= j < recs.len() && (#[trigger] recs[j]).id == x;
        assert(recs.drop_first()[j - 1] == recs[j]);
    }
    if snap_has(recs.drop_first(), x) {
        let j = choose|j: int| 0 <= j < recs.drop_first().len() && (#[trigger] recs.drop_first()[j]).id == x;
        assert(recs[j + 1] == recs.drop_first()[j]);
    }
    if recs[0].id == x {
        assert(recs[0].id == x);
    }
}

proof fn lemma_merge_lookup(
    acc: Seq<MemberView>,
    recs: Seq<NodeRecordView>,
    old: Seq<MemberView>,
    self_id: NodeId,
    now: u64,
)
    requires
        sorted_ids(acc),
    ensures
        sorted_ids(merge_snapshot(acc, recs, old, self_id, now)),
        forall|x: NodeId|
            #[trigger] lookup(merge_snapshot(acc, recs, old, self_id, now), x) is Some <==> (lookup(
                acc,
                x,
            ) is Some || snap_has(recs, x)),
        forall|x: NodeId|
            !snap_has(recs, x) ==> #[trigger] lookup(merge_snapshot(acc, recs, old, self_id, now), x)
                == lookup(acc, x),
    decreases recs.len(),
{
    if recs.len() > 0 {
        let r = recs[0];
        let seen = if r.id == self_id {
            now
        } else {
            match lookup(old, r.id) {
                Some(m) => m.last_seen_ms,
                None => 0,
            }
        };
        let m = MemberView { id: r.id, record: r, last_seen_ms: seen };
        let acc2 = upsert(acc, m);
        lemma_upsert(acc, m);
        lemma_merge_lookup(acc2, recs.drop_first(), old, self_id, now);
        assert forall|x: NodeId| #[trigger] lookup(merge_snapshot(acc, recs, old, self_id, now), x) is Some <==> (
        lookup(acc, x) is Some || snap_has(recs, x)) by {
            lemma_snap_has_cons(recs, x);
        }
        assert forall|x: NodeId| !snap_has(recs, x) implies #[trigger] lookup(
            merge_snapshot(acc, recs, old, self_id, now),
            x,
        ) == lookup(acc, x) by {
            lemma_snap_has_cons(recs, x);
        }
    } else {
        assert forall|x: NodeId| !snap_has(recs, x) by {}
    }
}

/// Whether a member list has node `x`.
pub open spec fn has_member(s: Seq<MemberView>, x: NodeId) -> bool {
    lookup(s, x) is Some
}

proof fn lemma_keep_absent_lookup(acc: Seq<MemberView>, old: Seq<MemberView>)
    requires
        sorted_ids(acc),
        sorted_ids(old),
    ensures
        sorted_ids(keep_absent(acc, old)),
        forall|x: NodeId|
            #[trigger] lookup(keep_absent(acc, old), x) == if lookup(acc, x) is Some {
                lookup(acc, x)
            } else {
                lookup(old, x)
            },
    decreases old.len(),
{
    if old.len() > 0 {
        let o = old[0];
        let rest = old.drop_first();
        assert(sorted_ids(rest)) by {
            assert forall|i: int, j: int| 0 <= i < j < rest.len() implies (#[trigger] rest[i]).id.0 < (
            #[trigger] rest[j]).id.0 by {
                assert(rest[i] == old[i + 1]);
                assert(rest[j] == old[j + 1]);
            }
        }
        assert(lookup(old, o.id) == Some(o)) by {
            assert(index_from(old, o.id, 0) == 0);
        }
        assert forall|x: NodeId| x != o.id implies lookup(old, x) == lookup(rest, x) by {
            lemma_lookup_cons(old, x);
        }
        assert(lookup(rest, o.id) is None) by {
            lemma_index_from(rest, o.id, 0);
            if index_of(rest, o.id) >= 0 {
                let k = index_of(rest, o.id);
                assert(rest[k] == old[k + 1]);
                assert(old[0].id.0 < old[k + 1].id.0);
            }
        }
        if lookup(acc, o.id) is Some {
            lemma_keep_absent_lookup(acc, rest);
        } else {
            lemma_upsert(acc, o);
            lemma_keep_absent_lookup(upsert(acc, o), rest);
        }
    }
}

/// Membership law of adopting a newer snapshot: its members and every member known
/// before are exactly the members after, and a member the snapshot does not name is
/// kept as it was.
pub proof fn lemma_membership_merge(
    recs: Seq<NodeRecordView>,
    old: Seq<MemberView>,
    self_id: NodeId,
    now: u64,
)
    requires
        sorted_ids(old),
    ensures
        sorted_ids(keep_absent(merge_snapshot(seq![], recs, old, self_id, now), old)),
        forall|x: NodeId|
            #[trigger] has_member(keep_absent(merge_snapshot(seq![], recs, old, self_id, now), old), x)
                <==> (snap_has(recs, x) || has_member(old, x)),
        forall|x: NodeId|
            !snap_has(recs, x) ==> #[trigger] lookup(
                keep_absent(merge_snapshot(seq![], recs, old, self_id, now), old),
                x,
            ) == lookup(old, x),
{
    let e = Seq::<MemberView>::empty();
    assert(sorted_ids(e));
    assert forall|x: NodeId| lookup(e, x) is None by {
        lemma_index_from(e, x, 0);
    }
    lemma_merge_lookup(e, recs, old, self_id, now);
    let m = merge_snapshot(e, recs, old, self_id, now);
    lemma_keep_absent_lookup(m, old);
}


/// Over any sequence of calls on a cluster, the node keeps its id and the membership
/// generation never goes down: every call that changes the cluster keeps both (each
/// states `keeps_identity` of its result), and keeping them carries over from call to
/// call.
pub proof fn lemma_identity_over_calls(a: Cluster, b: Cluster, c: Cluster)
    requires
        b.keeps_identity(&a),
        c.keeps_identity(&b),
    ensures
        c.keeps_identity(&a),
        c.self_id == a.self_id,
        c.generation >= a.generation,
{
}

/// Along any history of a cluster (each state the result of a call on the one before,
/// every such call keeping the identity), any later state has the node's id of any
/// earlier one and a generation no lower.
pub proof fn lemma_identity_over_history(states: Seq<Cluster>)
    requires
        forall|k: int| 0 < k < states.len() ==> (#[trigger] states[k]).keeps_identity(&states[k - 1]),
    ensures
        forall|i: int, j: int|
            0 <= i <= j < states.len() ==> (#[trigger] states[j]).self_id == (#[trigger] states[i]).self_id
                && states[j].generation >= states[i].generation,
    decreases states.len(),
{
    if states.len() > 0 {
        let d = states.drop_last();
        assert forall|k: int| 0 < k < d.len() implies (#[trigger] d[k]).keeps_identity(&d[k - 1]) by {
            assert(d[k] == states[k] && d[k - 1] == states[k - 1]);
        }
        lemma_identity_over_history(d);
        let n = states.len() - 1;
        assert forall|i: int, j: int| 0 <= i <= j < states.len() implies (#[trigger] states[j]).self_id
            == (#[trigger] states[i]).self_id && states[j].generation >= states[i].generation by {
            if j < n {
                assert(d[i] == states[i] && d[j] == states[j]);
            } else if i < n {
                assert(d[i] == states[i] && d[n - 1] == states[n - 1]);
                assert(states[n].keeps_identity(&states[n - 1]));
            }
        }
    }
}

/// A sorted member list in which only `id` is found is that one member.
proof fn lemma_single_member(s: Seq<MemberView>, id: NodeId)
    requires
        sorted_ids(s),
        lookup(s, id) is Some,
        forall|x: NodeId| x != id ==> #[trigger] lookup(s, x) is None,
    ensures
        s.len() == 1,
        s[0] == lookup(s, id)->0,
{
    lemma_index_from(s, id, 0);
    assert forall|i: int| 0 <= i < s.len() implies (#[trigger] s[i]).id == id by {
        lemma_index_of_member(s, i);
    }
    if s.len() > 1 {
        assert(s[0].id.0 < s[1].id.0);
    }
}

/// The leader is the smallest online id. When this node is a member, there is a leader,
/// its id is not above this node's, and this node leads exactly when no online node has
/// a smaller id.
pub proof fn lemma_leader_is_smallest_online(c: Cluster, now: u64)
    requires
        exists|k: int| 0 <= k < c.mem().len() && (#[trigger] c.mem()[k]).record.id == c.self_id,
    ensures
        min_id(c.spec_online_ids(now)) is Some,
        (min_id(c.spec_online_ids(now))->0).0 <= c.self_id.0,
        (min_id(c.spec_online_ids(now)) == Some(c.self_id)) == (forall|k: int|
            0 <= k < c.spec_online_ids(now).len() ==> c.self_id.0 <= (
            #[trigger] c.spec_online_ids(now)[k]).0),
{
    let ids = c.spec_online_ids(now);
    let k = choose|k: int| 0 <= k < c.mem().len() && (#[trigger] c.mem()[k]).record.id == c.self_id;
    lemma_self_online(c.mem(), c.self_id, now, c.offline_after_ms, k);
    lemma_min_id(ids);
    let w = choose|w: int| 0 <= w < ids.len() && ids[w] == c.self_id;
    let m = min_id(ids)->0;
    assert(m.0 <= ids[w].0);
    if forall|q: int| 0 <= q < ids.len() ==> c.self_id.0 <= (#[trigger] ids[q]).0 {
        let v = choose|v: int| 0 <= v < ids.len() && ids[v] == m;
        assert(c.self_id.0 <= ids[v].0);
        assert(m == c.self_id);
    }
}

/// What a cluster of one persists holds only this node's record, so reopening it
/// (`open_state`) gives a cluster of one again, under the same id and generation.
pub proof fn lemma_persisted_solo(c: Cluster, p: PersistedCluster)
    requires
        c.mem().len() == 1,
        c.mem()[0].record.id == c.self_id,
        p.self_id == c.self_id,
        rviews(p.members@) == Seq::new(c.mem().len(), |i: int| c.mem()[i].record),
    ensures
        p.members@.len() == 1,
        p.members@[0].id == p.self_id,
{
    assert(rviews(p.members@).len() == 1);
    assert(rviews(p.members@)[0] == p.members@[0]@);
}

/// A cluster whose only member is this node (a fresh one, or one reopened from a state
/// that held only this node) has this node online and as its leader, at any time.
pub proof fn lemma_solo_is_leader(c: Cluster, now: u64)
    requires
        c.mem().len() == 1,
        c.mem()[0].record.id == c.self_id,
    ensures
        c.spec_online_ids(now) == seq![c.self_id],
        min_id(c.spec_online_ids(now)) == Some(c.self_id),
{
    let s = c.mem();
    assert(s.drop_last().len() == 0);
    assert(online_of(s.drop_last(), c.self_id, now, c.offline_after_ms) == Seq::<NodeId>::empty());
    assert(c.spec_online_ids(now) =~= seq![c.self_id]);
    let ids = seq![c.self_id];
    assert(ids.drop_last().len() == 0);
    assert(min_id(ids.drop_last()) is None);
}


/// Every member's record carries the member's key.
pub open spec fn keys_match(s: Seq<MemberView>) -> bool {
    forall|i: int| 0 <= i < s.len() ==> (#[trigger] s[i]).record.id == s[i].id
}

/// Some member with key `id` is online.
pub open spec fn online_member(s: Seq<MemberView>, id: NodeId, self_id: NodeId, now: u64, t: u64) -> bool {
    exists|i: int| 0 <= i < s.len() && (#[trigger] s[i]).id == id && spec_member_is_online(s[i], self_id, now, t)
}

/// Strictly ascending ids.
pub open spec fn ascending(ids: Seq<NodeId>) -> bool {
    forall|i: int, j: int| 0 <= i < j < ids.len() ==> (#[trigger] ids[i]).0 < (#[trigger] ids[j]).0
}

proof fn lemma_sorted_prefix(s: Seq<MemberView>)
    requires
        sorted_ids(s),
        keys_match(s),
        s.len() > 0,
    ensures
        sorted_ids(s.drop_last()),
        keys_match(s.drop_last()),
{
    let d = s.drop_last();
    assert forall|i: int, j: int| 0 <= i < j < d.len() implies (#[trigger] d[i]).id.0 < (
    #[trigger] d[j]).id.0 by {
        assert(d[i] == s[i] && d[j] == s[j]);
    }
    assert forall|i: int| 0 <= i < d.len() implies (#[trigger] d[i]).record.id == d[i].id by {
        assert(d[i] == s[i]);
    }
}

proof fn lemma_online_shape(s: Seq<MemberView>, self_id: NodeId, now: u64, t: u64)
    requires
        sorted_ids(s),
        keys_match(s),
    ensures
        forall|k: int|
            0 <= k < online_of(s, self_id, now, t).len() ==> online_member(
                s,
                #[trigger] online_of(s, self_id, now, t)[k],
                self_id,
                now,
                t,
            ),
        forall|i: int|
            0 <= i < s.len() && spec_member_is_online(#[trigger] s[i], self_id, now, t)
                ==> online_of(s, self_id, now, t).contains(s[i].id),
        ascending(online_of(s, self_id, now, t)),
    decreases s.len(),
{
    if s.len() > 0 {
        let d = s.drop_last();
        lemma_sorted_prefix(s);
        lemma_online_shape(d, self_id, now, t);
        let rest = online_of(d, self_id, now, t);
        let o = online_of(s, self_id, now, t);
        let n = s.len() - 1;
        assert(s.last() == s[n]);
        assert(o == (if spec_member_is_online(s.last(), self_id, now, t) {
            rest.push(s.last().record.id)
        } else {
            rest
        }));
        assert forall|k: int| 0 <= k < o.len() implies online_member(s, #[trigger] o[k], self_id, now, t) by {
            if k < rest.len() {
                assert(o[k] == rest[k]);
                assert(online_member(d, rest[k], self_id, now, t));
                let i = choose|i: int|
                    0 <= i < d.len() && (#[trigger] d[i]).id == rest[k] && spec_member_is_online(
                        d[i],
                        self_id,
                        now,
                        t,
                    );
                assert(s[i] == d[i]);
                assert(0 <= i < s.len() && s[i].id == o[k] && spec_member_is_online(s[i], self_id, now, t));
            } else {
                assert(spec_member_is_online(s.last(), self_id, now, t));
                assert(s[n].id == o[k]);
                assert(0 <= n < s.len() && s[n].id == o[k] && spec_member_is_online(s[n], self_id, now, t));
            }
        }
        assert forall|i: int|
            0 <= i < s.len() && spec_member_is_online(#[trigger] s[i], self_id, now, t) implies o.contains(
            s[i].id,
        ) by {
            if i < n {
                assert(s[i] == d[i]);
                assert(rest.contains(d[i].id));
                let k = choose|k: int| 0 <= k < rest.len() && rest[k] == d[i].id;
                assert(o[k] == rest[k]);
            } else {
                assert(o[o.len() - 1] == s[n].record.id);
            }
        }
        assert forall|a: int, b: int| 0 <= a < b < o.len() implies (#[trigger] o[a]).0 < (
        #[trigger] o[b]).0 by {
            if b < rest.len() {
                assert(o[a] == rest[a] && o[b] == rest[b]);
            } else {
                assert(o[a] == rest[a]);
                assert(online_member(d, rest[a], self_id, now, t));
                let i = choose|i: int|
                    0 <= i < d.len() && (#[trigger] d[i]).id == rest[a] && spec_member_is_online(
                        d[i],
                        self_id,
                        now,
                        t,
                    );
                assert(s[i] == d[i]);
                assert(o[b] == s[n].record.id);
            }
        }
    }
}

/// The online ids of a cluster whose members carry their keys: strictly ascending, each
/// a member that is online (this node always is; another within the timeout of when it
/// was last seen), and every such member listed.
pub proof fn lemma_online_ids_shape(c: Cluster, now: u64)
    requires
        c.wf(),
        keys_match(c.mem()),
    ensures
        ascending(c.spec_online_ids(now)),
        forall|k: int|
            0 <= k < c.spec_online_ids(now).len() ==> online_member(
                c.mem(),
                #[trigger] c.spec_online_ids(now)[k],
                c.self_id,
                now,
                c.offline_after_ms,
            ),
        forall|i: int|
            0 <= i < c.mem().len() ==> (c.spec_online_ids(now).contains((#[trigger] c.mem()[i]).id)
                <==> (c.mem()[i].id == c.self_id || (if now < c.mem()[i].last_seen_ms {
                0
            } else {
                now - c.mem()[i].last_seen_ms
            }) <= c.offline_after_ms)),
{
    lemma_online_shape(c.mem(), c.self_id, now, c.offline_after_ms);
    let s = c.mem();
    let o = c.spec_online_ids(now);
    assert(o == online_of(s, c.self_id, now, c.offline_after_ms));
    assert forall|k: int| 0 <= k < o.len() implies online_member(
        s,
        #[trigger] o[k],
        c.self_id,
        now,
        c.offline_after_ms,
    ) by {
        assert(online_of(s, c.self_id, now, c.offline_after_ms)[k] == o[k]);
    }
    assert forall|i: int| 0 <= i < s.len() implies (o.contains((#[trigger] s[i]).id) <==> (s[i].id
        == c.self_id || (if now < s[i].last_seen_ms {
        0
    } else {
        now - s[i].last_seen_ms
    }) <= c.offline_after_ms)) by {
        if o.contains(s[i].id) {
            let k = choose|k: int| 0 <= k < o.len() && o[k] == s[i].id;
            assert(online_member(s, o[k], c.self_id, now, c.offline_after_ms));
            let j = choose|j: int|
                0 <= j < s.len() && (#[trigger] s[j]).id == o[k] && spec_member_is_online(
                    s[j],
                    c.self_id,
                    now,
                    c.offline_after_ms,
                );
            if j != i {
                if j < i {
                    assert(s[j].id.0 < s[i].id.0);
                } else {
                    assert(s[i].id.0 < s[j].id.0);
                }
            }
        }
    }
}


/// Some member has key `id`.
pub open spec fn has_id(s: Seq<MemberView>, id: NodeId) -> bool {
    exists|i: int| 0 <= i < s.len() && (#[trigger] s[i]).id == id
}

proof fn lemma_index_of_member(s: Seq<MemberView>, i: int)
    requires
        sorted_ids(s),
        0 <= i < s.len(),
    ensures
        index_of(s, s[i].id) == i,
        lookup(s, s[i].id) == Some(s[i]),
{
    lemma_index_from(s, s[i].id, 0);
    let x = index_of(s, s[i].id);
    if x == -1 {
        assert(s[i].id != s[i].id);
    } else if x < i {
        assert(s[x].id.0 < s[i].id.0);
    } else if x > i {
        assert(s[i].id != s[i].id);
    }
}

proof fn lemma_peers_shape(s: Seq<MemberView>, self_id: NodeId)
    requires
        sorted_ids(s),
        keys_match(s),
    ensures
        peers_of(s, self_id).len() == s.len() - (if has_id(s, self_id) {
            1int
        } else {
            0int
        }),
        forall|k: int|
            0 <= k < peers_of(s, self_id).len() ==> exists|i: int|
                0 <= i < s.len() && (#[trigger] s[i]).id == (#[trigger] peers_of(s, self_id)[k]).0
                    && s[i].record.peer_url == peers_of(s, self_id)[k].1 && s[i].id != self_id,
        forall|a: int, b: int|
            0 <= a < b < peers_of(s, self_id).len() ==> (#[trigger] peers_of(s, self_id)[a]).0.0 < (
            #[trigger] peers_of(s, self_id)[b]).0.0,
    decreases s.len(),
{
    if s.len() > 0 {
        let d = s.drop_last();
        let n = s.len() - 1;
        lemma_sorted_prefix(s);
        lemma_peers_shape(d, self_id);
        let rest = peers_of(d, self_id);
        let p = peers_of(s, self_id);
        assert(s.last() == s[n]);
        assert(forall|i: int| 0 <= i < n ==> d[i] == s[i]);
        assert(p == (if s.last().record.id != self_id {
            rest.push((s.last().record.id, s.last().record.peer_url))
        } else {
            rest
        }));
        if s[n].id == self_id {
            assert(has_id(s, self_id));
            if has_id(d, self_id) {
                let j = choose|j: int| 0 <= j < d.len() && (#[trigger] d[j]).id == self_id;
                assert(s[j].id.0 < s[n].id.0);
            }
        } else {
            if has_id(s, self_id) {
                let j = choose|j: int| 0 <= j < s.len() && (#[trigger] s[j]).id == self_id;
                assert(j < n);
                assert(d[j].id == self_id);
            }
            if has_id(d, self_id) {
                let j = choose|j: int| 0 <= j < d.len() && (#[trigger] d[j]).id == self_id;
                assert(s[j].id == self_id);
            }
        }
        assert forall|k: int| 0 <= k < p.len() implies exists|i: int|
            0 <= i < s.len() && (#[trigger] s[i]).id == (#[trigger] p[k]).0 && s[i].record.peer_url
                == p[k].1 && s[i].id != self_id by {
            if k < rest.len() {
                assert(p[k] == rest[k]);
                let i = choose|i: int|
                    0 <= i < d.len() && (#[trigger] d[i]).id == (#[trigger] rest[k]).0
                        && d[i].record.peer_url == rest[k].1 && d[i].id != self_id;
                assert(s[i] == d[i]);
            } else {
                assert(s[n].id == p[k].0);
            }
        }
        assert forall|a: int, b: int| 0 <= a < b < p.len() implies (#[trigger] p[a]).0.0 < (
        #[trigger] p[b]).0.0 by {
            if b < rest.len() {
                assert(p[a] == rest[a] && p[b] == rest[b]);
            } else {
                assert(p[a] == rest[a]);
                let i = choose|i: int|
                    0 <= i < d.len() && (#[trigger] d[i]).id == (#[trigger] rest[a]).0
                        && d[i].record.peer_url == rest[a].1 && d[i].id != self_id;
                assert(s[i] == d[i]);
            }
        }
    }
}

/// The peers of a cluster whose members carry their keys: ids strictly ascending, one per
/// member but this node, and each with the URL `member_url` gives for it.
pub proof fn lemma_peer_urls_shape(c: Cluster)
    requires
        c.wf(),
        keys_match(c.mem()),
    ensures
        peers_of(c.mem(), c.self_id).len() == c.mem().len() - (if has_id(c.mem(), c.self_id) {
            1int
        } else {
            0int
        }),
        forall|a: int, b: int|
            0 <= a < b < peers_of(c.mem(), c.self_id).len() ==> (#[trigger] peers_of(
                c.mem(),
                c.self_id,
            )[a]).0.0 < (#[trigger] peers_of(c.mem(), c.self_id)[b]).0.0,
        forall|k: int|
            0 <= k < peers_of(c.mem(), c.self_id).len() ==> {
                let (id, url) = #[trigger] peers_of(c.mem(), c.self_id)[k];
                &&& id != c.self_id
                &&& lookup(c.mem(), id) matches Some(m) && m.record.peer_url == url
            },
{
    let s = c.mem();
    let p = peers_of(s, c.self_id);
    lemma_peers_shape(s, c.self_id);
    assert forall|k: int| 0 <= k < p.len() implies {
        let (id, url) = #[trigger] p[k];
        &&& id != c.self_id
        &&& lookup(s, id) matches Some(m) && m.record.peer_url == url
    } by {
        let i = choose|i: int|
            0 <= i < s.len() && (#[trigger] s[i]).id == (#[trigger] p[k]).0 && s[i].record.peer_url
                == p[k].1 && s[i].id != c.self_id;
        lemma_index_of_member(s, i);
    }
}


/// A member as a snapshot from this node merges it back: this node seen now, others as
/// they were last seen.
pub open spec fn reseen(m: MemberView, self_id: NodeId, now: u64) -> MemberView {
    MemberView { last_seen_ms: if m.id == self_id { now } else { m.last_seen_ms }, ..m }
}

proof fn lemma_upsert_last(acc: Seq<MemberView>, m: MemberView)
    requires
        forall|i: int| 0 <= i < acc.len() ==> (#[trigger] acc[i]).id.0 < m.id.0,
    ensures
        upsert(acc, m) == acc.push(m),
    decreases acc.len(),
{
    if acc.len() > 0 {
        let t = acc.drop_first();
        assert forall|i: int| 0 <= i < t.len() implies (#[trigger] t[i]).id.0 < m.id.0 by {
            assert(t[i] == acc[i + 1]);
        }
        lemma_upsert_last(t, m);
        assert(acc[0].id != m.id);
        assert(seq![acc[0]] + t.push(m) =~= acc.push(m));
    } else {
        assert(seq![m] =~= acc.push(m));
    }
}

proof fn lemma_merge_own(s: Seq<MemberView>, self_id: NodeId, now: u64, k: int)
    requires
        sorted_ids(s),
        keys_match(s),
        0 <= k <= s.len(),
    ensures
        merge_snapshot(
            Seq::new(k as nat, |i: int| reseen(s[i], self_id, now)),
            Seq::new(s.len(), |i: int| s[i].record).skip(k),
            s,
            self_id,
            now,
        ) == Seq::new(s.len(), |i: int| reseen(s[i], self_id, now)),
    decreases s.len() - k,
{
    let recs = Seq::new(s.len(), |i: int| s[i].record);
    let acc = Seq::new(k as nat, |i: int| reseen(s[i], self_id, now));
    if k == s.len() {
        assert(recs.skip(k).len() == 0);
        assert(acc =~= Seq::new(s.len(), |i: int| reseen(s[i], self_id, now)));
    } else {
        let rest = recs.skip(k);
        let r = rest[0];
        assert(r == s[k].record);
        lemma_index_of_member(s, k);
        let mv = MemberView {
            id: r.id,
            record: r,
            last_seen_ms: if r.id == self_id {
                now
            } else {
                match lookup(s, r.id) {
                    Some(m) => m.last_seen_ms,
                    None => 0,
                }
            },
        };
        assert(mv == reseen(s[k], self_id, now));
        assert forall|i: int| 0 <= i < acc.len() implies (#[trigger] acc[i]).id.0 < mv.id.0 by {
            assert(acc[i].id == s[i].id);
        }
        lemma_upsert_last(acc, mv);
        assert(acc.push(mv) =~= Seq::new((k + 1) as nat, |i: int| reseen(s[i], self_id, now)));
        assert(rest.drop_first() =~= recs.skip(k + 1));
        lemma_merge_own(s, self_id, now, k + 1);
    }
}

proof fn lemma_keep_present(acc: Seq<MemberView>, old: Seq<MemberView>)
    requires
        forall|j: int| 0 <= j < old.len() ==> lookup(acc, (#[trigger] old[j]).id) is Some,
    ensures
        keep_absent(acc, old) == acc,
    decreases old.len(),
{
    if old.len() > 0 {
        let t = old.drop_first();
        assert(lookup(acc, old[0].id) is Some);
        assert forall|j: int| 0 <= j < t.len() implies lookup(acc, (#[trigger] t[j]).id) is Some by {
            assert(t[j] == old[j + 1]);
        }
        lemma_keep_present(acc, t);
    }
}

/// Re-applying this node's own membership snapshot changes nothing but when this node
/// was last seen: for members that carry their keys, merging the snapshot of their
/// records gives the same members, with the same records, in the same order.
pub proof fn lemma_reapply_own_snapshot(s: Seq<MemberView>, self_id: NodeId, now: u64)
    requires
        sorted_ids(s),
        keys_match(s),
    ensures
        keep_absent(
            merge_snapshot(seq![], Seq::new(s.len(), |i: int| s[i].record), s, self_id, now),
            s,
        ) == Seq::new(s.len(), |i: int| reseen(s[i], self_id, now)),
{
    let e = Seq::new(s.len(), |i: int| reseen(s[i], self_id, now));
    lemma_merge_own(s, self_id, now, 0);
    assert(Seq::new(0, |i: int| reseen(s[i], self_id, now)) =~= Seq::<MemberView>::empty());
    assert(Seq::new(s.len(), |i: int| s[i].record).skip(0) =~= Seq::new(s.len(), |i: int| s[i].record));
    assert(sorted_ids(e)) by {
        assert forall|i: int, j: int| 0 <= i < j < e.len() implies (#[trigger] e[i]).id.0 < (
        #[trigger] e[j]).id.0 by {
            assert(e[i].id == s[i].id && e[j].id == s[j].id);
        }
    }
    assert forall|j: int| 0 <= j < s.len() implies lookup(e, (#[trigger] s[j]).id) is Some by {
        lemma_index_of_member(e, j);
        assert(e[j].id == s[j].id);
    }
    lemma_keep_present(e, s);
}


/// This node's record as its configuration gives it, before any address is known: the
/// configured name (else `node`), the configured CPU count (else the host's, else 4) and
/// memory (else the host's, else 16 GiB), and its advertised peer URL.
pub fn configured_self_record(
    id: NodeId,
    peer_url: String,
    node_name: Option<&str>,
    cpus: Option<u32>,
    memory_mib: Option<u32>,
    host_cpus: Option<u32>,
    host_memory_mib: Option<u32>,
) -> (r: NodeRecord)
    ensures
        r@ == (NodeRecordView {
            id,
            name: match node_name {
                Some(n) => n@,
                None => "node"@,
            },
            peer_url: peer_url@,
            cpus: match cpus {
                Some(c) => c,
                None => match host_cpus {
                    Some(h) => h,
                    None => 4,
                },
            },
            memory_mib: match memory_mib {
                Some(m) => m,
                None => match host_memory_mib {
                    Some(h) => h,
                    None => 16384,
                },
            },
            ipv4: Seq::<String>::empty(),
            ipv6: Seq::<String>::empty(),
        }),
{
    let name = match node_name {
        Some(n) => string_of(chars_of(n).as_slice()),
        None => string_of(chars_of("node").as_slice()),
    };
    let c = match cpus {
        Some(c) => c,
        None => match host_cpus {
            Some(h) => h,
            None => 4,
        },
    };
    let m = match memory_mib {
        Some(m) => m,
        None => match host_memory_mib {
            Some(h) => h,
            None => 16384,
        },
    };
    let r = NodeRecord { id, name, peer_url, cpus: c, memory_mib: m, ipv4: Vec::new(), ipv6: Vec::new() };
    assert(r.ipv4@ =~= Seq::<String>::empty());
    r
}

}
