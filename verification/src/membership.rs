//! SWIM-style membership: one record per known node with a liveness state,
//! an incarnation counter, and failure-detector bookkeeping. Conflicting
//! gossip about the same node resolves by higher incarnation first, then by
//! the more severe state; a node refutes a suspicion about itself by
//! re-announcing itself alive at a strictly higher incarnation.

use vstd::prelude::*;
use crate::keys::{bytes_equal, copy_bytes};

verus! {

/// Liveness state of one node. `Dead` and `Left` are terminal; a suspect
/// node returns to `Alive` only through its own refutation.
#[derive(Clone, Copy, PartialEq, Eq, Structural, Debug)]
pub enum NodeState {
    Alive,
    Suspect,
    Dead,
    Left,
}

/// Rank used to resolve conflicting claims at equal incarnation: the more
/// severe claim is trusted. An explicit departure outranks a suspicion but
/// not a confirmed failure.
pub open spec fn severity(s: NodeState) -> int {
    match s {
        NodeState::Alive => 0,
        NodeState::Suspect => 1,
        NodeState::Left => 2,
        NodeState::Dead => 3,
    }
}

fn severity_rank(s: NodeState) -> (r: u8)
    ensures
        r as int == severity(s),
{
    match s {
        NodeState::Alive => 0,
        NodeState::Suspect => 1,
        NodeState::Left => 2,
        NodeState::Dead => 3,
    }
}

/// Mathematical image of one membership record.
#[verifier::ext_equal]
pub ghost struct NodeModel {
    pub id: Seq<u8>,
    pub address: Seq<u8>,
    pub state: NodeState,
    pub incarnation: u64,
    pub last_change_at: u64,
    pub missed_probes: u64,
}

/// One known node: identifier, network address, liveness state, incarnation,
/// time of the last state change, and how many probe rounds in a row have
/// gone unanswered.
pub struct NodeRecord {
    pub id: Vec<u8>,
    pub address: Vec<u8>,
    pub state: NodeState,
    pub incarnation: u64,
    pub last_change_at: u64,
    pub missed_probes: u64,
}

impl View for NodeRecord {
    type V = NodeModel;

    open spec fn view(&self) -> NodeModel {
        NodeModel {
            id: self.id@,
            address: self.address@,
            state: self.state,
            incarnation: self.incarnation,
            last_change_at: self.last_change_at,
            missed_probes: self.missed_probes,
        }
    }
}

impl NodeRecord {
    /// A fresh record holding the same fields.
    pub fn duplicate(&self) -> (r: NodeRecord)
        ensures
            r@ == self@,
    {
        let r = NodeRecord {
            id: copy_bytes(&self.id),
            address: copy_bytes(&self.address),
            state: self.state,
            incarnation: self.incarnation,
            last_change_at: self.last_change_at,
            missed_probes: self.missed_probes,
        };
        proof {
            assert(r@ =~= self@);
        }
        r
    }
}

/// The record a table holds for node `id`, if any.
pub open spec fn lookup_node(s: Seq<NodeModel>, id: Seq<u8>) -> Option<NodeModel>
    decreases s.len(),
{
    if s.len() == 0 {
        None
    } else if s[0].id == id {
        Some(s[0])
    } else {
        lookup_node(s.skip(1), id)
    }
}

/// No two records describe the same node.
pub open spec fn unique_ids(s: Seq<NodeModel>) -> bool {
    forall|i: int, j: int| 0 <= i < j < s.len() ==> (#[trigger] s[i]).id != (#[trigger] s[j]).id
}

pub proof fn lemma_node_lookup_none(s: Seq<NodeModel>, id: Seq<u8>)
    requires
        lookup_node(s, id) is None,
    ensures
        forall|i: int| 0 <= i < s.len() ==> (#[trigger] s[i]).id != id,
    decreases s.len(),
{
    if s.len() > 0 {
        lemma_node_lookup_none(s.skip(1), id);
        assert forall|i: int| 0 <= i < s.len() implies (#[trigger] s[i]).id != id by {
            if i >= 1 {
                assert(s[i] == s.skip(1)[i - 1]);
            }
        }
    }
}

pub proof fn lemma_node_all_neq_none(s: Seq<NodeModel>, id: Seq<u8>)
    requires
        forall|i: int| 0 <= i < s.len() ==> (#[trigger] s[i]).id != id,
    ensures
        lookup_node(s, id) is None,
    decreases s.len(),
{
    if s.len() > 0 {
        assert(forall|i: int| 0 <= i < s.skip(1).len() ==> #[trigger] s.skip(1)[i] == s[i + 1]);
        lemma_node_all_neq_none(s.skip(1), id);
    }
}

pub proof fn lemma_node_lookup_skip(s: Seq<NodeModel>, id: Seq<u8>, i: int)
    requires
        0 <= i <= s.len(),
        forall|j: int| 0 <= j < i ==> (#[trigger] s[j]).id != id,
    ensures
        lookup_node(s, id) == lookup_node(s.skip(i), id),
    decreases i,
{
    if i == 0 {
        assert(s.skip(0) =~= s);
    } else {
        assert(forall|j: int| 0 <= j < i - 1 ==> #[trigger] s.skip(1)[j] == s[j + 1]);
        lemma_node_lookup_skip(s.skip(1), id, i - 1);
        assert(s.skip(1).skip(i - 1) =~= s.skip(i));
    }
}

/// With unique identifiers, the record at any index is what lookup finds.
pub proof fn lemma_unique_lookup(s: Seq<NodeModel>, i: int)
    requires
        unique_ids(s),
        0 <= i < s.len(),
    ensures
        lookup_node(s, s[i].id) == Some(s[i]),
{
    assert(forall|j: int| 0 <= j < i ==> (#[trigger] s[j]).id != s[i].id);
    lemma_node_lookup_skip(s, s[i].id, i);
    assert(s.skip(i)[0] == s[i]);
}

pub proof fn lemma_node_lookup_update(s: Seq<NodeModel>, i: int, r: NodeModel, id: Seq<u8>)
    requires
        0 <= i < s.len(),
        r.id == s[i].id,
        id != s[i].id,
    ensures
        lookup_node(s.update(i, r), id) == lookup_node(s, id),
    decreases s.len(),
{
    let t = s.update(i, r);
    if i == 0 {
        assert(t[0] == r);
        assert(t.skip(1) =~= s.skip(1));
    } else {
        assert(t[0] == s[0]);
        if s[0].id != id {
            assert(t.skip(1) =~= s.skip(1).update(i - 1, r));
            assert(s.skip(1)[i - 1] == s[i]);
            lemma_node_lookup_update(s.skip(1), i - 1, r, id);
        }
    }
}

pub proof fn lemma_node_lookup_push(s: Seq<NodeModel>, r: NodeModel, id: Seq<u8>)
    ensures
        lookup_node(s.push(r), id) == (if lookup_node(s, id) is Some {
            lookup_node(s, id)
        } else if r.id == id {
            Some(r)
        } else {
            None
        }),
    decreases s.len(),
{
    if s.len() == 0 {
        assert(s.push(r)[0] == r);
        if r.id != id {
            assert(s.push(r).skip(1) =~= Seq::<NodeModel>::empty());
        }
    } else {
        assert(s.push(r)[0] == s[0]);
        if s[0].id != id {
            assert(s.push(r).skip(1) =~= s.skip(1).push(r));
            lemma_node_lookup_push(s.skip(1), r, id);
        }
    }
}

/// Whether an arriving claim about a node displaces what the table holds:
/// higher incarnation wins outright; at equal incarnation the more severe
/// state is trusted.
pub open spec fn claim_wins(c: NodeModel, l: NodeModel) -> bool {
    ||| c.incarnation > l.incarnation
    ||| (c.incarnation == l.incarnation && severity(c.state) > severity(l.state))
}

/// The record stored when a claim is accepted at time `now`.
pub open spec fn accepted(c: NodeModel, now: u64) -> NodeModel {
    NodeModel {
        id: c.id,
        address: c.address,
        state: c.state,
        incarnation: c.incarnation,
        last_change_at: now,
        missed_probes: 0,
    }
}

/// The incarnation a table associates with a node; a node never heard of
/// ranks below every recorded incarnation.
pub open spec fn inc_of(l: Option<NodeModel>) -> int {
    match l {
        Some(n) => n.incarnation as int,
        None => -1,
    }
}

/// Effect of one probe round on a node's record: an answer clears the missed
/// count; a miss raises it, and an alive node missing two rounds in a row
/// becomes suspect.
pub open spec fn probe_step(n: NodeModel, acked: bool, now: u64) -> NodeModel {
    if acked {
        NodeModel {
            id: n.id,
            address: n.address,
            state: n.state,
            incarnation: n.incarnation,
            last_change_at: n.last_change_at,
            missed_probes: 0,
        }
    } else {
        let m: u64 = if n.missed_probes == u64::MAX {
            u64::MAX
        } else {
            (n.missed_probes + 1) as u64
        };
        if n.state == NodeState::Alive && m >= 2 {
            NodeModel {
                id: n.id,
                address: n.address,
                state: NodeState::Suspect,
                incarnation: n.incarnation,
                last_change_at: now,
                missed_probes: m,
            }
        } else {
            NodeModel {
                id: n.id,
                address: n.address,
                state: n.state,
                incarnation: n.incarnation,
                last_change_at: n.last_change_at,
                missed_probes: m,
            }
        }
    }
}

/// Effect of the suspicion timer: a node suspect for at least `timeout`
/// ticks is confirmed dead.
pub open spec fn suspicion_step(n: NodeModel, now: u64, timeout: u64) -> NodeModel {
    if n.state == NodeState::Suspect && now >= n.last_change_at && now - n.last_change_at
        >= timeout {
        NodeModel {
            id: n.id,
            address: n.address,
            state: NodeState::Dead,
            incarnation: n.incarnation,
            last_change_at: now,
            missed_probes: n.missed_probes,
        }
    } else {
        n
    }
}

/// How many records are currently alive.
pub open spec fn count_alive(s: Seq<NodeModel>) -> int
    decreases s.len(),
{
    if s.len() == 0 {
        0
    } else {
        (if s[0].state == NodeState::Alive {
            1int
        } else {
            0int
        }) + count_alive(s.skip(1))
    }
}

/// How many records describe alive nodes other than `me`: the pool from
/// which probe targets are drawn.
pub open spec fn count_targets(s: Seq<NodeModel>, me: Seq<u8>) -> int
    decreases s.len(),
{
    if s.len() == 0 {
        0
    } else {
        (if s[0].state == NodeState::Alive && s[0].id != me {
            1int
        } else {
            0int
        }) + count_targets(s.skip(1), me)
    }
}

/// Whether a record survives garbage collection at time `now`: records of
/// dead or departed nodes are dropped once their last state change is at
/// least a grace window old, so lingering gossip about them has died down.
pub open spec fn evict_keep(n: NodeModel, now: u64, grace: u64) -> bool {
    !((n.state == NodeState::Dead || n.state == NodeState::Left) && now >= n.last_change_at && now
        - n.last_change_at >= grace)
}

/// The records surviving garbage collection, in table order.
pub open spec fn kept_nodes(s: Seq<NodeModel>, now: u64, grace: u64) -> Seq<NodeModel>
    decreases s.len(),
{
    if s.len() == 0 {
        Seq::empty()
    } else {
        let rest = kept_nodes(s.skip(1), now, grace);
        if evict_keep(s[0], now, grace) {
            seq![s[0]] + rest
        } else {
            rest
        }
    }
}

/// Garbage collection drops no identifier it should keep and keeps none it
/// should drop: per node, the lookup either survives unchanged or is gone.
pub proof fn lemma_kept_lookup(s: Seq<NodeModel>, id: Seq<u8>, now: u64, grace: u64)
    requires
        unique_ids(s),
    ensures
        lookup_node(kept_nodes(s, now, grace), id) == (match lookup_node(s, id) {
            Some(n) => if evict_keep(n, now, grace) {
                Some(n)
            } else {
                None
            },
            None => None,
        }),
    decreases s.len(),
{
    if s.len() > 0 {
        assert forall|p: int, q: int| 0 <= p < q < s.skip(1).len() implies (#[trigger] s.skip(1)[p]).id != (#[trigger] s.skip(1)[q]).id by {
            assert(s[p + 1].id != s[q + 1].id);
        }
        lemma_kept_lookup(s.skip(1), id, now, grace);
        let rest = kept_nodes(s.skip(1), now, grace);
        if s[0].id == id {
            assert forall|j: int| 0 <= j < s.skip(1).len() implies (#[trigger] s.skip(1)[j]).id
                != id by {
                assert(s.skip(1)[j] == s[j + 1]);
                assert(s[0].id != s[j + 1].id);
            }
            lemma_node_all_neq_none(s.skip(1), id);
            if evict_keep(s[0], now, grace) {
                assert((seq![s[0]] + rest)[0] == s[0]);
            }
        } else {
            if evict_keep(s[0], now, grace) {
                assert((seq![s[0]] + rest)[0] == s[0]);
                assert((seq![s[0]] + rest).skip(1) =~= rest);
            }
        }
    }
}

/// Garbage collection keeps distinct identifiers distinct.
pub proof fn lemma_kept_unique(s: Seq<NodeModel>, now: u64, grace: u64)
    requires
        unique_ids(s),
    ensures
        unique_ids(kept_nodes(s, now, grace)),
        forall|j: int|
            0 <= j < kept_nodes(s, now, grace).len() ==> exists|i: int|
                0 <= i < s.len() && s[i] == #[trigger] kept_nodes(s, now, grace)[j],
    decreases s.len(),
{
    if s.len() > 0 {
        assert forall|p: int, q: int| 0 <= p < q < s.skip(1).len() implies (#[trigger] s.skip(1)[p]).id != (#[trigger] s.skip(1)[q]).id by {
            assert(s[p + 1].id != s[q + 1].id);
        }
        lemma_kept_unique(s.skip(1), now, grace);
        let rest = kept_nodes(s.skip(1), now, grace);
        let whole = kept_nodes(s, now, grace);
        assert forall|j: int| 0 <= j < whole.len() implies exists|i: int|
            0 <= i < s.len() && s[i] == #[trigger] whole[j] by {
            if evict_keep(s[0], now, grace) && j == 0 {
                assert(whole[0] == s[0]);
            } else {
                let jr: int = if evict_keep(s[0], now, grace) {
                    j - 1
                } else {
                    j
                };
                assert(whole[j] == rest[jr]);
                let i = choose|i: int| 0 <= i < s.skip(1).len() && s.skip(1)[i] == rest[jr];
                assert(s[i + 1] == s.skip(1)[i]);
            }
        }
        if evict_keep(s[0], now, grace) {
            assert forall|p: int, q: int| 0 <= p < q < whole.len() implies (#[trigger] whole[p]).id != (#[trigger] whole[q]).id by {
                if p == 0 {
                    assert(whole[q] == rest[q - 1]);
                    let i = choose|i: int|
                        0 <= i < s.skip(1).len() && s.skip(1)[i] == rest[q - 1];
                    assert(s[i + 1] == s.skip(1)[i]);
                    assert(s[0].id != s[i + 1].id);
                } else {
                    assert(whole[p] == rest[p - 1]);
                    assert(whole[q] == rest[q - 1]);
                }
            }
        }
    }
}

/// Index of the `t`-th record (counting from zero, in table order) that
/// describes an alive node other than `me`.
pub open spec fn nth_target(s: Seq<NodeModel>, me: Seq<u8>, t: int) -> int
    decreases s.len(),
{
    if s.len() == 0 {
        0
    } else if s[0].state == NodeState::Alive && s[0].id != me {
        if t == 0 {
            0
        } else {
            1 + nth_target(s.skip(1), me, t - 1)
        }
    } else {
        1 + nth_target(s.skip(1), me, t)
    }
}

/// Projection of the table served to clients.
#[derive(Clone, Copy, PartialEq, Eq, Structural, Debug)]
pub struct ClusterStatus {
    pub total_nodes: usize,
    pub alive_nodes: usize,
}

/// The membership table of one node: every known peer (itself included) and
/// the identifier under which the node refutes suspicions about itself.
pub struct MembershipTable {
    nodes: Vec<NodeRecord>,
    self_id: Vec<u8>,
}

impl View for MembershipTable {
    type V = Seq<NodeModel>;

    closed spec fn view(&self) -> Seq<NodeModel> {
        self.nodes@.map_values(|r: NodeRecord| r@)
    }
}

impl MembershipTable {
    pub open spec fn wf(self) -> bool {
        unique_ids(self@)
    }

    /// The identifier of the local node.
    pub closed spec fn self_id_spec(&self) -> Seq<u8> {
        self.self_id@
    }

    pub fn self_id(&self) -> (r: &Vec<u8>)
        ensures
            r@ == self.self_id_spec(),
    {
        &self.self_id
    }

    /// A table knowing only the local node, alive at incarnation zero.
    pub fn new(self_id: Vec<u8>, address: Vec<u8>, now: u64) -> (t: MembershipTable)
        ensures
            t.wf(),
            t.self_id_spec() == self_id@,
            t@.len() == 1,
            t@[0] == (NodeModel {
                id: self_id@,
                address: address@,
                state: NodeState::Alive,
                incarnation: 0,
                last_change_at: now,
                missed_probes: 0,
            }),
    {
        let me = copy_bytes(&self_id);
        let mut nodes: Vec<NodeRecord> = Vec::new();
        nodes.push(
            NodeRecord {
                id: self_id,
                address,
                state: NodeState::Alive,
                incarnation: 0,
                last_change_at: now,
                missed_probes: 0,
            },
        );
        let t = MembershipTable { nodes, self_id: me };
        proof {
            assert(t@.len() == 1);
            assert(t@[0] == t.nodes@[0]@);
        }
        t
    }

    /// Index of the record for `id`, if the table holds one.
    fn find_node(&self, id: &Vec<u8>) -> (o: Option<usize>)
        ensures
            match o {
                Some(i) => {
                    &&& i < self@.len()
                    &&& self@[i as int].id == id@
                    &&& lookup_node(self@, id@) == Some(self@[i as int])
                },
                None => lookup_node(self@, id@) is None,
            },
    {
        let mut i: usize = 0;
        while i < self.nodes.len()
            invariant
                i <= self@.len(),
                self@.len() == self.nodes@.len(),
                forall|j: int| 0 <= j < self@.len() ==> #[trigger] self@[j] == self.nodes@[j]@,
                forall|j: int| 0 <= j < i ==> (#[trigger] self@[j]).id != id@,
            decreases self@.len() - i,
        {
            if bytes_equal(&self.nodes[i].id, id) {
                proof {
                    lemma_node_lookup_skip(self@, id@, i as int);
                    assert(self@.skip(i as int)[0] == self@[i as int]);
                }
                return Some(i);
            }
            i = i + 1;
        }
        proof {
            lemma_node_all_neq_none(self@, id@);
        }
        None
    }

    /// Replace the record at `i` by one describing the same node.
    fn set_node(&mut self, i: usize, rec: NodeRecord)
        requires
            old(self).wf(),
            i < old(self)@.len(),
            rec@.id == old(self)@[i as int].id,
        ensures
            final(self).wf(),
            final(self).self_id_spec() == old(self).self_id_spec(),
            final(self)@ =~= old(self)@.update(i as int, rec@),
            lookup_node(final(self)@, rec@.id) == Some(rec@),
            forall|id2: Seq<u8>|
                id2 != rec@.id ==> #[trigger] lookup_node(final(self)@, id2) == lookup_node(
                    old(self)@,
                    id2,
                ),
    {
        let ghost s0 = self@;
        self.nodes.remove(i);
        self.nodes.insert(i, rec);
        proof {
            let s1 = self@;
            assert(s1 =~= s0.update(i as int, rec@)) by {
                assert(self.nodes@ =~= old(self).nodes@.update(i as int, rec));
                assert(forall|j: int| 0 <= j < s1.len() ==> #[trigger] s1[j] == self.nodes@[j]@);
                assert(forall|j: int|
                    0 <= j < s0.len() ==> #[trigger] s0[j] == old(self).nodes@[j]@);
            }
            assert(unique_ids(s1)) by {
                assert forall|p: int, q: int| 0 <= p < q < s1.len()
                    implies (#[trigger] s1[p]).id != (#[trigger] s1[q]).id by {
                    assert(s1[p].id == s0[p].id);
                    assert(s1[q].id == s0[q].id);
                }
            }
            lemma_unique_lookup(s1, i as int);
            assert forall|id2: Seq<u8>| id2 != rec@.id
                implies #[trigger] lookup_node(s1, id2) == lookup_node(s0, id2) by {
                lemma_node_lookup_update(s0, i as int, rec@, id2);
            }
        }
    }

    /// Add a record for a node the table has not seen.
    fn push_node(&mut self, rec: NodeRecord)
        requires
            old(self).wf(),
            lookup_node(old(self)@, rec@.id) is None,
        ensures
            final(self).wf(),
            final(self).self_id_spec() == old(self).self_id_spec(),
            final(self)@ =~= old(self)@.push(rec@),
            lookup_node(final(self)@, rec@.id) == Some(rec@),
            forall|id2: Seq<u8>|
                id2 != rec@.id ==> #[trigger] lookup_node(final(self)@, id2) == lookup_node(
                    old(self)@,
                    id2,
                ),
    {
        let ghost s0 = self@;
        proof {
            lemma_node_lookup_none(s0, rec@.id);
        }
        self.nodes.push(rec);
        proof {
            let s1 = self@;
            assert(s1 =~= s0.push(rec@)) by {
                assert(self.nodes@ =~= old(self).nodes@.push(rec));
                assert(forall|j: int| 0 <= j < s1.len() ==> #[trigger] s1[j] == self.nodes@[j]@);
                assert(forall|j: int|
                    0 <= j < s0.len() ==> #[trigger] s0[j] == old(self).nodes@[j]@);
            }
            assert(unique_ids(s1)) by {
                assert forall|p: int, q: int| 0 <= p < q < s1.len()
                    implies (#[trigger] s1[p]).id != (#[trigger] s1[q]).id by {
                    if q < s1.len() - 1 {
                        assert(s1[p].id == s0[p].id);
                        assert(s1[q].id == s0[q].id);
                    } else {
                        assert(s1[p].id == s0[p].id);
                        assert(s1[q] == rec@);
                    }
                }
            }
            assert forall|id2: Seq<u8>|
                #![trigger lookup_node(s1, id2)]
                true implies lookup_node(s1, id2) == (if id2 == rec@.id {
                Some(rec@)
            } else {
                lookup_node(s0, id2)
            }) by {
                lemma_node_lookup_push(s0, rec@, id2);
            }
        }
    }

    /// Merge one piece of gossip about a node: first sighting is recorded as
    /// heard; otherwise the claim displaces the record only where it wins the
    /// incarnation-then-severity resolution. A node's recorded incarnation
    /// never decreases.
    pub fn handle_gossip(&mut self, claim: &NodeRecord, now: u64)
        requires
            old(self).wf(),
        ensures
            final(self).wf(),
            final(self).self_id_spec() == old(self).self_id_spec(),
            lookup_node(final(self)@, claim@.id) == (match lookup_node(old(self)@, claim@.id) {
                None => Some(accepted(claim@, now)),
                Some(prev) => Some(
                    if claim_wins(claim@, prev) {
                        accepted(claim@, now)
                    } else {
                        prev
                    },
                ),
            }),
            forall|id2: Seq<u8>|
                id2 != claim@.id ==> #[trigger] lookup_node(final(self)@, id2) == lookup_node(
                    old(self)@,
                    id2,
                ),
            inc_of(lookup_node(final(self)@, claim@.id)) >= inc_of(
                lookup_node(old(self)@, claim@.id),
            ),
    {
        let o = self.find_node(&claim.id);
        match o {
            None => {
                let rec = NodeRecord {
                    id: copy_bytes(&claim.id),
                    address: copy_bytes(&claim.address),
                    state: claim.state,
                    incarnation: claim.incarnation,
                    last_change_at: now,
                    missed_probes: 0,
                };
                proof {
                    assert(rec@ =~= accepted(claim@, now));
                }
                self.push_node(rec);
            }
            Some(i) => {
                let wins = {
                    let local = &self.nodes[i];
                    claim.incarnation > local.incarnation || (claim.incarnation
                        == local.incarnation && severity_rank(claim.state) > severity_rank(
                        local.state,
                    ))
                };
                proof {
                    assert(self@[i as int] == self.nodes@[i as int]@);
                }
                if wins {
                    let rec = NodeRecord {
                        id: copy_bytes(&claim.id),
                        address: copy_bytes(&claim.address),
                        state: claim.state,
                        incarnation: claim.incarnation,
                        last_change_at: now,
                        missed_probes: 0,
                    };
                    proof {
                        assert(rec@ =~= accepted(claim@, now));
                    }
                    self.set_node(i, rec);
                }
            }
        }
    }

    /// Refute a suspicion about the local node: re-announce it alive at a
    /// strictly higher incarnation. Gossiping the updated record makes every
    /// other table prefer it over the suspicion it answers.
    pub fn refute(&mut self, now: u64)
        requires
            old(self).wf(),
            lookup_node(old(self)@, old(self).self_id_spec()) is Some,
            lookup_node(old(self)@, old(self).self_id_spec()).unwrap().incarnation < u64::MAX,
        ensures
            final(self).wf(),
            final(self).self_id_spec() == old(self).self_id_spec(),
            ({
                let prev = lookup_node(old(self)@, old(self).self_id_spec()).unwrap();
                lookup_node(final(self)@, old(self).self_id_spec()) == Some(
                    (NodeModel {
                        id: prev.id,
                        address: prev.address,
                        state: NodeState::Alive,
                        incarnation: (prev.incarnation + 1) as u64,
                        last_change_at: now,
                        missed_probes: 0,
                    }),
                )
            }),
            inc_of(lookup_node(final(self)@, old(self).self_id_spec())) > inc_of(
                lookup_node(old(self)@, old(self).self_id_spec()),
            ),
            forall|id2: Seq<u8>|
                id2 != old(self).self_id_spec() ==> #[trigger] lookup_node(final(self)@, id2)
                    == lookup_node(old(self)@, id2),
    {
        let o = self.find_node(&self.self_id);
        match o {
            Some(i) => {
                let rec = {
                    let cur = &self.nodes[i];
                    proof {
                        assert(self@[i as int] == self.nodes@[i as int]@);
                    }
                    NodeRecord {
                        id: copy_bytes(&cur.id),
                        address: copy_bytes(&cur.address),
                        state: NodeState::Alive,
                        incarnation: cur.incarnation + 1,
                        last_change_at: now,
                        missed_probes: 0,
                    }
                };
                self.set_node(i, rec);
            }
            None => {
                proof {
                    assert(false);
                }
            }
        }
    }

    /// The local node announces its own departure: terminal state `Left` at
    /// a strictly higher incarnation, so the announcement outranks any claim
    /// already circulating at the old incarnation.
    pub fn leave(&mut self, now: u64)
        requires
            old(self).wf(),
            lookup_node(old(self)@, old(self).self_id_spec()) is Some,
            lookup_node(old(self)@, old(self).self_id_spec()).unwrap().incarnation < u64::MAX,
        ensures
            final(self).wf(),
            final(self).self_id_spec() == old(self).self_id_spec(),
            ({
                let prev = lookup_node(old(self)@, old(self).self_id_spec()).unwrap();
                lookup_node(final(self)@, old(self).self_id_spec()) == Some(
                    (NodeModel {
                        id: prev.id,
                        address: prev.address,
                        state: NodeState::Left,
                        incarnation: (prev.incarnation + 1) as u64,
                        last_change_at: now,
                        missed_probes: 0,
                    }),
                )
            }),
            forall|id2: Seq<u8>|
                id2 != old(self).self_id_spec() ==> #[trigger] lookup_node(final(self)@, id2)
                    == lookup_node(old(self)@, id2),
    {
        let o = self.find_node(&self.self_id);
        match o {
            Some(i) => {
                let rec = {
                    let cur = &self.nodes[i];
                    proof {
                        assert(self@[i as int] == self.nodes@[i as int]@);
                    }
                    NodeRecord {
                        id: copy_bytes(&cur.id),
                        address: copy_bytes(&cur.address),
                        state: NodeState::Left,
                        incarnation: cur.incarnation + 1,
                        last_change_at: now,
                        missed_probes: 0,
                    }
                };
                self.set_node(i, rec);
            }
            None => {
                proof {
                    assert(false);
                }
            }
        }
    }

    /// Record the outcome of one probe round for `id`.
    pub fn note_probe(&mut self, id: &Vec<u8>, acked: bool, now: u64)
        requires
            old(self).wf(),
        ensures
            final(self).wf(),
            final(self).self_id_spec() == old(self).self_id_spec(),
            lookup_node(final(self)@, id@) == (match lookup_node(old(self)@, id@) {
                None => None::<NodeModel>,
                Some(n) => Some(probe_step(n, acked, now)),
            }),
            forall|id2: Seq<u8>|
                id2 != id@ ==> #[trigger] lookup_node(final(self)@, id2) == lookup_node(
                    old(self)@,
                    id2,
                ),
    {
        let o = self.find_node(id);
        match o {
            None => {},
            Some(i) => {
                let rec = {
                    let cur = &self.nodes[i];
                    proof {
                        assert(self@[i as int] == self.nodes@[i as int]@);
                    }
                    if acked {
                        NodeRecord {
                            id: copy_bytes(&cur.id),
                            address: copy_bytes(&cur.address),
                            state: cur.state,
                            incarnation: cur.incarnation,
                            last_change_at: cur.last_change_at,
                            missed_probes: 0,
                        }
                    } else {
                        let m = if cur.missed_probes == u64::MAX {
                            u64::MAX
                        } else {
                            cur.missed_probes + 1
                        };
                        if (match cur.state {
                            NodeState::Alive => true,
                            _ => false,
                        }) && m >= 2 {
                            NodeRecord {
                                id: copy_bytes(&cur.id),
                                address: copy_bytes(&cur.address),
                                state: NodeState::Suspect,
                                incarnation: cur.incarnation,
                                last_change_at: now,
                                missed_probes: m,
                            }
                        } else {
                            NodeRecord {
                                id: copy_bytes(&cur.id),
                                address: copy_bytes(&cur.address),
                                state: cur.state,
                                incarnation: cur.incarnation,
                                last_change_at: cur.last_change_at,
                                missed_probes: m,
                            }
                        }
                    }
                };
                proof {
                    assert(rec@ =~= probe_step(self@[i as int], acked, now));
                }
                self.set_node(i, rec);
            }
        }
    }

    /// Confirm a suspicion that has outlived its timeout: the node is dead.
    pub fn check_suspect(&mut self, id: &Vec<u8>, now: u64, timeout: u64)
        requires
            old(self).wf(),
        ensures
            final(self).wf(),
            final(self).self_id_spec() == old(self).self_id_spec(),
            lookup_node(final(self)@, id@) == (match lookup_node(old(self)@, id@) {
                None => None::<NodeModel>,
                Some(n) => Some(suspicion_step(n, now, timeout)),
            }),
            forall|id2: Seq<u8>|
                id2 != id@ ==> #[trigger] lookup_node(final(self)@, id2) == lookup_node(
                    old(self)@,
                    id2,
                ),
    {
        let o = self.find_node(id);
        match o {
            None => {},
            Some(i) => {
                let expired = {
                    let cur = &self.nodes[i];
                    proof {
                        assert(self@[i as int] == self.nodes@[i as int]@);
                    }
                    (match cur.state {
                        NodeState::Suspect => true,
                        _ => false,
                    }) && now >= cur.last_change_at && now - cur.last_change_at >= timeout
                };
                if expired {
                    let rec = {
                        let cur = &self.nodes[i];
                        NodeRecord {
                            id: copy_bytes(&cur.id),
                            address: copy_bytes(&cur.address),
                            state: NodeState::Dead,
                            incarnation: cur.incarnation,
                            last_change_at: now,
                            missed_probes: cur.missed_probes,
                        }
                    };
                    proof {
                        assert(rec@ =~= suspicion_step(self@[i as int], now, timeout));
                    }
                    self.set_node(i, rec);
                }
            }
        }
    }

    /// Whether the table currently believes `id` to be alive.
    pub fn is_alive(&self, id: &Vec<u8>) -> (r: bool)
        ensures
            r == (match lookup_node(self@, id@) {
                Some(n) => n.state == NodeState::Alive,
                None => false,
            }),
    {
        let o = self.find_node(id);
        match o {
            Some(i) => match self.nodes[i].state {
                NodeState::Alive => true,
                _ => false,
            },
            None => false,
        }
    }

    /// The client-facing projection: how many nodes are known, how many are
    /// alive.
    pub fn cluster_status(&self) -> (c: ClusterStatus)
        ensures
            c.total_nodes == self@.len(),
            c.alive_nodes == count_alive(self@),
    {
        let ghost s = self@;
        let mut alive: usize = 0;
        let mut i: usize = 0;
        proof {
            assert(s.skip(0) =~= s);
        }
        while i < self.nodes.len()
            invariant
                i <= self.nodes@.len(),
                s == self@,
                s.len() == self.nodes@.len(),
                forall|j: int| 0 <= j < s.len() ==> #[trigger] s[j] == self.nodes@[j]@,
                alive <= i,
                alive + count_alive(s.skip(i as int)) == count_alive(s),
            decreases s.len() - i,
        {
            proof {
                assert(s.skip(i as int)[0] == s[i as int]);
                assert(s.skip(i as int).skip(1) =~= s.skip(i as int + 1));
            }
            match self.nodes[i].state {
                NodeState::Alive => {
                    alive = alive + 1;
                }
                _ => {},
            }
            i = i + 1;
        }
        proof {
            assert(s.skip(s.len() as int).len() == 0);
        }
        ClusterStatus { total_nodes: self.nodes.len(), alive_nodes: alive }
    }

    /// Garbage-collect the records of dead and departed nodes whose last
    /// state change is at least `grace` ticks old; every other record,
    /// tombstoned ones still inside the window included, stays as it is.
    pub fn evict_expired(&mut self, now: u64, grace: u64)
        requires
            old(self).wf(),
        ensures
            final(self).wf(),
            final(self).self_id_spec() == old(self).self_id_spec(),
            forall|id: Seq<u8>|
                #[trigger] lookup_node(final(self)@, id) == (match lookup_node(old(self)@, id) {
                    Some(n) => if evict_keep(n, now, grace) {
                        Some(n)
                    } else {
                        None
                    },
                    None => None,
                }),
    {
        let ghost s = self@;
        let ghost mut om: Seq<NodeModel> = Seq::empty();
        let mut kept: Vec<NodeRecord> = Vec::new();
        let mut i: usize = 0;
        proof {
            assert(s.skip(0) =~= s);
            assert(om + kept_nodes(s.skip(0), now, grace) =~= kept_nodes(s, now, grace));
        }
        while i < self.nodes.len()
            invariant
                i <= self.nodes@.len(),
                s == self@,
                s.len() == self.nodes@.len(),
                forall|j: int| 0 <= j < s.len() ==> #[trigger] s[j] == self.nodes@[j]@,
                om.len() == kept@.len(),
                forall|j: int| 0 <= j < om.len() ==> (#[trigger] kept@[j])@ == om[j],
                om + kept_nodes(s.skip(i as int), now, grace) == kept_nodes(s, now, grace),
            decreases s.len() - i,
        {
            proof {
                assert(s.skip(i as int)[0] == s[i as int]);
                assert(s.skip(i as int).skip(1) =~= s.skip(i as int + 1));
            }
            let n = &self.nodes[i];
            let expired = (match n.state {
                NodeState::Dead => true,
                NodeState::Left => true,
                _ => false,
            }) && now >= n.last_change_at && now - n.last_change_at >= grace;
            if !expired {
                kept.push(n.duplicate());
                proof {
                    let rest = kept_nodes(s.skip(i as int + 1), now, grace);
                    assert(om + (seq![s[i as int]] + rest) =~= (om.push(s[i as int])) + rest);
                    om = om.push(s[i as int]);
                }
            } else {
                proof {
                    assert(!evict_keep(s[i as int], now, grace));
                }
            }
            i = i + 1;
        }
        proof {
            assert(s.skip(s.len() as int).len() == 0);
            assert(om + kept_nodes(s.skip(s.len() as int), now, grace) =~= om);
        }
        self.nodes = kept;
        proof {
            let s1 = self@;
            assert(s1 =~= kept_nodes(s, now, grace)) by {
                assert(forall|j: int| 0 <= j < s1.len() ==> #[trigger] s1[j] == self.nodes@[j]@);
            }
            lemma_kept_unique(s, now, grace);
            assert forall|id: Seq<u8>|
                #[trigger] lookup_node(s1, id) == (match lookup_node(s, id) {
                    Some(n) => if evict_keep(n, now, grace) {
                        Some(n)
                    } else {
                        None
                    },
                    None => None,
                }) by {
                lemma_kept_lookup(s, id, now, grace);
            }
        }
    }

    /// How many alive peers other than the local node the table knows.
    pub fn count_alive_peers(&self) -> (c: usize)
        ensures
            c == count_targets(self@, self.self_id_spec()),
    {
        let ghost s = self@;
        let ghost me = self.self_id_spec();
        let mut c: usize = 0;
        let mut i: usize = 0;
        proof {
            assert(s.skip(0) =~= s);
        }
        while i < self.nodes.len()
            invariant
                i <= self.nodes@.len(),
                s == self@,
                me == self.self_id_spec(),
                s.len() == self.nodes@.len(),
                forall|j: int| 0 <= j < s.len() ==> #[trigger] s[j] == self.nodes@[j]@,
                c <= i,
                c + count_targets(s.skip(i as int), me) == count_targets(s, me),
            decreases s.len() - i,
        {
            proof {
                assert(s.skip(i as int)[0] == s[i as int]);
                assert(s.skip(i as int).skip(1) =~= s.skip(i as int + 1));
            }
            let is_target = (match self.nodes[i].state {
                NodeState::Alive => true,
                _ => false,
            }) && !bytes_equal(&self.nodes[i].id, &self.self_id);
            if is_target {
                c = c + 1;
            }
            i = i + 1;
        }
        proof {
            assert(s.skip(s.len() as int).len() == 0);
        }
        c
    }

    /// Choose a probe target from a caller-supplied random draw: whenever
    /// any alive peer other than the local node exists, the result is the
    /// draw-th such peer, counting in table order and wrapping the draw
    /// around their number.
    pub fn pick_probe_target(&self, r: usize) -> (o: Option<usize>)
        ensures
            match o {
                Some(i) => {
                    &&& i < self@.len()
                    &&& self@[i as int].state == NodeState::Alive
                    &&& self@[i as int].id != self.self_id_spec()
                    &&& i as int == nth_target(
                        self@,
                        self.self_id_spec(),
                        (r as int) % count_targets(self@, self.self_id_spec()),
                    )
                },
                None => count_targets(self@, self.self_id_spec()) == 0,
            },
            (count_targets(self@, self.self_id_spec()) > 0) <==> o is Some,
    {
        let c = self.count_alive_peers();
        if c == 0 {
            return None;
        }
        let t = r % c;
        let ghost s = self@;
        let ghost me = self.self_id_spec();
        let mut seen: usize = 0;
        let mut i: usize = 0;
        proof {
            assert(s.skip(0) =~= s);
            assert(nth_target(s, me, t as int) == 0 + nth_target(s.skip(0), me, t as int));
        }
        while i < self.nodes.len()
            invariant
                i <= self.nodes@.len(),
                s == self@,
                me == self.self_id_spec(),
                s.len() == self.nodes@.len(),
                forall|j: int| 0 <= j < s.len() ==> #[trigger] s[j] == self.nodes@[j]@,
                seen <= t,
                t < count_targets(s, me),
                c as int == count_targets(s, me),
                c > 0,
                t == r % c,
                seen + count_targets(s.skip(i as int), me) == count_targets(s, me),
                nth_target(s, me, t as int) == i + nth_target(s.skip(i as int), me, t - seen),
            decreases s.len() - i,
        {
            proof {
                assert(s.skip(i as int)[0] == s[i as int]);
                assert(s.skip(i as int).skip(1) =~= s.skip(i as int + 1));
            }
            let is_target = (match self.nodes[i].state {
                NodeState::Alive => true,
                _ => false,
            }) && !bytes_equal(&self.nodes[i].id, &self.self_id);
            if is_target {
                if seen == t {
                    proof {
                        assert(nth_target(s.skip(i as int), me, 0) == 0);
                        assert(nth_target(s, me, t as int) == i as int);
                        assert(c as int == count_targets(s, me));
                        assert(t as int == (r as int) % (c as int));
                        assert(nth_target(self@, self.self_id_spec(), (r as int) % count_targets(
                            self@,
                            self.self_id_spec(),
                        )) == i as int);
                    }
                    return Some(i);
                }
                seen = seen + 1;
            }
            i = i + 1;
        }
        proof {
            assert(s.skip(s.len() as int).len() == 0);
            assert(false);
        }
        None
    }

    /// Every known record, for rendering and for gossip dissemination.
    pub fn nodes(&self) -> (r: &Vec<NodeRecord>)
        ensures
            r@.len() == self@.len(),
            forall|i: int| 0 <= i < r@.len() ==> (#[trigger] r@[i])@ == self@[i],
    {
        &self.nodes
    }
}

/// One gossip merge never lowers any node's recorded incarnation.
pub open spec fn gossip_step_ok(pre: Seq<NodeModel>, post: Seq<NodeModel>) -> bool {
    forall|id: Seq<u8>| inc_of(#[trigger] lookup_node(post, id)) >= inc_of(lookup_node(pre, id))
}

/// Law: across any sequence of gossip merges, a node's recorded incarnation
/// never decreases. Each merge satisfies `gossip_step_ok` (the ensures of
/// `handle_gossip` gives it for the merged id and leaves every other id
/// unchanged), and the monotonicity composes along the chain.
pub proof fn lemma_incarnation_monotone(chain: Seq<Seq<NodeModel>>, id: Seq<u8>, i: int, j: int)
    requires
        0 <= i <= j < chain.len(),
        forall|t: int| 0 <= t < chain.len() - 1 ==> gossip_step_ok(#[trigger] chain[t], chain[t + 1]),
    ensures
        inc_of(lookup_node(chain[j], id)) >= inc_of(lookup_node(chain[i], id)),
    decreases j - i,
{
    if j > i {
        lemma_incarnation_monotone(chain, id, i, j - 1);
        assert(gossip_step_ok(chain[j - 1], chain[j]));
    }
}

} // verus!
