//! Leader election: the bully algorithm and the ring algorithm. Both make the
//! alive node with the highest ID the coordinator of every alive node.

use vstd::prelude::*;

verus! {

/// The state of a node in an election.
#[derive(Debug, Clone, Copy, PartialEq, Eq, Structural)]
pub enum NodeState {
    Alive,
    Dead,
    InElection,
}

/// A node of the bully algorithm.
#[derive(Debug, Clone)]
pub struct BullyNode {
    pub id: usize,
    pub alive: bool,
    pub coordinator: Option<usize>,
}

/// `c` is the highest ID among the alive nodes, given as (ID, alive) pairs.
pub open spec fn is_highest_alive(ids: Seq<(usize, bool)>, c: usize) -> bool {
    &&& exists|i: int| 0 <= i < ids.len() && ids[i].1 && ids[i].0 == c
    &&& forall|i: int| 0 <= i < ids.len() && ids[i].1 ==> ids[i].0 <= c
}

pub open spec fn bully_ids(nodes: Seq<BullyNode>) -> Seq<(usize, bool)> {
    nodes.map_values(|n: BullyNode| (n.id, n.alive))
}

/// Every alive node takes `c` as coordinator; the others stay as they were.
pub open spec fn bully_announced(before: Seq<BullyNode>, after: Seq<BullyNode>, c: usize) -> bool {
    &&& after.len() == before.len()
    &&& forall|i: int| 0 <= i < before.len() ==> #[trigger] after[i] == (if before[i].alive {
        BullyNode { coordinator: Some(c), ..before[i] }
    } else {
        before[i]
    })
}

impl BullyNode {
    /// An alive node with no coordinator yet.
    pub fn new(id: usize) -> (n: Self)
        ensures
            n == (BullyNode { id, alive: true, coordinator: None }),
    {
        BullyNode { id, alive: true, coordinator: None }
    }

    /// Runs the bully algorithm from `initiator`: the alive node with the
    /// highest ID becomes coordinator of every alive node. A dead initiator
    /// starts nothing.
    pub fn start_election(nodes: &mut Vec<BullyNode>, initiator: usize) -> (coord: Option<usize>)
        requires
            initiator < old(nodes)@.len(),
        ensures
            !old(nodes)@[initiator as int].alive ==> coord is None && final(nodes)@ == old(nodes)@,
            old(nodes)@[initiator as int].alive ==> (coord matches Some(c) && is_highest_alive(bully_ids(old(nodes)@), c)
                && bully_announced(old(nodes)@, final(nodes)@, c)),
    {
        if !nodes[initiator].alive {
            return None;
        }
        let ghost ids = bully_ids(nodes@);
        let my_id = nodes[initiator].id;
        // Is there an alive node with a higher ID? Track the highest alive ID too.
        let mut higher = false;
        let mut best: usize = my_id;
        let mut i: usize = 0;
        while i < nodes.len()
            invariant
                i <= nodes@.len(),
                ids == bully_ids(nodes@),
                initiator < nodes@.len(),
                nodes@[initiator as int].alive,
                my_id == nodes@[initiator as int].id,
                higher == exists|j: int| 0 <= j < i && ids[j].1 && ids[j].0 > my_id,
                best >= my_id,
                best == my_id || exists|j: int| 0 <= j < i && ids[j].1 && ids[j].0 == best,
                forall|j: int| 0 <= j < i && ids[j].1 ==> ids[j].0 <= best,
            decreases nodes@.len() - i,
        {
            proof {
                assert(ids[i as int] == (nodes@[i as int].id, nodes@[i as int].alive));
            }
            if nodes[i].alive && nodes[i].id > my_id {
                higher = true;
            }
            if nodes[i].alive && nodes[i].id > best {
                best = nodes[i].id;
            }
            i = i + 1;
        }
        proof {
            assert(ids[initiator as int] == (my_id, true));
        }
        let coord = if !higher {
            // This node is the bully.
            my_id
        } else {
            best
        };
        proof {
            if !higher {
                assert forall|j: int| 0 <= j < ids.len() && ids[j].1 implies ids[j].0 <= my_id by {}
            }
            assert(is_highest_alive(ids, coord));
        }
        let ghost before = nodes@;
        let mut k: usize = 0;
        while k < nodes.len()
            invariant
                k <= nodes@.len(),
                nodes@.len() == before.len(),
                forall|j: int| 0 <= j < k ==> #[trigger] nodes@[j] == (if before[j].alive {
                    BullyNode { coordinator: Some(coord), ..before[j] }
                } else {
                    before[j]
                }),
                forall|j: int| k <= j < before.len() ==> #[trigger] nodes@[j] == before[j],
            decreases nodes@.len() - k,
        {
            if nodes[k].alive {
                let updated = BullyNode { id: nodes[k].id, alive: true, coordinator: Some(coord) };
                nodes.set(k, updated);
            }
            k = k + 1;
        }
        Some(coord)
    }
}

/// What a sequence contains, it still contains after a push.
proof fn lemma_push_keeps(s: Seq<usize>, v: usize)
    ensures
        forall|x: usize| s.contains(x) ==> #[trigger] s.push(v).contains(x),
        s.push(v).contains(v),
{
    assert forall|x: usize| s.contains(x) implies #[trigger] s.push(v).contains(x) by {
        let i = choose|i: int| 0 <= i < s.len() && s[i] == x;
        assert(s.push(v)[i] == x);
    }
    assert(s.push(v)[s.len() as int] == v);
}

/// A node of the ring algorithm.
#[derive(Debug, Clone)]
pub struct RingNode {
    pub id: usize,
    pub alive: bool,
    pub next_id: Option<usize>,
    pub coordinator: Option<usize>,
}

pub open spec fn ring_ids(nodes: Seq<RingNode>) -> Seq<(usize, bool)> {
    nodes.map_values(|n: RingNode| (n.id, n.alive))
}

/// Every alive node takes `c` as coordinator; the others stay as they were.
pub open spec fn ring_announced(before: Seq<RingNode>, after: Seq<RingNode>, c: usize) -> bool {
    &&& after.len() == before.len()
    &&& forall|i: int| 0 <= i < before.len() ==> #[trigger] after[i] == (if before[i].alive {
        RingNode { coordinator: Some(c), ..before[i] }
    } else {
        before[i]
    })
}

impl RingNode {
    /// An alive node with no successor and no coordinator yet.
    pub fn new(id: usize) -> (n: Self)
        ensures
            n == (RingNode { id, alive: true, next_id: None, coordinator: None }),
    {
        RingNode { id, alive: true, next_id: None, coordinator: None }
    }

    /// Runs the ring algorithm from `initiator`: the election message passes
    /// once around the ring, collecting the IDs of the alive nodes, and the
    /// highest becomes coordinator of every alive node. A dead initiator
    /// starts nothing.
    pub fn start_election(nodes: &mut Vec<RingNode>, initiator: usize) -> (coord: Option<usize>)
        requires
            initiator < old(nodes)@.len(),
        ensures
            !old(nodes)@[initiator as int].alive ==> coord is None && final(nodes)@ == old(nodes)@,
            old(nodes)@[initiator as int].alive ==> (coord matches Some(c) && is_highest_alive(ring_ids(old(nodes)@), c)
                && ring_announced(old(nodes)@, final(nodes)@, c)),
    {
        if !nodes[initiator].alive {
            return None;
        }
        let ghost ids = ring_ids(nodes@);
        let n = nodes.len();
        let mut participants: Vec<usize> = vec![nodes[initiator].id];
        proof {
            assert(ids[initiator as int] == (nodes@[initiator as int].id, true));
        }
        // The message goes from the initiator's successor round to its predecessor.
        let mut idx: usize = initiator + 1;
        while idx < n
            invariant
                initiator < idx <= n,
                n == nodes@.len(),
                ids == ring_ids(nodes@),
                participants@.len() >= 1,
                forall|p: int| 0 <= p < participants@.len() ==>
                    exists|j: int| 0 <= j < n && ids[j].1 && ids[j].0 == #[trigger] participants@[p],
                participants@.contains(ids[initiator as int].0),
                forall|j: int| initiator < j < idx && ids[j].1 ==> participants@.contains(ids[j].0),
            decreases n - idx,
        {
            proof {
                assert(ids[idx as int] == (nodes@[idx as int].id, nodes@[idx as int].alive));
            }
            if nodes[idx].alive {
                let ghost before = participants@;
                participants.push(nodes[idx].id);
                proof {
                    lemma_push_keeps(before, nodes@[idx as int].id);
                    assert forall|p: int| 0 <= p < participants@.len() implies
                        exists|j: int| 0 <= j < n && ids[j].1 && ids[j].0 == #[trigger] participants@[p] by {
                        if p < before.len() {
                            assert(participants@[p] == before[p]);
                        } else {
                            assert(ids[idx as int].1 && ids[idx as int].0 == participants@[p]);
                        }
                    }
                }
            }
            idx = idx + 1;
        }
        let mut idx: usize = 0;
        while idx < initiator
            invariant
                idx <= initiator < n,
                n == nodes@.len(),
                ids == ring_ids(nodes@),
                participants@.len() >= 1,
                forall|p: int| 0 <= p < participants@.len() ==>
                    exists|j: int| 0 <= j < n && ids[j].1 && ids[j].0 == #[trigger] participants@[p],
                participants@.contains(ids[initiator as int].0),
                forall|j: int| initiator < j < n && ids[j].1 ==> participants@.contains(ids[j].0),
                forall|j: int| 0 <= j < idx && ids[j].1 ==> participants@.contains(ids[j].0),
            decreases initiator - idx,
        {
            proof {
                assert(ids[idx as int] == (nodes@[idx as int].id, nodes@[idx as int].alive));
            }
            if nodes[idx].alive {
                let ghost before = participants@;
                participants.push(nodes[idx].id);
                proof {
                    lemma_push_keeps(before, nodes@[idx as int].id);
                    assert forall|p: int| 0 <= p < participants@.len() implies
                        exists|j: int| 0 <= j < n && ids[j].1 && ids[j].0 == #[trigger] participants@[p] by {
                        if p < before.len() {
                            assert(participants@[p] == before[p]);
                        } else {
                            assert(ids[idx as int].1 && ids[idx as int].0 == participants@[p]);
                        }
                    }
                }
            }
            idx = idx + 1;
        }
        // The highest participant wins.
        let mut coord: usize = participants[0];
        let mut p: usize = 1;
        while p < participants.len()
            invariant
                1 <= p <= participants@.len(),
                participants@.contains(coord),
                forall|q: int| 0 <= q < p ==> participants@[q] <= coord,
            decreases participants@.len() - p,
        {
            if participants[p] > coord {
                coord = participants[p];
            }
            p = p + 1;
        }
        proof {
            let q = choose|q: int| 0 <= q < participants@.len() && participants@[q] == coord;
            assert(exists|j: int| 0 <= j < n && ids[j].1 && ids[j].0 == participants@[q]);
            assert forall|j: int| 0 <= j < ids.len() && ids[j].1 implies ids[j].0 <= coord by {
                assert(participants@.contains(ids[j].0));
                let q2 = choose|q2: int| 0 <= q2 < participants@.len() && participants@[q2] == ids[j].0;
            }
        }
        let ghost before = nodes@;
        let mut k: usize = 0;
        while k < nodes.len()
            invariant
                k <= nodes@.len(),
                nodes@.len() == before.len(),
                forall|j: int| 0 <= j < k ==> #[trigger] nodes@[j] == (if before[j].alive {
                    RingNode { coordinator: Some(coord), ..before[j] }
                } else {
                    before[j]
                }),
                forall|j: int| k <= j < before.len() ==> #[trigger] nodes@[j] == before[j],
            decreases nodes@.len() - k,
        {
            if nodes[k].alive {
                let updated = RingNode { id: nodes[k].id, alive: true, next_id: nodes[k].next_id, coordinator: Some(coord) };
                nodes.set(k, updated);
            }
            k = k + 1;
        }
        Some(coord)
    }
}

/// One coordinator: at most one ID is the highest among the alive nodes, so
/// whichever alive node starts the election, and whether by the bully or the
/// ring algorithm, the same coordinator comes out for the same nodes.
pub proof fn law_coordinator_unique(ids: Seq<(usize, bool)>, c1: usize, c2: usize)
    requires
        is_highest_alive(ids, c1),
        is_highest_alive(ids, c2),
    ensures
        c1 == c2,
{
    let i1 = choose|i: int| 0 <= i < ids.len() && ids[i].1 && ids[i].0 == c1;
    let i2 = choose|i: int| 0 <= i < ids.len() && ids[i].1 && ids[i].0 == c2;
    assert(ids[i1].0 <= c2);
    assert(ids[i2].0 <= c1);
}

} // verus!
