//! Quorum replication: writes reach a write quorum, reads consult a read quorum
//! and return the newest version they see.

use vstd::prelude::*;
use crate::strmap::StrMap;
use crate::naming::{decimal, indexed_name};

verus! {

/// The replica count and the read and write quorum sizes.
#[derive(Debug, Clone)]
pub struct QuorumConfig {
    pub n: usize,
    pub read_quorum: usize,
    pub write_quorum: usize,
}

impl QuorumConfig {
    pub fn new(n: usize, read_quorum: usize, write_quorum: usize) -> (c: Self)
        ensures
            c.n == n,
            c.read_quorum == read_quorum,
            c.write_quorum == write_quorum,
    {
        QuorumConfig { n, read_quorum, write_quorum }
    }

    /// R + W > N: every read quorum meets every write quorum.
    pub fn is_valid(&self) -> (b: bool)
        ensures
            b == (self.read_quorum + self.write_quorum > self.n),
    {
        if self.write_quorum > self.n {
            true
        } else {
            self.read_quorum > self.n - self.write_quorum
        }
    }

    /// How many replicas may fail with reads still served: N - R.
    pub fn read_fault_tolerance(&self) -> (f: usize)
        requires
            self.read_quorum <= self.n,
        ensures
            f == self.n - self.read_quorum,
    {
        self.n - self.read_quorum
    }

    /// How many replicas may fail with writes still served: N - W.
    pub fn write_fault_tolerance(&self) -> (f: usize)
        requires
            self.write_quorum <= self.n,
        ensures
            f == self.n - self.write_quorum,
    {
        self.n - self.write_quorum
    }

    /// Whether `f` failures leave both reads and writes served.
    pub fn tolerates_failures(&self, f: usize) -> (b: bool)
        requires
            self.read_quorum <= self.n,
            self.write_quorum <= self.n,
        ensures
            b == (self.n - self.read_quorum >= f && self.n - self.write_quorum >= f),
    {
        self.read_fault_tolerance() >= f && self.write_fault_tolerance() >= f
    }
}

/// A replica: its stored (value, version) pairs and whether it is alive.
#[derive(Debug, Clone)]
pub struct QuorumNode {
    pub id: String,
    pub data: StrMap<(String, u64)>,
    pub alive: bool,
}

#[verifier::ext_equal]
pub struct QuorumNodeView {
    pub id: Seq<char>,
    pub data: Map<Seq<char>, (Seq<char>, u64)>,
    pub alive: bool,
}

impl View for QuorumNode {
    type V = QuorumNodeView;

    open spec fn view(&self) -> QuorumNodeView {
        QuorumNodeView {
            id: self.id@,
            data: self.data@.map_values(|p: (String, u64)| (p.0@, p.1)),
            alive: self.alive,
        }
    }
}

pub open spec fn quorum_view(v: Seq<QuorumNode>) -> Seq<QuorumNodeView> {
    v.map_values(|n: QuorumNode| n@)
}

impl QuorumNode {
    /// An alive replica storing nothing.
    pub fn new(id: String) -> (q: Self)
        ensures
            q@ == (QuorumNodeView { id: id@, data: Map::empty(), alive: true }),
    {
        let q = QuorumNode { id, data: StrMap::new(), alive: true };
        proof {
            assert(q@.data =~= Map::<Seq<char>, (Seq<char>, u64)>::empty());
        }
        q
    }
}

/// The number of alive replicas among the first `i`.
pub open spec fn alive_before(nodes: Seq<QuorumNodeView>, i: int) -> int
    decreases i,
{
    if i <= 0 {
        0
    } else {
        alive_before(nodes, i - 1) + if i - 1 < nodes.len() && nodes[i - 1].alive { 1int } else { 0int }
    }
}

/// The number of replicas an operation waits for: its quorum, and at least one.
pub open spec fn reach(q: usize) -> int {
    if q == 0 { 1 } else { q as int }
}

/// The highest version of `key` stored by any replica, alive or not, or 0.
pub open spec fn top_version(nodes: Seq<QuorumNodeView>, key: Seq<char>) -> int
    decreases nodes.len(),
{
    if nodes.len() == 0 {
        0
    } else {
        let rest = top_version(nodes.drop_last(), key);
        let last = nodes.last();
        if last.data.contains_key(key) && last.data[key].1 > rest { last.data[key].1 as int } else { rest }
    }
}

/// Replica `i` is among the first `reach(q)` alive replicas.
pub open spec fn in_quorum(nodes: Seq<QuorumNodeView>, i: int, q: usize) -> bool {
    nodes[i].alive && alive_before(nodes, i) < reach(q)
}

/// The replicas after a quorum write of `value` under `key`: the first alive
/// replicas, up to the write quorum, store it with the next version.
pub open spec fn quorum_write(nodes: Seq<QuorumNodeView>, key: Seq<char>, value: Seq<char>, wq: usize) -> Seq<QuorumNodeView> {
    let version = (top_version(nodes, key) + 1) as u64;
    Seq::new(nodes.len(), |i: int|
        if in_quorum(nodes, i, wq) {
            QuorumNodeView { data: nodes[i].data.insert(key, (value, version)), ..nodes[i] }
        } else {
            nodes[i]
        })
}

/// What a replica answers for `key`: its (value, version), or ("", 0).
pub open spec fn response_of(n: QuorumNodeView, key: Seq<char>) -> (Seq<char>, u64) {
    if n.data.contains_key(key) { n.data[key] } else { (Seq::empty(), 0) }
}

/// The answers of the first `i` replicas that a read of `key` consults.
pub open spec fn read_responses(nodes: Seq<QuorumNodeView>, key: Seq<char>, rq: usize, i: int) -> Seq<(Seq<char>, u64)>
    decreases i,
{
    if i <= 0 {
        Seq::empty()
    } else {
        let rest = read_responses(nodes, key, rq, i - 1);
        if i - 1 < nodes.len() && in_quorum(nodes, i - 1, rq) { rest.push(response_of(nodes[i - 1], key)) } else { rest }
    }
}

/// The position of the last answer with the highest version.
pub open spec fn newest_index(rs: Seq<(Seq<char>, u64)>) -> int
    decreases rs.len(),
{
    if rs.len() <= 1 {
        0
    } else {
        let j = newest_index(rs.drop_last());
        if rs.last().1 >= rs[j].1 { rs.len() - 1 } else { j }
    }
}

/// The result of a quorum read of `key`: `None` when fewer replicas than the
/// read quorum answer, otherwise the value of the newest answer.
pub open spec fn quorum_read(nodes: Seq<QuorumNodeView>, key: Seq<char>, rq: usize) -> Option<Seq<char>> {
    let rs = read_responses(nodes, key, rq, nodes.len() as int);
    if rs.len() < rq || rs.len() == 0 { None } else { Some(rs[newest_index(rs)].0) }
}

/// A cluster of replicas with its quorum configuration.
#[derive(Debug, Clone)]
pub struct QuorumSystem {
    pub nodes: Vec<QuorumNode>,
    pub config: QuorumConfig,
}

fn make_nodes(n: usize) -> (v: Vec<QuorumNode>)
    ensures
        v@.len() == n,
        forall|i: int| 0 <= i < n ==> #[trigger] v@[i]@ == (QuorumNodeView {
            id: seq!['n'] + decimal(i as nat),
            data: Map::empty(),
            alive: true,
        }),
{
    let mut v: Vec<QuorumNode> = Vec::new();
    let mut i: usize = 0;
    while i < n
        invariant
            i <= n,
            v@.len() == i,
            forall|k: int| 0 <= k < i ==> #[trigger] v@[k]@ == (QuorumNodeView {
                id: seq!['n'] + decimal(k as nat),
                data: Map::empty(),
                alive: true,
            }),
        decreases n - i,
    {
        let name = indexed_name("n", i);
        proof {
            reveal_strlit("n");
        }
        v.push(QuorumNode::new(name));
        i = i + 1;
    }
    v
}

/// An alive replica with an empty id that stores nothing.
fn placeholder() -> (q: QuorumNode)
    ensures
        q@ == (QuorumNodeView { id: Seq::empty(), data: Map::empty(), alive: true }),
{
    QuorumNode::new(String::new())
}

impl QuorumSystem {
    /// `n` alive replicas named `n0`, `n1`, ..., with majority quorums for
    /// reads and writes.
    pub fn new(n: usize) -> (s: Self)
        ensures
            s.config.n == n,
            s.config.read_quorum == n / 2 + 1,
            s.config.write_quorum == n / 2 + 1,
            s.nodes@.len() == n,
            forall|i: int| 0 <= i < n ==> #[trigger] s.nodes@[i]@ == (QuorumNodeView {
                id: seq!['n'] + decimal(i as nat),
                data: Map::empty(),
                alive: true,
            }),
    {
        let w = n / 2 + 1;
        let r = n / 2 + 1;
        QuorumSystem { nodes: make_nodes(n), config: QuorumConfig::new(n, r, w) }
    }

    /// `n` alive replicas with the given quorums.
    pub fn with_quorums(n: usize, r: usize, w: usize) -> (s: Self)
        ensures
            s.config.n == n,
            s.config.read_quorum == r,
            s.config.write_quorum == w,
            s.nodes@.len() == n,
            forall|i: int| 0 <= i < n ==> #[trigger] s.nodes@[i]@ == (QuorumNodeView {
                id: seq!['n'] + decimal(i as nat),
                data: Map::empty(),
                alive: true,
            }),
    {
        QuorumSystem { nodes: make_nodes(n), config: QuorumConfig::new(n, r, w) }
    }

    /// Writes `value` under `key` with the next version to the first alive
    /// replicas, up to the write quorum; true when the quorum was reached.
    pub fn write(&mut self, key: &str, value: &str) -> (ok: bool)
        requires
            top_version(quorum_view(old(self).nodes@), key@) < u64::MAX,
        ensures
            final(self).config == old(self).config,
            quorum_view(final(self).nodes@) == quorum_write(quorum_view(old(self).nodes@), key@, value@, old(self).config.write_quorum),
            ok == (alive_before(quorum_view(old(self).nodes@), old(self).nodes@.len() as int) >= reach(old(self).config.write_quorum)),
    {
        let ghost v0 = quorum_view(self.nodes@);
        let mut top: u64 = 0;
        let mut i: usize = 0;
        while i < self.nodes.len()
            invariant
                i <= self.nodes@.len(),
                v0 == quorum_view(self.nodes@),
                top == top_version(v0.take(i as int), key@),
            decreases self.nodes@.len() - i,
        {
            proof {
                assert(v0.take(i as int + 1).drop_last() =~= v0.take(i as int));
                assert(v0.take(i as int + 1).last() == self.nodes@[i as int]@);
            }
            match self.nodes[i].data.get(key) {
                Some(p) => {
                    if p.1 > top {
                        top = p.1;
                    }
                },
                None => {},
            }
            i = i + 1;
        }
        proof {
            assert(v0.take(i as int) =~= v0);
        }
        let version = top + 1;
        let ghost target = quorum_write(v0, key@, value@, self.config.write_quorum);
        let ghost cfg = self.config;
        let mut written: usize = 0;
        let mut i: usize = 0;
        while i < self.nodes.len()
            invariant
                i <= self.nodes@.len(),
                self.nodes@.len() == v0.len(),
                self.config == cfg,
                cfg == old(self).config,
                v0 == quorum_view(old(self).nodes@),
                target == quorum_write(v0, key@, value@, cfg.write_quorum),
                version == top_version(v0, key@) + 1,
                written == alive_before(v0, i as int),
                written < reach(cfg.write_quorum),
                forall|k: int| 0 <= k < i ==> #[trigger] quorum_view(self.nodes@)[k] == target[k],
                forall|k: int| i <= k < v0.len() ==> #[trigger] quorum_view(self.nodes@)[k] == v0[k],
            decreases self.nodes@.len() - i,
        {
            if self.nodes[i].alive {
                let ghost before = self.nodes@;
                let mut slot = placeholder();
                self.nodes.set_and_swap(i, &mut slot);
                slot.data.insert(key.to_owned(), (value.to_owned(), version));
                self.nodes.set_and_swap(i, &mut slot);
                proof {
                    assert(quorum_view(before)[i as int] == v0[i as int]);
                    assert(before[i as int]@ == v0[i as int]);
                    assert(self.nodes@[i as int]@.data =~= v0[i as int].data.insert(key@, (value@, version)));
                    assert(in_quorum(v0, i as int, cfg.write_quorum));

                    assert(quorum_view(self.nodes@)[i as int] == target[i as int]);
                    assert forall|k: int| 0 <= k < self.nodes@.len() && k != i implies self.nodes@[k] == before[k] by {}
                    assert forall|k: int| 0 <= k < i + 1 implies #[trigger] quorum_view(self.nodes@)[k] == target[k] by {
                        if k < i {
                            assert(quorum_view(before)[k] == target[k]);
                            assert(self.nodes@[k] == before[k]);
                        }
                    }
                    assert forall|k: int| i + 1 <= k < v0.len() implies #[trigger] quorum_view(self.nodes@)[k] == v0[k] by {
                        assert(quorum_view(before)[k] == v0[k]);
                        assert(self.nodes@[k] == before[k]);
                    }
                }
                written = written + 1;
                if written >= self.config.write_quorum {
                    proof {
                        assert(alive_before(v0, i as int + 1) == written);
                        assert forall|k: int| 0 <= k < v0.len() implies #[trigger] quorum_view(self.nodes@)[k] == target[k] by {
                            if k > i {
                                lemma_alive_before_mono(v0, i as int + 1, k);
                                assert(quorum_view(self.nodes@)[k] == v0[k]);
                            }
                        }
                        assert(quorum_view(self.nodes@) =~= target);
                        lemma_alive_before_mono(v0, i as int + 1, v0.len() as int);
                    }
                    return true;
                }
            }
            proof {
                if !self.nodes@[i as int].alive {
                    assert(quorum_view(self.nodes@)[i as int] == v0[i as int]);
                    assert(!in_quorum(v0, i as int, cfg.write_quorum));
                }
            }
            i = i + 1;
        }
        proof {
            assert(quorum_view(self.nodes@) =~= target);
        }
        false
    }

    /// Reads `key` from the first alive replicas, up to the read quorum, and
    /// returns the value of the newest version among them; `None` when fewer
    /// than the read quorum answer.
    pub fn read(&self, key: &str) -> (r: Option<String>)
        ensures
            match r {
                Some(s) => quorum_read(quorum_view(self.nodes@), key@, self.config.read_quorum) == Some(s@),
                None => quorum_read(quorum_view(self.nodes@), key@, self.config.read_quorum) is None,
            },
    {
        let ghost v0 = quorum_view(self.nodes@);
        let ghost rq = self.config.read_quorum;
        let mut responses: Vec<(String, u64)> = Vec::new();
        let mut i: usize = 0;
        proof {
            assert(responses@.map_values(|p: (String, u64)| (p.0@, p.1)) =~= Seq::<(Seq<char>, u64)>::empty());
        }
        while i < self.nodes.len()
            invariant_except_break
                responses@.len() < reach(rq),
            invariant
                i <= self.nodes@.len(),
                v0 == quorum_view(self.nodes@),
                rq == self.config.read_quorum,
                responses@.map_values(|p: (String, u64)| (p.0@, p.1)) == read_responses(v0, key@, rq, i as int),
                responses@.len() == alive_before(v0, i as int),
            ensures
                responses@.map_values(|p: (String, u64)| (p.0@, p.1)) == read_responses(v0, key@, rq, v0.len() as int),
            decreases self.nodes@.len() - i,
        {
            let ghost before = responses@;
            if self.nodes[i].alive {
                match self.nodes[i].data.get(key) {
                    Some(p) => {
                        responses.push((p.0.clone(), p.1));
                    },
                    None => {
                        responses.push((String::new(), 0));
                    },
                }
                proof {
                    assert(responses@.map_values(|p: (String, u64)| (p.0@, p.1)) =~=
                        before.map_values(|p: (String, u64)| (p.0@, p.1)).push(response_of(v0[i as int], key@)));
                }
                if responses.len() >= self.config.read_quorum {
                    proof {
                        lemma_read_responses_stop(v0, key@, rq, i as int + 1, v0.len() as int);
                    }
                    i = i + 1;
                    break;
                }
            }
            i = i + 1;
        }
        let ghost rs = read_responses(v0, key@, rq, v0.len() as int);
        if responses.len() < self.config.read_quorum || responses.len() == 0 {
            return None;
        }
        let ghost rv = responses@.map_values(|p: (String, u64)| (p.0@, p.1));
        let mut best: usize = 0;
        let mut k: usize = 1;
        while k < responses.len()
            invariant
                1 <= k <= responses@.len(),
                rv == responses@.map_values(|p: (String, u64)| (p.0@, p.1)),
                best < k,
                best == newest_index(rv.take(k as int)),
            decreases responses@.len() - k,
        {
            proof {
                let t = rv.take(k as int + 1);
                assert(t.drop_last() =~= rv.take(k as int));
                assert(t[best as int] == rv[best as int]);
            }
            if responses[k].1 >= responses[best].1 {
                best = k;
            }
            k = k + 1;
        }
        proof {
            assert(rv.take(k as int) =~= rv);
        }
        Some(responses[best].0.clone())
    }

    /// Marks replica `idx` dead; an index out of range changes nothing.
    pub fn kill_node(&mut self, idx: usize)
        ensures
            final(self).config == old(self).config,
            final(self).nodes@.len() == old(self).nodes@.len(),
            quorum_view(final(self).nodes@) == (if idx < old(self).nodes@.len() {
                quorum_view(old(self).nodes@).update(idx as int, QuorumNodeView {
                    alive: false,
                    ..quorum_view(old(self).nodes@)[idx as int]
                })
            } else {
                quorum_view(old(self).nodes@)
            }),
            only_kills(quorum_view(old(self).nodes@), quorum_view(final(self).nodes@)),
    {
        if idx < self.nodes.len() {
            let ghost before = self.nodes@;
            let mut slot = placeholder();
            self.nodes.set_and_swap(idx, &mut slot);
            slot.alive = false;
            self.nodes.set_and_swap(idx, &mut slot);
            proof {
                assert(quorum_view(self.nodes@) =~= quorum_view(before).update(idx as int, QuorumNodeView {
                    alive: false,
                    ..quorum_view(before)[idx as int]
                }));
            }
        }
        proof {
            let a = quorum_view(old(self).nodes@);
            let b = quorum_view(self.nodes@);
            assert forall|i: int| #![trigger b[i]] 0 <= i < b.len() implies {
                &&& b[i].id == a[i].id
                &&& b[i].data == a[i].data
                &&& (b[i].alive ==> a[i].alive)
            } by {
                if idx < a.len() && i == idx {
                } else {
                    assert(b[i] == a[i]);
                }
            }
        }
    }

    /// The number of alive replicas.
    pub fn alive_count(&self) -> (c: usize)
        ensures
            c == alive_before(quorum_view(self.nodes@), self.nodes@.len() as int),
    {
        let ghost v0 = quorum_view(self.nodes@);
        let mut c: usize = 0;
        let mut i: usize = 0;
        while i < self.nodes.len()
            invariant
                i <= self.nodes@.len(),
                v0 == quorum_view(self.nodes@),
                c == alive_before(v0, i as int),
                c <= i,
            decreases self.nodes@.len() - i,
        {
            if self.nodes[i].alive {
                c = c + 1;
            }
            i = i + 1;
        }
        c
    }
}

/// Counting alive replicas never goes down as the prefix grows.
pub proof fn lemma_alive_before_mono(nodes: Seq<QuorumNodeView>, i: int, j: int)
    requires
        i <= j,
    ensures
        alive_before(nodes, i) <= alive_before(nodes, j),
    decreases j - i,
{
    if i < j {
        lemma_alive_before_mono(nodes, i, j - 1);
    }
}

/// Once the read quorum has answered, later replicas add no answer.
pub proof fn lemma_read_responses_stop(nodes: Seq<QuorumNodeView>, key: Seq<char>, rq: usize, i: int, j: int)
    requires
        alive_before(nodes, i) >= reach(rq),
        i <= j,
    ensures
        read_responses(nodes, key, rq, j) == read_responses(nodes, key, rq, i),
    decreases j - i,
{
    if i < j {
        lemma_read_responses_stop(nodes, key, rq, i, j - 1);
        lemma_alive_before_mono(nodes, i, j - 1);
    }
}

/// The replicas in `after` are those of `before` with some of them failed:
/// same ids and data, and none revived.
pub open spec fn only_kills(before: Seq<QuorumNodeView>, after: Seq<QuorumNodeView>) -> bool {
    &&& after.len() == before.len()
    &&& forall|i: int| #![trigger after[i]] 0 <= i < after.len() ==> {
        &&& after[i].id == before[i].id
        &&& after[i].data == before[i].data
        &&& (after[i].alive ==> before[i].alive)
    }
}

/// `x`, but at most `c`.
pub open spec fn capped(x: int, c: int) -> int {
    if x < c { x } else { c }
}

/// Failures compose: two rounds of failures are again only failures.
pub proof fn lemma_only_kills_trans(a: Seq<QuorumNodeView>, b: Seq<QuorumNodeView>, c: Seq<QuorumNodeView>)
    requires
        only_kills(a, b),
        only_kills(b, c),
    ensures
        only_kills(a, c),
{
    assert forall|i: int| #![trigger c[i]] 0 <= i < c.len() implies {
        &&& c[i].id == a[i].id
        &&& c[i].data == a[i].data
        &&& (c[i].alive ==> a[i].alive)
    } by {
        assert(c[i].id == b[i].id);
        assert(b[i].id == a[i].id);
    }
}

/// At most `i` of the first `i` replicas are alive.
proof fn lemma_alive_before_le(nodes: Seq<QuorumNodeView>, i: int)
    requires
        0 <= i,
    ensures
        0 <= alive_before(nodes, i) <= i,
    decreases i,
{
    if i > 0 {
        lemma_alive_before_le(nodes, i - 1);
    }
}

/// Every stored version of `key` is at most `top_version`.
proof fn lemma_top_version_bound(nodes: Seq<QuorumNodeView>, key: Seq<char>, i: int)
    requires
        0 <= i < nodes.len(),
        nodes[i].data.contains_key(key),
    ensures
        nodes[i].data[key].1 <= top_version(nodes, key),
    decreases nodes.len(),
{
    if i < nodes.len() - 1 {
        assert(nodes.drop_last()[i] == nodes[i]);
        lemma_top_version_bound(nodes.drop_last(), key, i);
    }
}

/// `top_version` is never negative.
proof fn lemma_top_version_nonneg(nodes: Seq<QuorumNodeView>, key: Seq<char>)
    ensures
        top_version(nodes, key) >= 0,
    decreases nodes.len(),
{
    if nodes.len() > 0 {
        lemma_top_version_nonneg(nodes.drop_last(), key);
    }
}

/// A read consults `min(alive, reach(rq))` replicas.
proof fn lemma_read_responses_len(nodes: Seq<QuorumNodeView>, key: Seq<char>, rq: usize, i: int)
    requires
        0 <= i <= nodes.len(),
    ensures
        read_responses(nodes, key, rq, i).len() == capped(alive_before(nodes, i), reach(rq)),
    decreases i,
{
    if i > 0 {
        lemma_read_responses_len(nodes, key, rq, i - 1);
    }
}

/// An answer that every replica's response satisfies is satisfied by every
/// answer a read collects: versions stay at most `top`, and an answer at
/// version `top` carries `value`.
proof fn lemma_read_responses_bounded(nodes: Seq<QuorumNodeView>, key: Seq<char>, rq: usize, i: int, top: u64, value: Seq<char>)
    requires
        0 <= i <= nodes.len(),
        forall|j: int| 0 <= j < nodes.len() ==> {
            let r = #[trigger] response_of(nodes[j], key);
            r.1 <= top && (r.1 == top ==> r.0 == value)
        },
    ensures
        forall|k: int| 0 <= k < read_responses(nodes, key, rq, i).len() ==> {
            let r = #[trigger] read_responses(nodes, key, rq, i)[k];
            r.1 <= top && (r.1 == top ==> r.0 == value)
        },
    decreases i,
{
    if i > 0 {
        lemma_read_responses_bounded(nodes, key, rq, i - 1, top, value);
        let rest = read_responses(nodes, key, rq, i - 1);
        let rs = read_responses(nodes, key, rq, i);
        assert forall|k: int| 0 <= k < rs.len() implies {
            let r = #[trigger] rs[k];
            r.1 <= top && (r.1 == top ==> r.0 == value)
        } by {
            if k < rest.len() {
                assert(rs[k] == rest[k]);
            } else {
                assert(rs[k] == response_of(nodes[i - 1], key));
            }
        }
    }
}

/// A replica inside the read quorum has its answer among the collected ones.
proof fn lemma_read_responses_contains(nodes: Seq<QuorumNodeView>, key: Seq<char>, rq: usize, i: int, j: int) -> (k: int)
    requires
        0 <= j < i <= nodes.len(),
        in_quorum(nodes, j, rq),
    ensures
        0 <= k < read_responses(nodes, key, rq, i).len(),
        read_responses(nodes, key, rq, i)[k] == response_of(nodes[j], key),
    decreases i,
{
    let rest = read_responses(nodes, key, rq, i - 1);
    if j == i - 1 {
        rest.len() as int
    } else {
        let k = lemma_read_responses_contains(nodes, key, rq, i - 1, j);
        if in_quorum(nodes, i - 1, rq) {
            assert(rest.push(response_of(nodes[i - 1], key))[k] == rest[k]);
        }
        k
    }
}

/// The newest answer has a version no lower than any other answer.
proof fn lemma_newest_index(rs: Seq<(Seq<char>, u64)>)
    requires
        rs.len() >= 1,
    ensures
        0 <= newest_index(rs) < rs.len(),
        forall|k: int| 0 <= k < rs.len() ==> #[trigger] rs[k].1 <= rs[newest_index(rs)].1,
    decreases rs.len(),
{
    if rs.len() > 1 {
        let d = rs.drop_last();
        lemma_newest_index(d);
        let j = newest_index(d);
        assert(d[j] == rs[j]);
        assert forall|k: int| 0 <= k < rs.len() implies #[trigger] rs[k].1 <= rs[newest_index(rs)].1 by {
            if k < rs.len() - 1 {
                assert(d[k] == rs[k]);
            }
        }
    }
}

/// Two quorums that share no replica among the first `i` together hold at
/// most `i` replicas there.
proof fn lemma_disjoint_quorums(a: Seq<QuorumNodeView>, b: Seq<QuorumNodeView>, qa: usize, qb: usize, i: int)
    requires
        0 <= i <= a.len(),
        a.len() == b.len(),
        forall|j: int| 0 <= j < i ==> !(#[trigger] in_quorum(a, j, qa) && in_quorum(b, j, qb)),
    ensures
        capped(alive_before(a, i), reach(qa)) + capped(alive_before(b, i), reach(qb)) <= i,
    decreases i,
{
    if i > 0 {
        lemma_disjoint_quorums(a, b, qa, qb, i - 1);
        assert(!(in_quorum(a, i - 1, qa) && in_quorum(b, i - 1, qb)));
    }
}

/// Some replica is alive and first among the alive ones.
proof fn lemma_first_alive(nodes: Seq<QuorumNodeView>, i: int) -> (j: int)
    requires
        0 <= i <= nodes.len(),
        alive_before(nodes, i) >= 1,
    ensures
        0 <= j < i,
        nodes[j].alive,
        alive_before(nodes, j) == 0,
    decreases i,
{
    if alive_before(nodes, i - 1) >= 1 {
        lemma_first_alive(nodes, i - 1)
    } else {
        lemma_alive_before_le(nodes, i - 1);
        i - 1
    }
}

/// A read over `later` that consults a replica `j` written by the quorum write
/// returns the written value whenever it returns anything.
proof fn lemma_read_sees_write(
    nodes: Seq<QuorumNodeView>,
    key: Seq<char>,
    value: Seq<char>,
    rq: usize,
    wq: usize,
    later: Seq<QuorumNodeView>,
    j: int,
)
    requires
        top_version(nodes, key) < u64::MAX,
        only_kills(quorum_write(nodes, key, value, wq), later),
        0 <= j < nodes.len(),
        in_quorum(nodes, j, wq),
        in_quorum(later, j, rq),
    ensures
        quorum_read(later, key, rq) == (if alive_before(later, later.len() as int) >= rq {
            Some(value)
        } else {
            None::<Seq<char>>
        }),
{
    let w = quorum_write(nodes, key, value, wq);
    let top = (top_version(nodes, key) + 1) as u64;
    let n = later.len() as int;
    lemma_top_version_nonneg(nodes, key);
    assert(top == top_version(nodes, key) + 1);
    assert forall|i: int| 0 <= i < n implies {
        let r = #[trigger] response_of(later[i], key);
        r.1 <= top && (r.1 == top ==> r.0 == value)
    } by {
        assert(later[i].data == w[i].data);
        if in_quorum(nodes, i, wq) {
            assert(w[i].data == nodes[i].data.insert(key, (value, top)));
        } else {
            assert(w[i] == nodes[i]);
        }
        if !in_quorum(nodes, i, wq) && nodes[i].data.contains_key(key) {
            lemma_top_version_bound(nodes, key, i);
        }
    }
    lemma_read_responses_bounded(later, key, rq, n, top, value);
    lemma_read_responses_len(later, key, rq, n);
    let rs = read_responses(later, key, rq, n);
    let k = lemma_read_responses_contains(later, key, rq, n, j);
    assert(later[j].data == w[j].data);
    assert(rs[k] == (value, top));
    lemma_newest_index(rs);
    let ni = newest_index(rs);
    assert(rs[k].1 <= rs[ni].1);
    assert(rs[ni].1 <= top && (rs[ni].1 == top ==> rs[ni].0 == value));
}

/// Read-your-write: right after a write of `value` under `key`, whether or
/// not it reached its quorum, a read returns `value` exactly when some
/// replica is alive and enough are alive to reach the read quorum, and
/// nothing otherwise. Reads and writes both begin at the first alive replica,
/// and a write that falls short has reached every alive replica, so this
/// holds for any quorum sizes.
pub proof fn law_read_own_write(nodes: Seq<QuorumNodeView>, key: Seq<char>, value: Seq<char>, rq: usize, wq: usize)
    requires
        top_version(nodes, key) < u64::MAX,
    ensures
        quorum_read(quorum_write(nodes, key, value, wq), key, rq) == (
            if alive_before(nodes, nodes.len() as int) >= rq && alive_before(nodes, nodes.len() as int) >= 1 {
                Some(value)
            } else {
                None::<Seq<char>>
            }),
{
    let w = quorum_write(nodes, key, value, wq);
    assert forall|i: int| 0 <= i <= nodes.len() implies #[trigger] alive_before(w, i) == alive_before(nodes, i) by {
        lemma_alive_before_same(nodes, w, i);
    }
    assert(alive_before(w, w.len() as int) == alive_before(nodes, nodes.len() as int));
    if alive_before(nodes, nodes.len() as int) >= 1 {
        let j = lemma_first_alive(nodes, nodes.len() as int);
        lemma_read_sees_write(nodes, key, value, rq, wq, w, j);
    } else {
        lemma_read_responses_len(w, key, rq, w.len() as int);
    }
}
/// Replicas with the same liveness, one by one, count the same alive ones.
proof fn lemma_alive_before_same(a: Seq<QuorumNodeView>, b: Seq<QuorumNodeView>, i: int)
    requires
        0 <= i <= a.len(),
        a.len() == b.len(),
        forall|k: int| 0 <= k < a.len() ==> #[trigger] a[k].alive == b[k].alive,
    ensures
        alive_before(a, i) == alive_before(b, i),
    decreases i,
{
    if i > 0 {
        lemma_alive_before_same(a, b, i - 1);
        assert(a[i - 1].alive == b[i - 1].alive);
    }
}

/// R + W > N: after a write of `value` under `key` that reached its write
/// quorum, and any replica failures after it, a read that still reaches its
/// read quorum returns `value`.
pub proof fn law_quorum_read_after_write(
    nodes: Seq<QuorumNodeView>,
    key: Seq<char>,
    value: Seq<char>,
    rq: usize,
    wq: usize,
    later: Seq<QuorumNodeView>,
)
    requires
        rq + wq > nodes.len(),
        top_version(nodes, key) < u64::MAX,
        alive_before(nodes, nodes.len() as int) >= reach(wq),
        only_kills(quorum_write(nodes, key, value, wq), later),
        alive_before(later, later.len() as int) >= rq,
    ensures
        quorum_read(later, key, rq) == Some(value),
{
    let w = quorum_write(nodes, key, value, wq);
    let n = nodes.len() as int;
    lemma_alive_before_le(nodes, n);
    lemma_alive_before_le(later, n);
    if forall|j: int| 0 <= j < n ==> !(#[trigger] in_quorum(later, j, rq) && in_quorum(nodes, j, wq)) {
        assert forall|j: int| 0 <= j < n implies !(#[trigger] in_quorum(later, j, rq) && in_quorum(w, j, wq)) by {
            assert(w[j].alive == nodes[j].alive);
            lemma_alive_before_same(nodes, w, j);
            assert(!(in_quorum(later, j, rq) && in_quorum(nodes, j, wq)));
        }
        lemma_disjoint_quorums(later, w, rq, wq, n);
        assert forall|k: int| 0 <= k < n implies #[trigger] nodes[k].alive == w[k].alive by {}
        lemma_alive_before_same(nodes, w, n);
        assert(false);
    }
    let j = choose|j: int| 0 <= j < n && #[trigger] in_quorum(later, j, rq) && in_quorum(nodes, j, wq);
    lemma_read_sees_write(nodes, key, value, rq, wq, later, j);
}

/// Fault tolerance: when the quorums are nonempty and at most `f` replicas
/// have failed, where `f` is within both fault tolerances (N - R and N - W),
/// a write reaches its quorum and a read of any key returns a value.
pub proof fn law_tolerated_failures_keep_service(nodes: Seq<QuorumNodeView>, rq: usize, wq: usize, f: int, key: Seq<char>)
    requires
        rq >= 1,
        wq >= 1,
        nodes.len() - rq >= f,
        nodes.len() - wq >= f,
        alive_before(nodes, nodes.len() as int) >= nodes.len() - f,
    ensures
        alive_before(nodes, nodes.len() as int) >= reach(wq),
        quorum_read(nodes, key, rq) is Some,
{
    lemma_read_responses_len(nodes, key, rq, nodes.len() as int);
}

} // verus!
