//! Push-pull gossip: nodes exchange the rumors they know until all know all.

use vstd::prelude::*;
use vstd::set_lib::{lemma_len_subset, lemma_subset_equality};
use crate::strmap::{StrMap, lists_map, entries_map, lemma_entries_prefix_step, lemma_listing_is_map,
    lemma_entries_empty_prefix, lemma_prefix_distinct};
use crate::naming::{decimal, indexed_name};

verus! {

/// A gossiping node: the rumors it knows, with their versions, and how many
/// exchanges it has taken part in.
#[derive(Debug, Clone)]
pub struct GossipNode {
    pub id: String,
    pub known_rumors: StrMap<u64>,
    pub round: u64,
}

#[verifier::ext_equal]
pub struct GossipNodeView {
    pub id: Seq<char>,
    pub known: Map<Seq<char>, u64>,
    pub round: u64,
}

impl View for GossipNode {
    type V = GossipNodeView;

    open spec fn view(&self) -> GossipNodeView {
        GossipNodeView { id: self.id@, known: self.known_rumors@, round: self.round }
    }
}

pub open spec fn gossip_view(v: Seq<GossipNode>) -> Seq<GossipNodeView> {
    v.map_values(|n: GossipNode| n@)
}

/// Two nodes after a push-pull exchange: each learns the rumors only the other
/// knew, keeps its own versions of the rest, and counts one more exchange.
pub open spec fn push_pull(a: GossipNodeView, b: GossipNodeView) -> (GossipNodeView, GossipNodeView) {
    (
        GossipNodeView { known: b.known.union_prefer_right(a.known), round: (a.round + 1) as u64, ..a },
        GossipNodeView { known: a.known.union_prefer_right(b.known), round: (b.round + 1) as u64, ..b },
    )
}

/// The rumors `a` knows that `b` does not.
pub open spec fn missing_from(a: Map<Seq<char>, u64>, b: Map<Seq<char>, u64>) -> Set<Seq<char>> {
    a.dom().difference(b.dom())
}

/// `a` with the entries of `b` whose keys `a` lacks; the keys of `a` keep their values.
pub fn union_keep(a: &StrMap<u64>, b: &StrMap<u64>) -> (r: StrMap<u64>)
    ensures
        r@ == b@.union_prefer_right(a@),
{
    let mut r = a.duplicate();
    let entries = b.entries();
    let mut i: usize = 0;
    proof {
        lemma_entries_empty_prefix(entries@);
        assert(r@ =~= Map::<Seq<char>, u64>::empty().union_prefer_right(a@));
    }
    while i < entries.len()
        invariant
            i <= entries@.len(),
            lists_map(entries@, b@),
            r@ == entries_map(entries@.take(i as int)).union_prefer_right(a@),
        decreases entries@.len() - i,
    {
        proof {
            lemma_entries_prefix_step(entries@, i as int);
        }
        let key = &entries[i].0;
        if !a.contains_key(key.as_str()) {
            r.insert(key.clone(), entries[i].1);
        }
        proof {
            let p = entries_map(entries@.take(i as int));
            assert(r@ =~= p.insert(key@, entries@[i as int].1).union_prefer_right(a@));
        }
        i = i + 1;
    }
    proof {
        lemma_listing_is_map(entries@, b@);
    }
    r
}

impl GossipNode {
    /// A node that knows no rumor.
    pub fn new(id: String) -> (n: Self)
        ensures
            n@ == (GossipNodeView { id: id@, known: Map::empty(), round: 0 }),
    {
        GossipNode { id, known_rumors: StrMap::new(), round: 0 }
    }

    /// Learns `rumor_id` at version 1, unless it is already known.
    pub fn add_rumor(&mut self, rumor_id: &str)
        ensures
            final(self)@ == (GossipNodeView {
                known: if old(self)@.known.contains_key(rumor_id@) {
                    old(self)@.known
                } else {
                    old(self)@.known.insert(rumor_id@, 1)
                },
                ..old(self)@
            }),
    {
        if !self.known_rumors.contains_key(rumor_id) {
            self.known_rumors.insert(rumor_id.to_owned(), 1);
        }
    }

    /// Whether the node knows `rumor_id`.
    pub fn has_rumor(&self, rumor_id: &str) -> (b: bool)
        ensures
            b == self@.known.contains_key(rumor_id@),
    {
        self.known_rumors.contains_key(rumor_id)
    }

    /// A push-pull exchange with `other`; returns how many rumors were sent
    /// to `other` and how many were received from it.
    pub fn exchange(&mut self, other: &mut GossipNode) -> (counts: (usize, usize))
        requires
            old(self).round < u64::MAX,
            old(other).round < u64::MAX,
        ensures
            (final(self)@, final(other)@) == push_pull(old(self)@, old(other)@),
            counts.0 == missing_from(old(self)@.known, old(other)@.known).len(),
            counts.1 == missing_from(old(other)@.known, old(self)@.known).len(),
    {
        let ghost a0 = self@.known;
        let ghost b0 = other@.known;
        let ghost sv = push_pull(self@, other@).0;
        let ghost ov = push_pull(self@, other@).1;
        self.round = self.round + 1;
        other.round = other.round + 1;
        let mut sent: usize = 0;
        let mut received: usize = 0;
        // Push to other.
        let entries = self.known_rumors.entries();
        let mut i: usize = 0;
        proof {
            lemma_entries_empty_prefix(entries@);
            assert(other.known_rumors@ =~= entries_map(entries@.take(0)).union_prefer_right(b0));
            assert(missing_from(entries_map(entries@.take(0)), b0) =~= Set::<Seq<char>>::empty());
        }
        while i < entries.len()
            invariant
                i <= entries@.len(),
                lists_map(entries@, a0),
                self.known_rumors@ == a0,
                other.known_rumors@ == entries_map(entries@.take(i as int)).union_prefer_right(b0),
                sent == missing_from(entries_map(entries@.take(i as int)), b0).len(),
                sent <= i,
                self.id@ == sv.id && self.round == sv.round,
                other.id@ == ov.id && other.round == ov.round,
            decreases entries@.len() - i,
        {
            proof {
                lemma_entries_prefix_step(entries@, i as int);
                lemma_prefix_distinct(entries@, i as int);
            }
            let key = &entries[i].0;
            let ghost p = entries_map(entries@.take(i as int));
            let ghost q = entries_map(entries@.take(i as int + 1));
            if !other.known_rumors.contains_key(key.as_str()) {
                other.known_rumors.insert(key.clone(), entries[i].1);
                proof {
                    assert(missing_from(q, b0) =~= missing_from(p, b0).insert(key@));
                    assert(!missing_from(p, b0).contains(key@));
                    assert(p.dom().finite());
                    assert(missing_from(p, b0).finite());
                }
                sent = sent + 1;
            } else {
                proof {
                    assert(missing_from(q, b0) =~= missing_from(p, b0));
                }
            }
            proof {
                assert(other.known_rumors@ =~= q.union_prefer_right(b0));
            }
            i = i + 1;
        }
        proof {
            lemma_listing_is_map(entries@, a0);
        }
        // Pull from other.
        let ghost b1 = other.known_rumors@;
        let entries = other.known_rumors.entries();
        let mut i: usize = 0;
        proof {
            lemma_entries_empty_prefix(entries@);
            assert(self.known_rumors@ =~= entries_map(entries@.take(0)).union_prefer_right(a0));
            assert(missing_from(entries_map(entries@.take(0)), a0) =~= Set::<Seq<char>>::empty());
        }
        while i < entries.len()
            invariant
                i <= entries@.len(),
                lists_map(entries@, b1),
                other.known_rumors@ == b1,
                self.known_rumors@ == entries_map(entries@.take(i as int)).union_prefer_right(a0),
                received == missing_from(entries_map(entries@.take(i as int)), a0).len(),
                received <= i,
                self.id@ == sv.id && self.round == sv.round,
                other.id@ == ov.id && other.round == ov.round,
            decreases entries@.len() - i,
        {
            proof {
                lemma_entries_prefix_step(entries@, i as int);
                lemma_prefix_distinct(entries@, i as int);
            }
            let key = &entries[i].0;
            let ghost p = entries_map(entries@.take(i as int));
            let ghost q = entries_map(entries@.take(i as int + 1));
            if !self.known_rumors.contains_key(key.as_str()) {
                self.known_rumors.insert(key.clone(), entries[i].1);
                proof {
                    assert(missing_from(q, a0) =~= missing_from(p, a0).insert(key@));
                    assert(!missing_from(p, a0).contains(key@));
                    assert(missing_from(p, a0).finite());
                }
                received = received + 1;
            } else {
                proof {
                    assert(missing_from(q, a0) =~= missing_from(p, a0));
                }
            }
            proof {
                assert(self.known_rumors@ =~= q.union_prefer_right(a0));
            }
            i = i + 1;
        }
        proof {
            lemma_listing_is_map(entries@, b1);
            assert(missing_from(b1, a0) =~= missing_from(b0, a0));
            assert(b1.union_prefer_right(a0) =~= b0.union_prefer_right(a0));
        }
        (sent, received)
    }
}


/// The number of peers a node can pick from among `n` nodes (at least 1).
pub open spec fn gossip_span(n: int) -> int {
    if n - 1 > 1 { n - 1 } else { 1 }
}

/// The `c`-th peer that node `i` gossips with in a round: the peers follow
/// it round the ring, starting at an offset set by its exchange count.
pub open spec fn gossip_partner(nodes: Seq<GossipNodeView>, i: int, c: int) -> int {
    let n = nodes.len() as int;
    (i + 1 + ((nodes[i].round as usize) as int + 1 + c) % gossip_span(n)) % n
}

/// How many peers each node gossips with in a round: `fanout`, but no more
/// than there are peers to pick.
pub open spec fn peer_count(n: int, fanout: int) -> int {
    if fanout < gossip_span(n) { fanout } else { gossip_span(n) }
}

/// The exchanges of node `i` with its first `c` peers, skipping itself.
pub open spec fn partner_pairs(nodes: Seq<GossipNodeView>, i: int, c: int) -> Seq<(int, int)>
    decreases c,
{
    if c <= 0 {
        Seq::empty()
    } else {
        let rest = partner_pairs(nodes, i, c - 1);
        let j = gossip_partner(nodes, i, c - 1);
        if j != i { rest.push((i, j)) } else { rest }
    }
}

/// The exchanges of a round for the first `i` nodes: each node exchanges with
/// `peer_count` distinct peers in turn.
pub open spec fn gossip_pairs(nodes: Seq<GossipNodeView>, fanout: int, i: int) -> Seq<(int, int)>
    decreases i,
{
    if i <= 0 {
        Seq::empty()
    } else {
        gossip_pairs(nodes, fanout, i - 1) + partner_pairs(nodes, i - 1, peer_count(nodes.len() as int, fanout))
    }
}

/// The nodes after nodes `i` and `j` exchange.
pub open spec fn exchange_pair(nodes: Seq<GossipNodeView>, i: int, j: int) -> Seq<GossipNodeView> {
    if 0 <= i < nodes.len() && 0 <= j < nodes.len() {
        let (a, b) = push_pull(nodes[i], nodes[j]);
        nodes.update(i, a).update(j, b)
    } else {
        nodes
    }
}

/// The nodes after the exchanges, in order.
pub open spec fn apply_pairs(nodes: Seq<GossipNodeView>, ps: Seq<(int, int)>) -> Seq<GossipNodeView>
    decreases ps.len(),
{
    if ps.len() == 0 {
        nodes
    } else {
        exchange_pair(apply_pairs(nodes, ps.drop_last()), ps.last().0, ps.last().1)
    }
}

/// Every rumor that some node knows.
pub open spec fn all_rumors(nodes: Seq<GossipNodeView>) -> Set<Seq<char>>
    decreases nodes.len(),
{
    if nodes.len() == 0 {
        Set::empty()
    } else {
        all_rumors(nodes.drop_last()).union(nodes.last().known.dom())
    }
}

/// The number of nodes that know at least `total` rumors.
pub open spec fn informed_count(nodes: Seq<GossipNodeView>, total: int) -> int
    decreases nodes.len(),
{
    if nodes.len() == 0 {
        0
    } else {
        informed_count(nodes.drop_last(), total) + if nodes.last().known.len() >= total { 1int } else { 0int }
    }
}

/// One round of gossip, and the number of nodes that then know every rumor.
pub open spec fn gossip_round(nodes: Seq<GossipNodeView>, fanout: int) -> (Seq<GossipNodeView>, int) {
    let ns = apply_pairs(nodes, gossip_pairs(nodes, fanout, nodes.len() as int));
    (ns, informed_count(ns, all_rumors(ns).len() as int))
}

/// Rounds from round `done` on, until every node knows every rumor or `max`
/// rounds have run; the nodes then, and the number of rounds reported.
pub open spec fn gossip_converge(nodes: Seq<GossipNodeView>, fanout: int, done: int, max: int) -> (Seq<GossipNodeView>, int)
    decreases max - done,
{
    if done >= max {
        (nodes, max)
    } else {
        let (ns, informed) = gossip_round(nodes, fanout);
        if informed == ns.len() {
            (ns, done + 1)
        } else {
            gossip_converge(ns, fanout, done + 1, max)
        }
    }
}

/// Every node's exchange count stays within `u64` through one round.
pub open spec fn round_fits(nodes: Seq<GossipNodeView>, fanout: int) -> bool {
    forall|k: int| 0 <= k < nodes.len() ==> #[trigger] nodes[k].round + fanout * nodes.len() <= u64::MAX
}

/// Every round that gossip until convergence runs, from round `done` on,
/// keeps the exchange counts within `u64`.
pub open spec fn converge_fits(nodes: Seq<GossipNodeView>, fanout: int, done: int, max: int) -> bool
    decreases max - done,
{
    if done >= max {
        true
    } else {
        &&& round_fits(nodes, fanout)
        &&& {
            let (ns, informed) = gossip_round(nodes, fanout);
            informed == ns.len() || converge_fits(ns, fanout, done + 1, max)
        }
    }
}

pub open spec fn pairs_view(v: Seq<(usize, usize)>) -> Seq<(int, int)> {
    v.map_values(|p: (usize, usize)| (p.0 as int, p.1 as int))
}

pub proof fn lemma_apply_pairs_len(nodes: Seq<GossipNodeView>, ps: Seq<(int, int)>)
    ensures
        apply_pairs(nodes, ps).len() == nodes.len(),
    decreases ps.len(),
{
    if ps.len() > 0 {
        lemma_apply_pairs_len(nodes, ps.drop_last());
    }
}

/// A network of gossiping nodes, each contacting `fanout` peers per round.
#[derive(Debug, Clone)]
pub struct GossipNetwork {
    pub nodes: Vec<GossipNode>,
    pub fanout: usize,
}

/// The `c`-th peer of node `i` among `n` nodes, given its exchange count.
fn partner_of(i: usize, n: usize, round: u64, c: usize) -> (j: usize)
    requires
        i < n,
        c < gossip_span(n as int),
    ensures
        j < n,
        j as int == (i + 1 + ((round as usize) as int + 1 + c) % gossip_span(n as int)) % (n as int),
{
    let m: usize = if n - 1 > 1 { n - 1 } else { 1 };
    let r: usize = round as usize;
    let x: usize = ((r % m) + 1) % m;
    proof {
        vstd::arithmetic::div_mod::lemma_add_mod_noop(r as int, 1, m as int);
        if m > 1 {
            vstd::arithmetic::div_mod::lemma_small_mod(1, m as nat);
        }
        vstd::arithmetic::div_mod::lemma_small_mod(x as nat, m as nat + 1);
    }
    let off: usize = if c >= m - x { c - (m - x) } else { x + c };
    proof {
        vstd::arithmetic::div_mod::lemma_add_mod_noop(r + 1, c as int, m as int);
        vstd::arithmetic::div_mod::lemma_small_mod(c as nat, m as nat);
        if c >= m - x {
            vstd::arithmetic::div_mod::lemma_mod_add_multiples_vanish(off as int, m as int);
            vstd::arithmetic::div_mod::lemma_small_mod(off as nat, m as nat);
        } else {
            vstd::arithmetic::div_mod::lemma_small_mod(off as nat, m as nat);
        }
        assert(off as int == (r + 1 + c) % (m as int));
    }
    let y: usize = if i + 1 == n { 0 } else { i + 1 };
    let j: usize = if off >= n - y { off - (n - y) } else { y + off };
    proof {
        let t = i + 1 + off;
        if i + 1 == n {
            vstd::arithmetic::div_mod::lemma_mod_add_multiples_vanish(off as int, n as int);
            vstd::arithmetic::div_mod::lemma_small_mod(off as nat, n as nat);
        } else if off >= n - y {
            vstd::arithmetic::div_mod::lemma_mod_add_multiples_vanish((t - n) as int, n as int);
            vstd::arithmetic::div_mod::lemma_small_mod((t - n) as nat, n as nat);
        } else {
            vstd::arithmetic::div_mod::lemma_small_mod(t as nat, n as nat);
        }
    }
    j
}

/// A node with an empty id that knows no rumor and has made no exchange.
fn placeholder() -> (n: GossipNode)
    ensures
        n@ == (GossipNodeView { id: Seq::empty(), known: Map::empty(), round: 0 }),
{
    GossipNode::new(String::new())
}

impl GossipNetwork {
    /// `node_count` nodes named `n0`, `n1`, ..., knowing no rumor.
    pub fn new(node_count: usize, fanout: usize) -> (net: Self)
        ensures
            net.fanout == fanout,
            net.nodes@.len() == node_count,
            forall|i: int| 0 <= i < node_count ==> #[trigger] net.nodes@[i]@ == (GossipNodeView {
                id: seq!['n'] + decimal(i as nat),
                known: Map::empty(),
                round: 0,
            }),
    {
        let mut nodes: Vec<GossipNode> = Vec::new();
        let mut i: usize = 0;
        while i < node_count
            invariant
                i <= node_count,
                nodes@.len() == i,
                forall|k: int| 0 <= k < i ==> #[trigger] nodes@[k]@ == (GossipNodeView {
                    id: seq!['n'] + decimal(k as nat),
                    known: Map::empty(),
                    round: 0,
                }),
            decreases node_count - i,
        {
            let name = indexed_name("n", i);
            proof {
                reveal_strlit("n");
            }
            nodes.push(GossipNode::new(name));
            i = i + 1;
        }
        GossipNetwork { nodes, fanout }
    }

    /// Plants `rumor_id` at node `node_idx`.
    pub fn seed_rumor(&mut self, node_idx: usize, rumor_id: &str)
        requires
            node_idx < old(self).nodes@.len(),
        ensures
            final(self).fanout == old(self).fanout,
            final(self).nodes@.len() == old(self).nodes@.len(),
            forall|k: int| 0 <= k < old(self).nodes@.len() && k != node_idx ==> #[trigger] final(self).nodes@[k] == old(self).nodes@[k],
            final(self).nodes@[node_idx as int]@ == (GossipNodeView {
                known: if old(self).nodes@[node_idx as int]@.known.contains_key(rumor_id@) {
                    old(self).nodes@[node_idx as int]@.known
                } else {
                    old(self).nodes@[node_idx as int]@.known.insert(rumor_id@, 1)
                },
                ..old(self).nodes@[node_idx as int]@
            }),
    {
        let mut slot = placeholder();
        self.nodes.set_and_swap(node_idx, &mut slot);
        slot.add_rumor(rumor_id);
        self.nodes.set_and_swap(node_idx, &mut slot);
    }

    /// The number of distinct rumors in the network, and the number of nodes
    /// that know at least that many.
    pub fn rumor_census(&self) -> (r: (usize, usize))
        ensures
            r.0 == all_rumors(gossip_view(self.nodes@)).len(),
            r.1 == informed_count(gossip_view(self.nodes@), all_rumors(gossip_view(self.nodes@)).len() as int),
            all_rumors(gossip_view(self.nodes@)).finite(),
    {
        let ghost v = gossip_view(self.nodes@);
        let mut all: StrMap<u64> = StrMap::new();
        let mut k: usize = 0;
        proof {
            assert(v.take(0) =~= Seq::<GossipNodeView>::empty());
            assert(all@.dom() =~= all_rumors(v.take(0)));
        }
        while k < self.nodes.len()
            invariant
                k <= self.nodes@.len(),
                v == gossip_view(self.nodes@),
                all@.dom() == all_rumors(v.take(k as int)),
            decreases self.nodes@.len() - k,
        {
            all = union_keep(&all, &self.nodes[k].known_rumors);
            proof {
                assert(v.take(k as int + 1).drop_last() =~= v.take(k as int));
                assert(all@.dom() =~= all_rumors(v.take(k as int + 1)));
            }
            k = k + 1;
        }
        proof {
            assert(v.take(k as int) =~= v);
        }
        let total = all.len();
        let mut informed: usize = 0;
        let mut k: usize = 0;
        while k < self.nodes.len()
            invariant
                k <= self.nodes@.len(),
                v == gossip_view(self.nodes@),
                total == all_rumors(v).len(),
                informed == informed_count(v.take(k as int), total as int),
                informed <= k,
            decreases self.nodes@.len() - k,
        {
            proof {
                assert(v.take(k as int + 1).drop_last() =~= v.take(k as int));
            }
            if self.nodes[k].known_rumors.len() >= total {
                informed = informed + 1;
            }
            k = k + 1;
        }
        proof {
            assert(v.take(k as int) =~= v);
        }
        (total, informed)
    }

    /// One round of gossip: each node exchanges with `fanout` distinct peers
    /// (all the others, when there are fewer), picked round the ring from an
    /// offset set by its exchange count; returns the number of nodes that
    /// then know every rumor.
    pub fn round(&mut self) -> (informed: usize)
        requires
            forall|k: int| 0 <= k < old(self).nodes@.len() ==>
                #[trigger] old(self).nodes@[k].round + old(self).fanout * old(self).nodes@.len() <= u64::MAX,
        ensures
            final(self).fanout == old(self).fanout,
            final(self).nodes@.len() == old(self).nodes@.len(),
            (gossip_view(final(self).nodes@), informed as int) == gossip_round(gossip_view(old(self).nodes@), old(self).fanout as int),
            forall|k: int| 0 <= k < old(self).nodes@.len() ==>
                #[trigger] final(self).nodes@[k].round <= old(self).nodes@[k].round + old(self).fanout * old(self).nodes@.len(),
    {
        let ghost v0 = gossip_view(self.nodes@);
        let ghost f0 = self.fanout;
        let n = self.nodes.len();
        let ghost budget: int = self.fanout * n;
        let mut pairs: Vec<(usize, usize)> = Vec::new();
        let mut i: usize = 0;
        proof {
            assert(pairs_view(pairs@) =~= Seq::<(int, int)>::empty());
        }
        while i < n
            invariant
                i <= n,
                n == self.nodes@.len(),
                v0 == gossip_view(self.nodes@),
                budget == self.fanout * n,
                pairs_view(pairs@) == gossip_pairs(v0, self.fanout as int, i as int),
                pairs@.len() <= self.fanout * i,
                forall|t: int| 0 <= t < pairs@.len() ==> (#[trigger] pairs@[t]).0 < n && pairs@[t].1 < n && pairs@[t].0 != pairs@[t].1,
            decreases n - i,
        {
            let m: usize = if n - 1 > 1 { n - 1 } else { 1 };
            let count: usize = if self.fanout < m { self.fanout } else { m };
            let ghost rest = pairs@;
            let mut c: usize = 0;
            while c < count
                invariant
                    c <= count,
                    i < n,
                    n == self.nodes@.len(),
                    v0 == gossip_view(self.nodes@),
                    m == gossip_span(n as int),
                    count == peer_count(n as int, self.fanout as int),
                    count <= self.fanout,
                    pairs@.len() <= rest.len() + c,
                    pairs_view(pairs@) == pairs_view(rest) + partner_pairs(v0, i as int, c as int),
                    forall|t: int| 0 <= t < pairs@.len() ==> (#[trigger] pairs@[t]).0 < n && pairs@[t].1 < n && pairs@[t].0 != pairs@[t].1,
                decreases count - c,
            {
                let j = partner_of(i, n, self.nodes[i].round, c);
                proof {
                    assert(gossip_partner(v0, i as int, c as int) == j);
                }
                if j != i {
                    let ghost before = pairs@;
                    pairs.push((i, j));
                    proof {
                        assert(pairs_view(pairs@) =~= pairs_view(before).push((i as int, j as int)));
                    }
                }
                proof {
                    assert(pairs_view(rest) + partner_pairs(v0, i as int, c as int + 1) =~=
                        if j != i {
                            (pairs_view(rest) + partner_pairs(v0, i as int, c as int)).push((i as int, j as int))
                        } else {
                            pairs_view(rest) + partner_pairs(v0, i as int, c as int)
                        });
                }
                c = c + 1;
            }
            proof {
                assert(pairs_view(pairs@) =~= gossip_pairs(v0, self.fanout as int, i as int + 1));
                assert(self.fanout * (i + 1) == self.fanout * i + self.fanout) by (nonlinear_arith);
            }
            i = i + 1;
        }
        proof {
            assert(self.fanout * n == budget);
        }
        let ghost pv = pairs_view(pairs@);
        let mut t: usize = 0;
        proof {
            assert(pv.take(0) =~= Seq::<(int, int)>::empty());
        }
        while t < pairs.len()
            invariant
                t <= pairs@.len(),
                self.fanout == f0,
                pairs@.len() <= budget,
                n == self.nodes@.len(),
                pv == pairs_view(pairs@),
                gossip_view(self.nodes@) == apply_pairs(v0, pv.take(t as int)),
                forall|k: int| 0 <= k < n ==> #[trigger] self.nodes@[k].round <= v0[k].round + t,
                forall|k: int| 0 <= k < n ==> #[trigger] v0[k].round + budget <= u64::MAX,
                forall|q: int| 0 <= q < pairs@.len() ==> (#[trigger] pairs@[q]).0 < n && pairs@[q].1 < n && pairs@[q].0 != pairs@[q].1,
            decreases pairs@.len() - t,
        {
            let (i, j) = pairs[t];
            let ghost before = gossip_view(self.nodes@);
            proof {
                assert(pv.take(t as int + 1).drop_last() =~= pv.take(t as int));
                assert(pv.take(t as int + 1).last() == (i as int, j as int));
                lemma_apply_pairs_len(v0, pv.take(t as int));
                assert(v0.len() == n);
            }
            let ki = union_keep(&self.nodes[i].known_rumors, &self.nodes[j].known_rumors);
            let kj = union_keep(&self.nodes[j].known_rumors, &self.nodes[i].known_rumors);
            let mut slot = placeholder();
            self.nodes.set_and_swap(i, &mut slot);
            slot.known_rumors = ki;
            slot.round = slot.round + 1;
            self.nodes.set_and_swap(i, &mut slot);
            let mut slot = placeholder();
            self.nodes.set_and_swap(j, &mut slot);
            slot.known_rumors = kj;
            slot.round = slot.round + 1;
            self.nodes.set_and_swap(j, &mut slot);
            proof {
                assert(gossip_view(self.nodes@) =~= exchange_pair(before, i as int, j as int));
            }
            t = t + 1;
        }
        proof {
            assert(pv.take(t as int) =~= pv);
        }
        let (_, informed) = self.rumor_census();
        informed
    }

    /// Runs rounds until every node knows every rumor, returning the number of
    /// rounds run, or `max_rounds` when that never happens within them.
    pub fn run_until_convergence(&mut self, max_rounds: usize) -> (rounds: usize)
        requires
            converge_fits(gossip_view(old(self).nodes@), old(self).fanout as int, 0, max_rounds as int),
        ensures
            final(self).fanout == old(self).fanout,
            (gossip_view(final(self).nodes@), rounds as int) == gossip_converge(gossip_view(old(self).nodes@), old(self).fanout as int, 0, max_rounds as int),
    {
        let ghost v0 = gossip_view(self.nodes@);
        let ghost f0 = self.fanout;
        let mut r: usize = 0;
        while r < max_rounds
            invariant
                r <= max_rounds,
                self.fanout == f0,
                f0 == old(self).fanout,
                v0 == gossip_view(old(self).nodes@),
                gossip_converge(v0, self.fanout as int, 0, max_rounds as int)
                    == gossip_converge(gossip_view(self.nodes@), self.fanout as int, r as int, max_rounds as int),
                converge_fits(gossip_view(self.nodes@), self.fanout as int, r as int, max_rounds as int),
            decreases max_rounds - r,
        {
            proof {
                let v = gossip_view(self.nodes@);
                assert forall|k: int| 0 <= k < self.nodes@.len() implies
                    #[trigger] self.nodes@[k].round + self.fanout * self.nodes@.len() <= u64::MAX by {
                    assert(v[k].round == self.nodes@[k].round);
                }
            }
            let informed = self.round();
            if informed == self.nodes.len() {
                return r + 1;
            }
            r = r + 1;
        }
        max_rounds
    }
}

/// Every node's rumors form a finite set.
pub open spec fn finite_rumors(nodes: Seq<GossipNodeView>) -> bool {
    forall|i: int| 0 <= i < nodes.len() ==> (#[trigger] nodes[i]).known.dom().finite()
}

/// Every node knows every rumor that some node knows.
pub open spec fn knows_all(nodes: Seq<GossipNodeView>) -> bool {
    forall|i: int| 0 <= i < nodes.len() ==> (#[trigger] nodes[i]).known.dom() == all_rumors(nodes)
}

/// `after` holds the same nodes as `before`, each knowing at least what it
/// knew, at the versions it knew, and knowing only rumors that some node of
/// `before` knew.
pub open spec fn rumors_grow(before: Seq<GossipNodeView>, after: Seq<GossipNodeView>) -> bool {
    &&& after.len() == before.len()
    &&& forall|i: int| 0 <= i < before.len() ==> before[i].known.dom().subset_of((#[trigger] after[i]).known.dom())
    &&& forall|i: int, x: Seq<char>| 0 <= i < before.len() && #[trigger] before[i].known.contains_key(x) ==>
        after[i].known[x] == before[i].known[x]
    &&& forall|i: int, x: Seq<char>| 0 <= i < after.len() && #[trigger] after[i].known.contains_key(x) ==>
        all_rumors(before).contains(x)
}

/// A rumor is known in the network exactly when some node knows it.
proof fn lemma_all_rumors_has(nodes: Seq<GossipNodeView>, x: Seq<char>)
    ensures
        all_rumors(nodes).contains(x) <==> exists|i: int| 0 <= i < nodes.len() && (#[trigger] nodes[i]).known.contains_key(x),
    decreases nodes.len(),
{
    if nodes.len() > 0 {
        let d = nodes.drop_last();
        lemma_all_rumors_has(d, x);
        if all_rumors(d).contains(x) {
            let i = choose|i: int| 0 <= i < d.len() && (#[trigger] d[i]).known.contains_key(x);
            assert(nodes[i] == d[i]);
        }
        if exists|i: int| 0 <= i < nodes.len() && (#[trigger] nodes[i]).known.contains_key(x) {
            let i = choose|i: int| 0 <= i < nodes.len() && (#[trigger] nodes[i]).known.contains_key(x);
            if i < nodes.len() - 1 {
                assert(d[i] == nodes[i]);
            }
        }
    }
}

/// With finitely many rumors per node, the network knows finitely many.
proof fn lemma_all_rumors_finite(nodes: Seq<GossipNodeView>)
    requires
        finite_rumors(nodes),
    ensures
        all_rumors(nodes).finite(),
    decreases nodes.len(),
{
    if nodes.len() > 0 {
        let d = nodes.drop_last();
        assert forall|i: int| 0 <= i < d.len() implies (#[trigger] d[i]).known.dom().finite() by {
            assert(d[i] == nodes[i]);
        }
        lemma_all_rumors_finite(d);
        assert(nodes[nodes.len() - 1] == nodes.last());
    }
}

/// Growth composes, and a network that only grew knows the same rumors.
proof fn lemma_rumors_grow_trans(a: Seq<GossipNodeView>, b: Seq<GossipNodeView>, c: Seq<GossipNodeView>)
    requires
        rumors_grow(a, b),
        rumors_grow(b, c),
    ensures
        rumors_grow(a, c),
        all_rumors(c) == all_rumors(a),
{
    lemma_rumors_grow_same(a, b);
    lemma_rumors_grow_same(b, c);
    assert forall|i: int| 0 <= i < a.len() implies a[i].known.dom().subset_of((#[trigger] c[i]).known.dom()) by {
        assert(a[i].known.dom().subset_of(b[i].known.dom()));
        assert(b[i].known.dom().subset_of(c[i].known.dom()));
    }
    assert forall|i: int, x: Seq<char>| 0 <= i < a.len() && #[trigger] a[i].known.contains_key(x) implies
        c[i].known[x] == a[i].known[x] by {
        assert(a[i].known.dom().subset_of(b[i].known.dom()));
        assert(b[i].known.contains_key(x));
    }
}

/// A network that only grew knows exactly the rumors it knew.
proof fn lemma_rumors_grow_same(a: Seq<GossipNodeView>, b: Seq<GossipNodeView>)
    requires
        rumors_grow(a, b),
    ensures
        all_rumors(b) == all_rumors(a),
{
    assert forall|x: Seq<char>| all_rumors(b).contains(x) <==> all_rumors(a).contains(x) by {
        lemma_all_rumors_has(a, x);
        lemma_all_rumors_has(b, x);
        if all_rumors(a).contains(x) {
            let i = choose|i: int| 0 <= i < a.len() && (#[trigger] a[i]).known.contains_key(x);
            assert(a[i].known.dom().subset_of(b[i].known.dom()));
            assert(b[i].known.contains_key(x));
        }
        if all_rumors(b).contains(x) {
            let i = choose|i: int| 0 <= i < b.len() && (#[trigger] b[i]).known.contains_key(x);
        }
    }
    assert(all_rumors(b) =~= all_rumors(a));
}

/// An exchange only spreads rumors, and keeps each node's rumors finite.
proof fn lemma_exchange_pair_grows(nodes: Seq<GossipNodeView>, i: int, j: int)
    requires
        finite_rumors(nodes),
    ensures
        rumors_grow(nodes, exchange_pair(nodes, i, j)),
        finite_rumors(exchange_pair(nodes, i, j)),
{
    let r = exchange_pair(nodes, i, j);
    assert forall|k: int, x: Seq<char>| 0 <= k < r.len() && #[trigger] r[k].known.contains_key(x) implies
        all_rumors(nodes).contains(x) by {
        lemma_all_rumors_has(nodes, x);
        if nodes[k].known.contains_key(x) {
        } else if 0 <= i < nodes.len() && nodes[i].known.contains_key(x) {
        } else {
            assert(nodes[j].known.contains_key(x));
        }
    }
    assert forall|k: int| 0 <= k < nodes.len() implies nodes[k].known.dom().subset_of((#[trigger] r[k]).known.dom()) by {}
    assert forall|k: int, x: Seq<char>| 0 <= k < nodes.len() && #[trigger] nodes[k].known.contains_key(x) implies
        r[k].known[x] == nodes[k].known[x] by {}
    assert forall|k: int| 0 <= k < r.len() implies (#[trigger] r[k]).known.dom().finite() by {
        assert(nodes[k].known.dom().finite());
        if 0 <= i < nodes.len() && 0 <= j < nodes.len() && (k == i || k == j) {
            assert(nodes[i].known.dom().finite());
            assert(nodes[j].known.dom().finite());
            assert(r[k].known.dom() =~= nodes[i].known.dom().union(nodes[j].known.dom()));
        }
    }
}

/// A sequence of exchanges only spreads rumors.
proof fn lemma_apply_pairs_grows(nodes: Seq<GossipNodeView>, ps: Seq<(int, int)>)
    requires
        finite_rumors(nodes),
    ensures
        rumors_grow(nodes, apply_pairs(nodes, ps)),
        finite_rumors(apply_pairs(nodes, ps)),
    decreases ps.len(),
{
    if ps.len() == 0 {
        assert forall|i: int| 0 <= i < nodes.len() implies nodes[i].known.dom().subset_of((#[trigger] nodes[i]).known.dom()) by {}
        assert forall|i: int, x: Seq<char>| 0 <= i < nodes.len() && #[trigger] nodes[i].known.contains_key(x) implies
            nodes[i].known[x] == nodes[i].known[x] by {}
        assert forall|i: int, x: Seq<char>| 0 <= i < nodes.len() && #[trigger] nodes[i].known.contains_key(x) implies
            all_rumors(nodes).contains(x) by {
            lemma_all_rumors_has(nodes, x);
        }
    } else {
        lemma_apply_pairs_grows(nodes, ps.drop_last());
        let mid = apply_pairs(nodes, ps.drop_last());
        lemma_exchange_pair_grows(mid, ps.last().0, ps.last().1);
        lemma_rumors_grow_trans(nodes, mid, apply_pairs(nodes, ps));
    }
}

/// Push-pull makes both sides know the same rumors: all that either knew.
/// Each side keeps its own version of a rumor it already knew.
pub proof fn law_push_pull_union(a: GossipNodeView, b: GossipNodeView)
    ensures
        push_pull(a, b).0.known.dom() == a.known.dom().union(b.known.dom()),
        push_pull(a, b).1.known.dom() == a.known.dom().union(b.known.dom()),
        forall|x: Seq<char>| #[trigger] a.known.contains_key(x) ==> push_pull(a, b).0.known[x] == a.known[x],
        forall|x: Seq<char>| #[trigger] b.known.contains_key(x) ==> push_pull(a, b).1.known[x] == b.known[x],
{
    assert(push_pull(a, b).0.known.dom() =~= a.known.dom().union(b.known.dom()));
    assert(push_pull(a, b).1.known.dom() =~= a.known.dom().union(b.known.dom()));
}

/// A round of gossip loses no rumor and invents none: every node still knows
/// what it knew, at the versions it knew, and the network knows exactly the
/// rumors it knew.
pub proof fn law_round_keeps_rumors(nodes: Seq<GossipNodeView>, fanout: int)
    requires
        finite_rumors(nodes),
    ensures
        gossip_round(nodes, fanout).0.len() == nodes.len(),
        forall|i: int| 0 <= i < nodes.len() ==>
            nodes[i].known.dom().subset_of((#[trigger] gossip_round(nodes, fanout).0[i]).known.dom()),
        forall|i: int, x: Seq<char>| 0 <= i < nodes.len() && #[trigger] nodes[i].known.contains_key(x) ==>
            gossip_round(nodes, fanout).0[i].known[x] == nodes[i].known[x],
        all_rumors(gossip_round(nodes, fanout).0) == all_rumors(nodes),
{
    let ps = gossip_pairs(nodes, fanout, nodes.len() as int);
    lemma_apply_pairs_grows(nodes, ps);
    lemma_rumors_grow_same(nodes, apply_pairs(nodes, ps));
}

/// The number of nodes whose rumors are exactly `all`.
pub open spec fn knowing_count(nodes: Seq<GossipNodeView>, all: Set<Seq<char>>) -> int
    decreases nodes.len(),
{
    if nodes.len() == 0 {
        0
    } else {
        knowing_count(nodes.drop_last(), all) + if nodes.last().known.dom() == all { 1int } else { 0int }
    }
}

/// Where every node knows only rumors of the finite set `all`, knowing at
/// least as many rumors as `all` holds is knowing all of them.
proof fn lemma_informed_is_knowing(nodes: Seq<GossipNodeView>, all: Set<Seq<char>>)
    requires
        all.finite(),
        forall|i: int| 0 <= i < nodes.len() ==> (#[trigger] nodes[i]).known.dom().subset_of(all),
    ensures
        informed_count(nodes, all.len() as int) == knowing_count(nodes, all),
    decreases nodes.len(),
{
    if nodes.len() > 0 {
        let d = nodes.drop_last();
        assert forall|i: int| 0 <= i < d.len() implies (#[trigger] d[i]).known.dom().subset_of(all) by {
            assert(d[i] == nodes[i]);
        }
        lemma_informed_is_knowing(d, all);
        let last = nodes.last();
        assert(nodes[nodes.len() - 1] == last);
        let dom = last.known.dom();
        lemma_len_subset(dom, all);
        if dom.len() >= all.len() {
            lemma_subset_equality(dom, all);
        }
    }
}

/// A round reports how many nodes then know every rumor of the network.
pub proof fn law_round_counts_informed(nodes: Seq<GossipNodeView>, fanout: int)
    requires
        finite_rumors(nodes),
    ensures
        gossip_round(nodes, fanout).1 == knowing_count(gossip_round(nodes, fanout).0, all_rumors(gossip_round(nodes, fanout).0)),
{
    let ps = gossip_pairs(nodes, fanout, nodes.len() as int);
    let ns = apply_pairs(nodes, ps);
    lemma_apply_pairs_grows(nodes, ps);
    lemma_all_rumors_finite(ns);
    assert forall|i: int| 0 <= i < ns.len() implies (#[trigger] ns[i]).known.dom().subset_of(all_rumors(ns)) by {
        assert forall|x: Seq<char>| ns[i].known.dom().contains(x) implies all_rumors(ns).contains(x) by {
            lemma_all_rumors_has(ns, x);
        }
    }
    lemma_informed_is_knowing(ns, all_rumors(ns));
}

/// A network in which every node knows at least as many rumors as the
/// network knows is one in which every node knows every rumor.
pub proof fn law_informed_knows_all(nodes: Seq<GossipNodeView>)
    requires
        finite_rumors(nodes),
        informed_count(nodes, all_rumors(nodes).len() as int) == nodes.len(),
    ensures
        knows_all(nodes),
{
    let total = all_rumors(nodes).len() as int;
    lemma_informed_all(nodes, total);
    lemma_all_rumors_finite(nodes);
    assert forall|i: int| 0 <= i < nodes.len() implies (#[trigger] nodes[i]).known.dom() == all_rumors(nodes) by {
        assert forall|x: Seq<char>| nodes[i].known.dom().contains(x) implies all_rumors(nodes).contains(x) by {
            lemma_all_rumors_has(nodes, x);
        }
        assert(nodes[i].known.dom().finite());
        lemma_len_subset(nodes[i].known.dom(), all_rumors(nodes));
        lemma_subset_equality(nodes[i].known.dom(), all_rumors(nodes));
    }
}

/// When every node counts as informed, each knows at least `total` rumors.
proof fn lemma_informed_all(nodes: Seq<GossipNodeView>, total: int)
    requires
        informed_count(nodes, total) == nodes.len(),
    ensures
        forall|i: int| 0 <= i < nodes.len() ==> (#[trigger] nodes[i]).known.len() >= total,
    decreases nodes.len(),
{
    if nodes.len() > 0 {
        let d = nodes.drop_last();
        lemma_informed_le(d, total);
        lemma_informed_all(d, total);
        assert forall|i: int| 0 <= i < nodes.len() implies (#[trigger] nodes[i]).known.len() >= total by {
            if i < nodes.len() - 1 {
                assert(d[i] == nodes[i]);
            }
        }
    }
}

/// At most every node is informed.
proof fn lemma_informed_le(nodes: Seq<GossipNodeView>, total: int)
    ensures
        0 <= informed_count(nodes, total) <= nodes.len(),
    decreases nodes.len(),
{
    if nodes.len() > 0 {
        lemma_informed_le(nodes.drop_last(), total);
    }
}

/// Gossip until convergence keeps every rumor and invents none, and when it
/// stops before its last allowed round, every node knows every rumor.
pub proof fn law_converge_spreads_all(nodes: Seq<GossipNodeView>, fanout: int, done: int, max: int)
    requires
        finite_rumors(nodes),
    ensures
        gossip_converge(nodes, fanout, done, max).0.len() == nodes.len(),
        forall|i: int| 0 <= i < nodes.len() ==>
            nodes[i].known.dom().subset_of((#[trigger] gossip_converge(nodes, fanout, done, max).0[i]).known.dom()),
        all_rumors(gossip_converge(nodes, fanout, done, max).0) == all_rumors(nodes),
        gossip_converge(nodes, fanout, done, max).1 < max ==> knows_all(gossip_converge(nodes, fanout, done, max).0),
    decreases max - done,
{
    if done < max {
        let ps = gossip_pairs(nodes, fanout, nodes.len() as int);
        let ns = apply_pairs(nodes, ps);
        lemma_apply_pairs_grows(nodes, ps);
        lemma_rumors_grow_same(nodes, ns);
        let informed = informed_count(ns, all_rumors(ns).len() as int);
        if informed == ns.len() {
            law_informed_knows_all(ns);
        } else {
            law_converge_spreads_all(ns, fanout, done + 1, max);
            let fin = gossip_converge(ns, fanout, done + 1, max).0;
            assert forall|i: int| 0 <= i < nodes.len() implies
                nodes[i].known.dom().subset_of((#[trigger] fin[i]).known.dom()) by {
                assert(nodes[i].known.dom().subset_of(ns[i].known.dom()));
                assert(ns[i].known.dom().subset_of(fin[i].known.dom()));
            }
        }
    }
}

/// Where `t` lies below twice `n`, its remainder is `t` or `t - n`.
proof fn lemma_mod_once(t: int, n: int)
    requires
        0 < n,
        0 <= t < 2 * n,
    ensures
        t % n == if t < n { t } else { t - n },
{
    if t < n {
        vstd::arithmetic::div_mod::lemma_small_mod(t as nat, n as nat);
    } else {
        vstd::arithmetic::div_mod::lemma_mod_add_multiples_vanish(t - n, n);
        vstd::arithmetic::div_mod::lemma_small_mod((t - n) as nat, n as nat);
    }
}

/// A round's peers are real and distinct: among at least two nodes, each
/// node's peers in a round are other nodes, and no peer is picked twice.
pub proof fn law_partners_distinct(nodes: Seq<GossipNodeView>, fanout: int, i: int, c1: int, c2: int)
    requires
        nodes.len() >= 2,
        0 <= i < nodes.len(),
        0 <= c1 < peer_count(nodes.len() as int, fanout),
        0 <= c2 < peer_count(nodes.len() as int, fanout),
    ensures
        0 <= gossip_partner(nodes, i, c1) < nodes.len(),
        gossip_partner(nodes, i, c1) != i,
        c1 != c2 ==> gossip_partner(nodes, i, c1) != gossip_partner(nodes, i, c2),
{
    let n = nodes.len() as int;
    let m = gossip_span(n);
    let r = (nodes[i].round as usize) as int + 1;
    vstd::arithmetic::div_mod::lemma_mod_pos_bound(r + c1, m);
    vstd::arithmetic::div_mod::lemma_mod_pos_bound(r + c2, m);
    let o1 = (r + c1) % m;
    let o2 = (r + c2) % m;
    lemma_mod_once(i + 1 + o1, n);
    lemma_mod_once(i + 1 + o2, n);
    if c1 != c2 {
        vstd::arithmetic::div_mod::lemma_mod_equivalence(r + c1, r + c2, m);
        if c1 < c2 {
            vstd::arithmetic::div_mod::lemma_small_mod((c2 - c1) as nat, m as nat);
            vstd::arithmetic::div_mod::lemma_mod_equivalence(r + c2, r + c1, m);
        } else {
            vstd::arithmetic::div_mod::lemma_small_mod((c1 - c2) as nat, m as nat);
        }
        assert(o1 != o2);
    }
}

} // verus!
