//! Consistent hashing: physical nodes own many virtual positions on a ring of
//! 64-bit hashes, and a key belongs to the first position at or after its hash.

use vstd::prelude::*;
use std::hash::{Hash, Hasher};
use crate::strmap::StrMap;
use crate::naming::{decimal, indexed_name};

verus! {

/// The 64-bit hash that `std::collections::hash_map::DefaultHasher::new()`
/// gives a string.
pub uninterp spec fn str_hash(s: Seq<char>) -> u64;

/// `DefaultHasher::new()`, `Hash::hash` of the `str`, then `Hasher::finish`.
/// The contract claims only that the result is the named hash of the
/// string's characters: `DefaultHasher::new()` is documented to start every
/// hasher in the same state, so equal strings hash equally. What the hash is
/// on given strings is left unsaid.
#[verifier::external_body]
fn default_hash(s: &str) -> (h: u64)
    ensures
        h == str_hash(s@),
{
    let mut hasher = std::collections::hash_map::DefaultHasher::new();
    s.hash(&mut hasher);
    hasher.finish()
}

/// One position of a physical node on the ring.
#[derive(Debug, Clone)]
pub struct VirtualNode {
    pub id: usize,
    pub physical_node: String,
    pub position: u64,
}

pub struct VNodeView {
    pub id: usize,
    pub physical_node: Seq<char>,
    pub position: u64,
}

impl View for VirtualNode {
    type V = VNodeView;

    open spec fn view(&self) -> VNodeView {
        VNodeView { id: self.id, physical_node: self.physical_node@, position: self.position }
    }
}

impl VirtualNode {
    pub fn duplicate(&self) -> (r: VirtualNode)
        ensures
            r@ == self@,
    {
        VirtualNode { id: self.id, physical_node: self.physical_node.clone(), position: self.position }
    }
}

pub open spec fn ring_view(v: Seq<VirtualNode>) -> Seq<VNodeView> {
    v.map_values(|n: VirtualNode| n@)
}

/// The string hashed for virtual node `i` of `name`: `"{name}:{i}"`.
pub open spec fn vnode_label(name: Seq<char>, i: nat) -> Seq<char> {
    name + seq![':'] + decimal(i)
}

/// The virtual nodes of `name`, numbered from 0.
pub open spec fn new_vnodes(name: Seq<char>, count: nat) -> Seq<VNodeView> {
    Seq::new(count, |i: int| VNodeView {
        id: i as usize,
        physical_node: name,
        position: str_hash(vnode_label(name, i as nat)),
    })
}

/// Positions never decrease along the sequence.
pub open spec fn sorted_by_position(s: Seq<VNodeView>) -> bool {
    forall|i: int, j: int| 0 <= i <= j < s.len() ==> #[trigger] s[i].position <= #[trigger] s[j].position
}

/// The number of virtual nodes at or below position `p`.
pub open spec fn count_at_or_below(s: Seq<VNodeView>, p: u64) -> int
    decreases s.len(),
{
    if s.len() == 0 {
        0
    } else {
        count_at_or_below(s.drop_last(), p) + if s.last().position <= p { 1int } else { 0int }
    }
}

/// The number of virtual nodes strictly below position `p`.
pub open spec fn count_below(s: Seq<VNodeView>, p: u64) -> int
    decreases s.len(),
{
    if s.len() == 0 {
        0
    } else {
        count_below(s.drop_last(), p) + if s.last().position < p { 1int } else { 0int }
    }
}

/// `x` inserted after every node whose position is at most its own.
pub open spec fn insert_stable(s: Seq<VNodeView>, x: VNodeView) -> Seq<VNodeView> {
    s.insert(count_at_or_below(s, x.position), x)
}

/// The nodes ordered by position; nodes at equal positions keep their order.
pub open spec fn stable_sort(s: Seq<VNodeView>) -> Seq<VNodeView>
    decreases s.len(),
{
    if s.len() == 0 {
        Seq::empty()
    } else {
        insert_stable(stable_sort(s.drop_last()), s.last())
    }
}

/// The nodes other than those of `name`, in order.
pub open spec fn without_node(s: Seq<VNodeView>, name: Seq<char>) -> Seq<VNodeView>
    decreases s.len(),
{
    if s.len() == 0 {
        Seq::empty()
    } else {
        let rest = without_node(s.drop_last(), name);
        if s.last().physical_node == name { rest } else { rest.push(s.last()) }
    }
}

/// The physical node that owns hash `h`: that of the first virtual node at or
/// after `h`, wrapping round to the first one; `None` on an empty ring.
pub open spec fn ring_owner(s: Seq<VNodeView>, h: u64) -> Option<Seq<char>> {
    if s.len() == 0 {
        None
    } else {
        let k = count_below(s, h);
        if k >= s.len() { Some(s[0].physical_node) } else { Some(s[k].physical_node) }
    }
}

/// How many keys each physical node owns, over the first keys in order.
pub open spec fn tally(s: Seq<VNodeView>, keys: Seq<Seq<char>>) -> Map<Seq<char>, usize>
    decreases keys.len(),
{
    if keys.len() == 0 {
        Map::empty()
    } else {
        let m = tally(s, keys.drop_last());
        match ring_owner(s, str_hash(keys.last())) {
            Some(o) => m.insert(o, (if m.contains_key(o) { m[o] + 1 } else { 1 }) as usize),
            None => m,
        }
    }
}

/// In a sorted sequence the nodes at or below `p` come first.
pub proof fn lemma_count_at_or_below_sorted(s: Seq<VNodeView>, p: u64)
    requires
        sorted_by_position(s),
    ensures
        0 <= count_at_or_below(s, p) <= s.len(),
        forall|j: int| 0 <= j < count_at_or_below(s, p) ==> #[trigger] s[j].position <= p,
        forall|j: int| count_at_or_below(s, p) <= j < s.len() ==> #[trigger] s[j].position > p,
    decreases s.len(),
{
    if s.len() > 0 {
        let d = s.drop_last();
        assert(sorted_by_position(d));
        lemma_count_at_or_below_sorted(d, p);
        assert forall|j: int| 0 <= j < d.len() implies #[trigger] d[j] == s[j] by {}
        if s.last().position <= p {
            assert forall|j: int| 0 <= j < s.len() implies #[trigger] s[j].position <= p by {
                assert(s[j].position <= s[s.len() - 1].position);
            }
            assert forall|j: int| 0 <= j < d.len() implies #[trigger] d[j].position <= p by {
                assert(d[j] == s[j]);
            }
            assert(count_at_or_below(d, p) == d.len());
        } else {
            assert forall|j: int| count_at_or_below(s, p) <= j < s.len() implies #[trigger] s[j].position > p by {
                if j < d.len() {
                    assert(d[j] == s[j]);
                }
            }
            assert forall|j: int| 0 <= j < count_at_or_below(s, p) implies #[trigger] s[j].position <= p by {
                assert(d[j] == s[j]);
            }
        }
    }
}

/// Where exactly the nodes below `h` come first, they number `k`.
pub proof fn lemma_count_below_split(s: Seq<VNodeView>, h: u64, k: int)
    requires
        0 <= k <= s.len(),
        forall|j: int| 0 <= j < k ==> #[trigger] s[j].position < h,
        forall|j: int| k <= j < s.len() ==> #[trigger] s[j].position >= h,
    ensures
        count_below(s, h) == k,
    decreases s.len(),
{
    if s.len() > 0 {
        let d = s.drop_last();
        if k == s.len() {
            assert(s[s.len() - 1].position < h);
            lemma_count_below_split(d, h, k - 1);
        } else {
            assert(s[s.len() - 1].position >= h);
            lemma_count_below_split(d, h, k);
        }
    }
}

/// Inserting after the nodes at or below its position keeps a sequence sorted.
pub proof fn lemma_insert_stable_sorted(s: Seq<VNodeView>, x: VNodeView)
    requires
        sorted_by_position(s),
    ensures
        sorted_by_position(insert_stable(s, x)),
        insert_stable(s, x).len() == s.len() + 1,
{
    lemma_count_at_or_below_sorted(s, x.position);
    let k = count_at_or_below(s, x.position);
    let t = insert_stable(s, x);
    assert(t.len() == s.len() + 1);
    assert forall|i: int, j: int| 0 <= i <= j < t.len() implies #[trigger] t[i].position <= #[trigger] t[j].position by {
        if i < k && j < k {
        } else if i < k && j == k {
        } else if i < k {
            assert(t[j] == s[j - 1]);
        } else if i == k && j == k {
        } else if i == k {
            assert(t[j] == s[j - 1]);
        } else {
            assert(t[i] == s[i - 1] && t[j] == s[j - 1]);
        }
    }
}

/// The stable sort is sorted and keeps the length.
pub proof fn lemma_stable_sort_sorted(s: Seq<VNodeView>)
    ensures
        sorted_by_position(stable_sort(s)),
        stable_sort(s).len() == s.len(),
    decreases s.len(),
{
    if s.len() > 0 {
        lemma_stable_sort_sorted(s.drop_last());
        lemma_insert_stable_sorted(stable_sort(s.drop_last()), s.last());
    }
}

/// Dropping the nodes of one physical node keeps the others in order, so a
/// sorted ring stays sorted.
pub proof fn lemma_without_node_sorted(s: Seq<VNodeView>, name: Seq<char>)
    requires
        sorted_by_position(s),
    ensures
        sorted_by_position(without_node(s, name)),
        forall|k: int| 0 <= k < without_node(s, name).len() ==>
            exists|j: int| 0 <= j < s.len() && s[j] == #[trigger] without_node(s, name)[k],
    decreases s.len(),
{
    if s.len() > 0 {
        let d = s.drop_last();
        assert(sorted_by_position(d));
        lemma_without_node_sorted(d, name);
        let w = without_node(d, name);
        assert forall|k: int| 0 <= k < w.len() implies #[trigger] w[k].position <= s.last().position by {
            let j = choose|j: int| 0 <= j < d.len() && d[j] == w[k];
            assert(s[j] == d[j]);
        }
        let t = without_node(s, name);
        assert forall|k: int| 0 <= k < t.len() implies exists|j: int| 0 <= j < s.len() && s[j] == #[trigger] t[k] by {
            if k < w.len() {
                let j = choose|j: int| 0 <= j < d.len() && d[j] == w[k];
                assert(s[j] == d[j]);
            } else {
                assert(s[s.len() - 1] == t[k]);
            }
        }
    }
}

/// A ring of virtual nodes, kept sorted by position.
#[derive(Debug, Clone)]
pub struct HashRing {
    pub nodes: Vec<VirtualNode>,
    pub vnodes_per_node: usize,
}

impl HashRing {
    /// An empty ring that gives each physical node `vnodes_per_node` positions.
    pub fn new(vnodes_per_node: usize) -> (r: Self)
        ensures
            r.nodes@.len() == 0,
            r.vnodes_per_node == vnodes_per_node,
            sorted_by_position(ring_view(r.nodes@)),
    {
        HashRing { nodes: Vec::new(), vnodes_per_node }
    }

    /// The position of a key.
    fn hash_key(&self, key: &str) -> (h: u64)
        ensures
            h == str_hash(key@),
    {
        default_hash(key)
    }

    /// The position of virtual node `index` of `name`.
    fn hash_vnode(&self, name: &str, index: usize) -> (h: u64)
        ensures
            h == str_hash(vnode_label(name@, index as nat)),
    {
        let mut prefix = name.to_owned();
        prefix.append(":");
        proof {
            reveal_strlit(":");
        }
        let label = indexed_name(prefix.as_str(), index);
        proof {
            assert(label@ =~= vnode_label(name@, index as nat));
        }
        default_hash(label.as_str())
    }

    /// Places `vnodes_per_node` positions of `name` on the ring, which is then
    /// ordered by position (nodes at equal positions keep their order).
    pub fn add_node(&mut self, name: &str)
        ensures
            final(self).vnodes_per_node == old(self).vnodes_per_node,
            ring_view(final(self).nodes@) == stable_sort(ring_view(old(self).nodes@) + new_vnodes(name@, old(self).vnodes_per_node as nat)),
            sorted_by_position(ring_view(final(self).nodes@)),
    {
        proof {
            lemma_stable_sort_sorted(ring_view(old(self).nodes@) + new_vnodes(name@, old(self).vnodes_per_node as nat));
        }
        let ghost old_view = ring_view(self.nodes@);
        let mut i: usize = 0;
        while i < self.vnodes_per_node
            invariant
                i <= self.vnodes_per_node,
                self.vnodes_per_node == old(self).vnodes_per_node,
                old_view == ring_view(old(self).nodes@),
                ring_view(self.nodes@) == old_view + new_vnodes(name@, i as nat),
            decreases self.vnodes_per_node - i,
        {
            let position = self.hash_vnode(name, i);
            let ghost before = self.nodes@;
            self.nodes.push(VirtualNode { id: i, physical_node: name.to_owned(), position });
            proof {
                assert(ring_view(self.nodes@) =~= ring_view(before).push(self.nodes@.last()@));
                assert(new_vnodes(name@, i as nat + 1) =~= new_vnodes(name@, i as nat).push(self.nodes@.last()@));
                assert(ring_view(self.nodes@) =~= old_view + new_vnodes(name@, i as nat + 1));
            }
            i = i + 1;
        }
        let ghost all = ring_view(self.nodes@);
        let mut sorted: Vec<VirtualNode> = Vec::new();
        let mut t: usize = 0;
        proof {
            assert(all.take(0) =~= Seq::<VNodeView>::empty());
            assert(ring_view(sorted@) =~= Seq::<VNodeView>::empty());
        }
        while t < self.nodes.len()
            invariant
                t <= self.nodes@.len(),
                all == ring_view(self.nodes@),
                self.vnodes_per_node == old(self).vnodes_per_node,
                all == ring_view(old(self).nodes@) + new_vnodes(name@, old(self).vnodes_per_node as nat),
                ring_view(sorted@) == stable_sort(all.take(t as int)),
                sorted@.len() == t,
            decreases self.nodes@.len() - t,
        {
            let x = self.nodes[t].duplicate();
            let p = x.position;
            let mut k: usize = 0;
            let mut c: usize = 0;
            let ghost sv = ring_view(sorted@);
            while c < sorted.len()
                invariant
                    c <= sorted@.len(),
                    sv == ring_view(sorted@),
                    k == count_at_or_below(sv.take(c as int), p),
                    k <= c,
                decreases sorted@.len() - c,
            {
                proof {
                    assert(sv.take(c as int + 1).drop_last() =~= sv.take(c as int));
                }
                if sorted[c].position <= p {
                    k = k + 1;
                }
                c = c + 1;
            }
            proof {
                assert(sv.take(c as int) =~= sv);
                assert(all.take(t as int + 1).drop_last() =~= all.take(t as int));
                assert(all.take(t as int + 1).last() == x@);
            }
            let ghost before = sorted@;
            sorted.insert(k, x);
            proof {
                assert(ring_view(sorted@) =~= ring_view(before).insert(k as int, self.nodes@[t as int]@));
            }
            t = t + 1;
        }
        proof {
            assert(all.take(t as int) =~= all);
        }
        self.nodes = sorted;
    }

    /// Takes every position of `name` off the ring.
    pub fn remove_node(&mut self, name: &str)
        ensures
            final(self).vnodes_per_node == old(self).vnodes_per_node,
            ring_view(final(self).nodes@) == without_node(ring_view(old(self).nodes@), name@),
            sorted_by_position(ring_view(old(self).nodes@)) ==> sorted_by_position(ring_view(final(self).nodes@)),
    {
        proof {
            if sorted_by_position(ring_view(old(self).nodes@)) {
                lemma_without_node_sorted(ring_view(old(self).nodes@), name@);
            }
        }
        let ghost v = ring_view(self.nodes@);
        let target = name.to_owned();
        let mut kept: Vec<VirtualNode> = Vec::new();
        let mut i: usize = 0;
        proof {
            assert(v.take(0) =~= Seq::<VNodeView>::empty());
            assert(ring_view(kept@) =~= Seq::<VNodeView>::empty());
        }
        while i < self.nodes.len()
            invariant
                i <= self.nodes@.len(),
                v == ring_view(self.nodes@),
                target@ == name@,
                ring_view(kept@) == without_node(v.take(i as int), name@),
            decreases self.nodes@.len() - i,
        {
            proof {
                assert(v.take(i as int + 1).drop_last() =~= v.take(i as int));
                assert(v.take(i as int + 1).last() == self.nodes@[i as int]@);
            }
            if self.nodes[i].physical_node != target {
                let ghost before = kept@;
                kept.push(self.nodes[i].duplicate());
                proof {
                    assert(ring_view(kept@) =~= ring_view(before).push(self.nodes@[i as int]@));
                }
            }
            i = i + 1;
        }
        proof {
            assert(v.take(i as int) =~= v);
        }
        self.nodes = kept;
    }

    /// The physical node that owns `key`: the first virtual node at or after
    /// the key's hash, wrapping round; `None` on an empty ring.
    pub fn get_node(&self, key: &str) -> (r: Option<&str>)
        requires
            sorted_by_position(ring_view(self.nodes@)),
        ensures
            match r {
                Some(s) => ring_owner(ring_view(self.nodes@), str_hash(key@)) == Some(s@),
                None => ring_owner(ring_view(self.nodes@), str_hash(key@)) is None,
            },
    {
        if self.nodes.len() == 0 {
            return None;
        }
        let ghost v = ring_view(self.nodes@);
        let hash = self.hash_key(key);
        let mut lo: usize = 0;
        let mut hi: usize = self.nodes.len();
        while lo < hi
            invariant
                0 <= lo <= hi <= self.nodes@.len(),
                v == ring_view(self.nodes@),
                sorted_by_position(v),
                forall|j: int| 0 <= j < lo ==> #[trigger] v[j].position < hash,
                forall|j: int| hi <= j < v.len() ==> #[trigger] v[j].position >= hash,
            decreases hi - lo,
        {
            let mid = lo + (hi - lo) / 2;
            if self.nodes[mid].position < hash {
                proof {
                    assert forall|j: int| 0 <= j < mid + 1 implies #[trigger] v[j].position < hash by {
                        if j < lo {
                        } else {
                            assert(v[j].position <= v[mid as int].position);
                        }
                    }
                }
                lo = mid + 1;
            } else {
                proof {
                    assert forall|j: int| mid <= j < v.len() implies #[trigger] v[j].position >= hash by {
                        assert(v[mid as int].position <= v[j].position);
                    }
                }
                hi = mid;
            }
        }
        proof {
            lemma_count_below_split(v, hash, lo as int);
        }
        let idx = lo;
        if idx >= self.nodes.len() {
            Some(self.nodes[0].physical_node.as_str())
        } else {
            Some(self.nodes[idx].physical_node.as_str())
        }
    }

    /// How many of the keys each physical node owns.
    pub fn distribution(&self, keys: &[&str]) -> (dist: StrMap<usize>)
        requires
            sorted_by_position(ring_view(self.nodes@)),
        ensures
            dist@ == tally(ring_view(self.nodes@), keys@.map_values(|k: &str| k@)),
    {
        let ghost ks = keys@.map_values(|k: &str| k@);
        let ghost v = ring_view(self.nodes@);
        let mut dist: StrMap<usize> = StrMap::new();
        let mut i: usize = 0;
        proof {
            assert(ks.take(0) =~= Seq::<Seq<char>>::empty());
        }
        while i < keys.len()
            invariant
                i <= keys@.len(),
                ks == keys@.map_values(|k: &str| k@),
                v == ring_view(self.nodes@),
                sorted_by_position(v),
                dist@ == tally(v, ks.take(i as int)),
                forall|o: Seq<char>| #[trigger] dist@.contains_key(o) ==> dist@[o] <= i,
            decreases keys@.len() - i,
        {
            proof {
                assert(ks.take(i as int + 1).drop_last() =~= ks.take(i as int));
                assert(ks.take(i as int + 1).last() == keys@[i as int]@);
            }
            match self.get_node(keys[i]) {
                Some(node) => {
                    let c = match dist.get(node) {
                        Some(c) => *c,
                        None => 0,
                    };
                    dist.insert(node.to_owned(), c + 1);
                },
                None => {},
            }
            i = i + 1;
        }
        proof {
            assert(ks.take(i as int) =~= ks);
        }
        dist
    }
}

/// In a sorted sequence the nodes below `h` come first.
pub proof fn lemma_count_below_sorted(s: Seq<VNodeView>, h: u64)
    requires
        sorted_by_position(s),
    ensures
        0 <= count_below(s, h) <= s.len(),
        forall|j: int| 0 <= j < count_below(s, h) ==> #[trigger] s[j].position < h,
        forall|j: int| count_below(s, h) <= j < s.len() ==> #[trigger] s[j].position >= h,
    decreases s.len(),
{
    if s.len() > 0 {
        let d = s.drop_last();
        assert(sorted_by_position(d));
        lemma_count_below_sorted(d, h);
        assert forall|j: int| 0 <= j < d.len() implies #[trigger] d[j] == s[j] by {}
        if s.last().position < h {
            assert forall|j: int| 0 <= j < s.len() implies #[trigger] s[j].position < h by {
                assert(s[j].position <= s[s.len() - 1].position);
            }
            assert forall|j: int| 0 <= j < d.len() implies #[trigger] d[j].position < h by {
                assert(d[j] == s[j]);
            }
            assert(count_below(d, h) == d.len());
        } else {
            assert forall|j: int| count_below(s, h) <= j < s.len() implies #[trigger] s[j].position >= h by {
                if j < d.len() {
                    assert(d[j] == s[j]);
                }
            }
            assert forall|j: int| 0 <= j < count_below(s, h) implies #[trigger] s[j].position < h by {
                assert(d[j] == s[j]);
            }
        }
    }
}

/// Dropping a physical node's virtual nodes works piece by piece.
proof fn lemma_without_node_append(a: Seq<VNodeView>, b: Seq<VNodeView>, name: Seq<char>)
    ensures
        without_node(a + b, name) == without_node(a, name) + without_node(b, name),
    decreases b.len(),
{
    if b.len() == 0 {
        assert(a + b =~= a);
        assert(without_node(a, name) + without_node(b, name) =~= without_node(a, name));
    } else {
        assert((a + b).drop_last() =~= a + b.drop_last());
        assert((a + b).last() == b.last());
        lemma_without_node_append(a, b.drop_last(), name);
        let wa = without_node(a, name);
        let wd = without_node(b.drop_last(), name);
        if b.last().physical_node != name {
            assert((wa + wd).push(b.last()) =~= wa + wd.push(b.last()));
        }
    }
}

/// A node of another physical node heads what is left of a sequence it heads.
proof fn lemma_without_node_head(s: Seq<VNodeView>, name: Seq<char>)
    requires
        s.len() >= 1,
        s[0].physical_node != name,
    ensures
        without_node(s, name).len() >= 1,
        without_node(s, name)[0] == s[0],
{
    lemma_without_node_append(seq![s[0]], s.skip(1), name);
    assert(seq![s[0]] + s.skip(1) =~= s);
    assert(seq![s[0]].drop_last() =~= Seq::<VNodeView>::empty());
    let one = seq![s[0]];
    assert(one.last() == s[0]);
    assert(without_node(one.drop_last(), name) == Seq::<VNodeView>::empty());
    assert(Seq::<VNodeView>::empty().push(s[0]) =~= one);
    assert(without_node(one, name) == one);
}

/// Consistent hashing, removal: on a sorted ring, removing a physical node
/// leaves every hash that another node owned with that same owner.
pub proof fn law_remove_keeps_other_owners(s: Seq<VNodeView>, name: Seq<char>, h: u64)
    requires
        sorted_by_position(s),
        ring_owner(s, h) is Some,
        ring_owner(s, h) != Some(name),
    ensures
        ring_owner(without_node(s, name), h) == ring_owner(s, h),
{
    lemma_count_below_sorted(s, h);
    let k = count_below(s, h);
    let a = s.take(k);
    let b = s.skip(k);
    assert(a + b =~= s);
    lemma_without_node_append(a, b, name);
    let wa = without_node(a, name);
    let wb = without_node(b, name);
    let w = without_node(s, name);
    assert(sorted_by_position(a));
    assert(sorted_by_position(b));
    lemma_without_node_sorted(a, name);
    lemma_without_node_sorted(b, name);
    lemma_without_node_sorted(s, name);
    assert forall|j: int| 0 <= j < wa.len() implies #[trigger] w[j].position < h by {
        let i = choose|i: int| 0 <= i < a.len() && a[i] == wa[j];
        assert(w[j] == wa[j]);
        assert(a[i] == s[i]);
    }
    assert forall|j: int| wa.len() <= j < w.len() implies #[trigger] w[j].position >= h by {
        let i = choose|i: int| 0 <= i < b.len() && b[i] == wb[j - wa.len()];
        assert(w[j] == wb[j - wa.len()]);
        assert(b[i] == s[k + i]);
    }
    lemma_count_below_split(w, h, wa.len() as int);
    if k < s.len() {
        assert(b[0] == s[k]);
        lemma_without_node_head(b, name);
        assert(w[wa.len() as int] == wb[0]);
    } else {
        lemma_without_node_head(s, name);
        assert(wb.len() == 0) by {
            assert(b.len() == 0);
        }
    }
}

/// A sorted sequence is its own stable sort.
proof fn lemma_stable_sort_of_sorted(s: Seq<VNodeView>)
    requires
        sorted_by_position(s),
    ensures
        stable_sort(s) == s,
    decreases s.len(),
{
    if s.len() > 0 {
        let d = s.drop_last();
        assert(sorted_by_position(d));
        lemma_stable_sort_of_sorted(d);
        lemma_count_at_or_below_sorted(d, s.last().position);
        assert forall|j: int| 0 <= j < d.len() implies #[trigger] d[j].position <= s.last().position by {
            assert(d[j] == s[j]);
            assert(s[j].position <= s[s.len() - 1].position);
        }
        assert(count_at_or_below(d, s.last().position) == d.len());
        assert(d.insert(d.len() as int, s.last()) =~= s);
    }
}

/// Inserting one virtual node moves a hash, if at all, to that node's owner.
proof fn lemma_insert_owner(t: Seq<VNodeView>, x: VNodeView, h: u64)
    requires
        sorted_by_position(t),
    ensures
        ring_owner(insert_stable(t, x), h) == ring_owner(t, h)
            || ring_owner(insert_stable(t, x), h) == Some(x.physical_node),
{
    lemma_count_at_or_below_sorted(t, x.position);
    lemma_count_below_sorted(t, h);
    lemma_insert_stable_sorted(t, x);
    let j = count_at_or_below(t, x.position);
    let k = count_below(t, h);
    let u = insert_stable(t, x);
    assert(u == t.insert(j, x));
    if x.position < h {
        assert(j <= k) by {
            if j > k {
                assert(t[k].position <= x.position);
            }
        }
        assert forall|i: int| 0 <= i < k + 1 implies #[trigger] u[i].position < h by {
            if i < j {
                assert(u[i] == t[i]);
            } else if i > j {
                assert(u[i] == t[i - 1]);
            }
        }
        assert forall|i: int| k + 1 <= i < u.len() implies #[trigger] u[i].position >= h by {
            assert(u[i] == t[i - 1]);
        }
        lemma_count_below_split(u, h, k + 1);
        if k < t.len() {
            assert(u[k + 1] == t[k]);
        } else if j > 0 {
            assert(u[0] == t[0]);
        } else {
            assert(u[0] == x);
        }
    } else {
        assert(k <= j) by {
            if k > j {
                assert(t[j].position > x.position);
            }
        }
        assert forall|i: int| 0 <= i < k implies #[trigger] u[i].position < h by {
            assert(u[i] == t[i]);
        }
        assert forall|i: int| k <= i < u.len() implies #[trigger] u[i].position >= h by {
            if i < j {
                assert(u[i] == t[i]);
            } else if i > j {
                assert(u[i] == t[i - 1]);
            }
        }
        lemma_count_below_split(u, h, k);
        if k < j {
            assert(u[k] == t[k]);
        } else {
            assert(u[k] == x);
        }
    }
}

/// Inserting virtual nodes of `name`, one by one, moves a hash, if at all, to `name`.
proof fn lemma_add_owner(s: Seq<VNodeView>, xs: Seq<VNodeView>, name: Seq<char>, h: u64)
    requires
        sorted_by_position(s),
        forall|i: int| 0 <= i < xs.len() ==> (#[trigger] xs[i]).physical_node == name,
    ensures
        ring_owner(stable_sort(s + xs), h) == ring_owner(s, h) || ring_owner(stable_sort(s + xs), h) == Some(name),
    decreases xs.len(),
{
    if xs.len() == 0 {
        assert(s + xs =~= s);
        lemma_stable_sort_of_sorted(s);
    } else {
        let d = xs.drop_last();
        assert forall|i: int| 0 <= i < d.len() implies (#[trigger] d[i]).physical_node == name by {
            assert(d[i] == xs[i]);
        }
        lemma_add_owner(s, d, name, h);
        assert((s + xs).drop_last() =~= s + d);
        assert((s + xs).last() == xs[xs.len() - 1]);
        lemma_stable_sort_sorted(s + d);
        lemma_insert_owner(stable_sort(s + d), xs.last(), h);
    }
}

/// Consistent hashing, addition: on a sorted ring, adding a physical node
/// moves a hash, if at all, to the new node; every other hash keeps its owner.
pub proof fn law_add_moves_only_to_new_node(s: Seq<VNodeView>, name: Seq<char>, count: nat, h: u64)
    requires
        sorted_by_position(s),
    ensures
        ring_owner(stable_sort(s + new_vnodes(name, count)), h) == ring_owner(s, h)
            || ring_owner(stable_sort(s + new_vnodes(name, count)), h) == Some(name),
{
    lemma_add_owner(s, new_vnodes(name, count), name, h);
}

/// The stable sort only reorders: it keeps the same multiset of nodes.
pub proof fn lemma_stable_sort_multiset(s: Seq<VNodeView>)
    ensures
        stable_sort(s).to_multiset() == s.to_multiset(),
    decreases s.len(),
{
    broadcast use vstd::seq_lib::group_to_multiset_ensures;
    broadcast use vstd::multiset::group_multiset_axioms;
    if s.len() > 0 {
        let d = s.drop_last();
        let x = s.last();
        lemma_stable_sort_multiset(d);
        lemma_stable_sort_sorted(d);
        let t = stable_sort(d);
        lemma_count_at_or_below_sorted(t, x.position);
        let k = count_at_or_below(t, x.position);
        let u = t.insert(k, x);
        assert(u.remove(k) =~= t);
        assert(u[k] == x);
        assert(u.to_multiset().remove(x) =~= t.to_multiset());
        assert(u.to_multiset().contains(x));
        assert(u.to_multiset() =~= t.to_multiset().insert(x));
        assert(d.push(x) =~= s);
    }
}

/// Adding a node places exactly its new virtual nodes: the ring after
/// `add_node` holds the nodes it held before and the new ones, each as often
/// as before, in order of position.
pub proof fn law_add_node_keeps_vnodes(s: Seq<VNodeView>, name: Seq<char>, count: nat)
    ensures
        stable_sort(s + new_vnodes(name, count)).to_multiset()
            == s.to_multiset().add(new_vnodes(name, count).to_multiset()),
        stable_sort(s + new_vnodes(name, count)).len() == s.len() + count,
        sorted_by_position(stable_sort(s + new_vnodes(name, count))),
{
    lemma_stable_sort_multiset(s + new_vnodes(name, count));
    lemma_stable_sort_sorted(s + new_vnodes(name, count));
    vstd::seq_lib::lemma_multiset_commutative(s, new_vnodes(name, count));
}

} // verus!
