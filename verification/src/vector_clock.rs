//! Vector clocks: one event counter per node, compared component-wise.

use vstd::prelude::*;
use vstd::std_specs::cmp::PartialEqSpecImpl;
use crate::strmap::{StrMap, lists_map, entries_map, lemma_entries_prefix_step, lemma_listing_is_map, lemma_entries_empty_prefix};

verus! {

/// The counter of `node` in a clock; a node that is absent counts zero.
pub open spec fn clock_at(c: Map<Seq<char>, u64>, node: Seq<char>) -> int {
    if c.contains_key(node) { c[node] as int } else { 0 }
}

/// Every counter of `a` is at most the matching counter of `b`.
pub open spec fn clock_le(a: Map<Seq<char>, u64>, b: Map<Seq<char>, u64>) -> bool {
    forall|k: Seq<char>| #[trigger] clock_at(a, k) <= #[trigger] clock_at(b, k)
}

/// `a` happened before `b`: `a <= b` component-wise, and strictly below it somewhere.
pub open spec fn clock_before(a: Map<Seq<char>, u64>, b: Map<Seq<char>, u64>) -> bool {
    &&& clock_le(a, b)
    &&& exists|k: Seq<char>| #[trigger] clock_at(a, k) < #[trigger] clock_at(b, k)
}

/// Neither clock is below the other.
pub open spec fn clock_concurrent(a: Map<Seq<char>, u64>, b: Map<Seq<char>, u64>) -> bool {
    !clock_le(a, b) && !clock_le(b, a)
}

/// The partial-order answer: `Some(true)` when `a` happened before `b`,
/// `Some(false)` when `b` is at or below `a`, `None` when they are concurrent.
pub open spec fn clock_compare(a: Map<Seq<char>, u64>, b: Map<Seq<char>, u64>) -> Option<bool> {
    if clock_before(a, b) {
        Some(true)
    } else if clock_le(b, a) {
        Some(false)
    } else {
        None
    }
}

pub open spec fn max_int(x: int, y: int) -> int {
    if x >= y { x } else { y }
}

/// The component-wise maximum, over the nodes of either clock.
pub open spec fn clock_merge(a: Map<Seq<char>, u64>, b: Map<Seq<char>, u64>) -> Map<Seq<char>, u64> {
    Map::new(
        |k: Seq<char>| a.contains_key(k) || b.contains_key(k),
        |k: Seq<char>| max_int(clock_at(a, k), clock_at(b, k)) as u64,
    )
}

/// One step of summing the counters of `c`.
pub open spec fn total_step(c: Map<Seq<char>, u64>) -> spec_fn(int, Seq<char>) -> int {
    |acc: int, k: Seq<char>| acc + c[k] as int
}

/// The sum of all counters of a clock.
pub open spec fn clock_total(c: Map<Seq<char>, u64>) -> int {
    c.dom().fold(0int, total_step(c))
}

/// Some node of `over` has a smaller counter in `a` than in `b`.
pub open spec fn below_somewhere(a: Map<Seq<char>, u64>, b: Map<Seq<char>, u64>, over: Set<Seq<char>>) -> bool {
    exists|k: Seq<char>| #[trigger] over.contains(k) && clock_at(a, k) < clock_at(b, k)
}

/// The position of the entry that last-writer-wins picks: the last one whose
/// clock has the largest counter sum.
pub open spec fn lww_winner(s: Seq<(String, VectorClock)>) -> int
    decreases s.len(),
{
    if s.len() <= 1 {
        0
    } else {
        let j = lww_winner(s.drop_last());
        if clock_total(s.last().1@) >= clock_total(s[j].1@) { s.len() - 1 } else { j }
    }
}

/// All clocks of the entries merged, starting from the empty clock.
pub open spec fn merge_all(s: Seq<(String, VectorClock)>) -> Map<Seq<char>, u64>
    decreases s.len(),
{
    if s.len() == 0 {
        Map::empty()
    } else {
        clock_merge(merge_all(s.drop_last()), s.last().1@)
    }
}

/// The counter of `node` in `c`, zero when absent.
pub fn counter(c: &StrMap<u64>, node: &str) -> (n: u64)
    ensures
        n == clock_at(c@, node@),
{
    match c.get(node) {
        Some(v) => *v,
        None => 0,
    }
}

/// Whether some node of `over` counts less in `self` than in `other`.
pub fn below_at_some(a: &StrMap<u64>, b: &StrMap<u64>, over: &StrMap<u64>) -> (r: bool)
    ensures
        r == below_somewhere(a@, b@, over@.dom()),
{
    let entries = over.entries();
    let mut found = false;
    let mut i: usize = 0;
    proof {
        lemma_entries_empty_prefix(entries@);
    }
    while i < entries.len()
        invariant
            i <= entries@.len(),
            lists_map(entries@, over@),
            found == below_somewhere(a@, b@, entries_map(entries@.take(i as int)).dom()),
        decreases entries@.len() - i,
    {
        let key = entries[i].0.as_str();
        let x = counter(a, key);
        let y = counter(b, key);
        proof {
            lemma_entries_prefix_step(entries@, i as int);
            let d = entries_map(entries@.take(i as int)).dom();
            let d2 = entries_map(entries@.take(i as int + 1)).dom();
            assert(d2 =~= d.insert(key@));
            if x < y {
                assert(d2.contains(key@));
                assert(below_somewhere(a@, b@, d2));
            }
            if below_somewhere(a@, b@, d) {
                let k = choose|k: Seq<char>| #[trigger] d.contains(k) && clock_at(a@, k) < clock_at(b@, k);
                assert(d2.contains(k));
            }
            if below_somewhere(a@, b@, d2) && !(x < y) {
                let k = choose|k: Seq<char>| #[trigger] d2.contains(k) && clock_at(a@, k) < clock_at(b@, k);
                assert(d.contains(k));
            }
        }
        if x < y {
            found = true;
        }
        i = i + 1;
    }
    proof {
        lemma_listing_is_map(entries@, over@);
    }
    found
}

/// Whether two clocks hold exactly the same nodes with the same counters.
pub fn same_clock(a: &StrMap<u64>, b: &StrMap<u64>) -> (r: bool)
    ensures
        r == (a@ == b@),
{
    let ea = a.entries();
    if ea.len() != b.len() {
        return false;
    }
    let mut i: usize = 0;
    while i < ea.len()
        invariant
            i <= ea@.len(),
            lists_map(ea@, a@),
            ea@.len() == b@.len(),
            b@.dom().finite(),
            forall|j: int| #![trigger ea@[j]] 0 <= j < i ==> b@.contains_key(ea@[j].0@) && b@[ea@[j].0@] == ea@[j].1,
        decreases ea@.len() - i,
    {
        match b.get(ea[i].0.as_str()) {
            Some(v) => {
                if *v != ea[i].1 {
                    proof {
                        assert(a@.contains_key(ea@[i as int].0@));
                    }
                    return false;
                }
                proof {
                    assert(b@.contains_key(ea@[i as int].0@) && b@[ea@[i as int].0@] == ea@[i as int].1);
                }
            },
            None => {
                proof {
                    assert(a@.contains_key(ea@[i as int].0@));
                }
                return false;
            },
        }
        i = i + 1;
    }
    proof {
        assert(a@.dom().subset_of(b@.dom())) by {
            assert forall|k: Seq<char>| a@.dom().contains(k) implies b@.dom().contains(k) by {
                let j = choose|j: int| 0 <= j < ea@.len() && ea@[j].0@ == k;
                assert(b@.contains_key(ea@[j].0@));
            }
        }
        vstd::set_lib::lemma_subset_equality(a@.dom(), b@.dom());
        assert(a@ =~= b@) by {
            assert forall|k: Seq<char>| #[trigger] a@.contains_key(k) implies a@[k] == b@[k] by {
                let j = choose|j: int| 0 <= j < ea@.len() && ea@[j].0@ == k;
                assert(b@.contains_key(ea@[j].0@));
                assert(a@.contains_key(ea@[j].0@));
            }
        }
    }
    true
}

/// Merging clocks is commutative.
pub proof fn law_merge_commutative(a: Map<Seq<char>, u64>, b: Map<Seq<char>, u64>)
    ensures
        clock_merge(a, b) == clock_merge(b, a),
{
    assert(clock_merge(a, b) =~= clock_merge(b, a));
}

/// Merging clocks is associative.
pub proof fn law_merge_associative(a: Map<Seq<char>, u64>, b: Map<Seq<char>, u64>, c: Map<Seq<char>, u64>)
    ensures
        clock_merge(clock_merge(a, b), c) == clock_merge(a, clock_merge(b, c)),
{
    assert(clock_merge(clock_merge(a, b), c) =~= clock_merge(a, clock_merge(b, c)));
}

/// Merging a clock with itself gives the same clock.
pub proof fn law_merge_idempotent(a: Map<Seq<char>, u64>)
    ensures
        clock_merge(a, a) == a,
{
    assert(clock_merge(a, a) =~= a);
}

/// The merge is the least upper bound: both clocks are at or below it, and it
/// is at or below every clock that both are at or below.
pub proof fn law_merge_least_upper_bound(a: Map<Seq<char>, u64>, b: Map<Seq<char>, u64>, c: Map<Seq<char>, u64>)
    ensures
        clock_le(a, clock_merge(a, b)),
        clock_le(b, clock_merge(a, b)),
        clock_le(a, c) && clock_le(b, c) ==> clock_le(clock_merge(a, b), c),
{
    let m = clock_merge(a, b);
    assert forall|k: Seq<char>| #[trigger] clock_at(a, k) <= #[trigger] clock_at(m, k) by {}
    assert forall|k: Seq<char>| #[trigger] clock_at(b, k) <= #[trigger] clock_at(m, k) by {}
    if clock_le(a, c) && clock_le(b, c) {
        assert forall|k: Seq<char>| #[trigger] clock_at(m, k) <= #[trigger] clock_at(c, k) by {
            assert(clock_at(a, k) <= clock_at(c, k));
            assert(clock_at(b, k) <= clock_at(c, k));
        }
    }
}

/// Happened-before is a strict partial order: no clock happened before
/// itself, it never holds both ways, and it is transitive.
pub proof fn law_before_strict_order(a: Map<Seq<char>, u64>, b: Map<Seq<char>, u64>, c: Map<Seq<char>, u64>)
    ensures
        !clock_before(a, a),
        clock_before(a, b) ==> !clock_before(b, a),
        clock_before(a, b) && clock_before(b, c) ==> clock_before(a, c),
{
    if clock_before(a, b) && clock_before(b, a) {
        let k = choose|k: Seq<char>| #[trigger] clock_at(a, k) < #[trigger] clock_at(b, k);
        assert(clock_at(b, k) <= clock_at(a, k));
    }
    if clock_before(a, b) && clock_before(b, c) {
        let k = choose|k: Seq<char>| #[trigger] clock_at(a, k) < #[trigger] clock_at(b, k);
        assert(clock_at(b, k) <= clock_at(c, k));
        assert(clock_at(a, k) < clock_at(c, k));
        assert forall|j: Seq<char>| #[trigger] clock_at(a, j) <= #[trigger] clock_at(c, j) by {
            assert(clock_at(a, j) <= clock_at(b, j));
            assert(clock_at(b, j) <= clock_at(c, j));
        }
    }
}

/// Two clocks are related in exactly one way: one happened before the other,
/// they are concurrent, or they count the same everywhere; concurrency is
/// symmetric, and `compare` tells which.
pub proof fn law_compare_trichotomy(a: Map<Seq<char>, u64>, b: Map<Seq<char>, u64>)
    ensures
        clock_concurrent(a, b) == clock_concurrent(b, a),
        clock_compare(a, b) == Some(true) <==> clock_before(a, b),
        clock_compare(a, b) is None <==> clock_concurrent(a, b),
        clock_compare(a, b) == Some(false) <==> (clock_before(b, a) || (clock_le(a, b) && clock_le(b, a))),
        clock_before(a, b) || clock_before(b, a) || clock_concurrent(a, b) || (clock_le(a, b) && clock_le(b, a)),
{
    if clock_le(a, b) && !clock_le(b, a) {
        let k = choose|k: Seq<char>| !(#[trigger] clock_at(b, k) <= #[trigger] clock_at(a, k));
        assert(clock_at(a, k) < clock_at(b, k));
    }
    if clock_le(b, a) && !clock_le(a, b) {
        let k = choose|k: Seq<char>| !(#[trigger] clock_at(a, k) <= #[trigger] clock_at(b, k));
        assert(clock_at(b, k) < clock_at(a, k));
    }
    if clock_before(a, b) {
        let k = choose|k: Seq<char>| #[trigger] clock_at(a, k) < #[trigger] clock_at(b, k);
        assert(!(clock_at(b, k) <= clock_at(a, k)));
    }
}

/// Counting an event at a node makes the clock strictly later: the old clock
/// happened before the new one.
pub proof fn law_increment_advances(c: Map<Seq<char>, u64>, node: Seq<char>)
    requires
        clock_at(c, node) < u64::MAX,
    ensures
        clock_before(c, c.insert(node, (clock_at(c, node) + 1) as u64)),
{
    let d = c.insert(node, (clock_at(c, node) + 1) as u64);
    assert(clock_at(c, node) < clock_at(d, node));
    assert forall|k: Seq<char>| #[trigger] clock_at(c, k) <= #[trigger] clock_at(d, k) by {}
}

/// A vector clock: the number of events seen from each node.
#[derive(Debug, Clone)]
pub struct VectorClock {
    pub clock: StrMap<u64>,
}

impl View for VectorClock {
    type V = Map<Seq<char>, u64>;

    open spec fn view(&self) -> Map<Seq<char>, u64> {
        self.clock@
    }
}

/// Two vector clocks are equal when they hold the same nodes with the same
/// counters.
impl PartialEq for VectorClock {
    fn eq(&self, other: &VectorClock) -> (r: bool) {
        same_clock(&self.clock, &other.clock)
    }
}

impl Eq for VectorClock {}

impl PartialEqSpecImpl for VectorClock {
    open spec fn obeys_eq_spec() -> bool {
        true
    }

    open spec fn eq_spec(&self, other: &VectorClock) -> bool {
        self@ == other@
    }
}

impl VectorClock {
    /// A clock with no events.
    pub fn new() -> (vc: Self)
        ensures
            vc@ == Map::<Seq<char>, u64>::empty(),
    {
        VectorClock { clock: StrMap::new() }
    }

    /// Records one more event at `node_id`.
    pub fn increment(&mut self, node_id: &str)
        requires
            clock_at(old(self)@, node_id@) < u64::MAX,
        ensures
            final(self)@ == old(self)@.insert(node_id@, (clock_at(old(self)@, node_id@) + 1) as u64),
    {
        let c = self.get(node_id);
        self.clock.insert(node_id.to_owned(), c + 1);
    }

    /// The counter of `node_id`, zero when absent.
    pub fn get(&self, node_id: &str) -> (n: u64)
        ensures
            n == clock_at(self@, node_id@),
    {
        counter(&self.clock, node_id)
    }

    /// A copy of this clock.
    pub fn duplicate(&self) -> (vc: VectorClock)
        ensures
            vc@ == self@,
    {
        VectorClock { clock: self.clock.duplicate() }
    }

    /// The component-wise maximum of the two clocks.
    pub fn merge(&self, other: &VectorClock) -> (vc: VectorClock)
        ensures
            vc@ == clock_merge(self@, other@),
    {
        let mut result = self.clock.duplicate();
        let entries = other.clock.entries();
        let mut i: usize = 0;
        proof {
            lemma_entries_empty_prefix(entries@);
            assert(result@ =~= clock_merge(self@, Map::empty()));
        }
        while i < entries.len()
            invariant
                i <= entries@.len(),
                lists_map(entries@, other@),
                result@ == clock_merge(self@, entries_map(entries@.take(i as int))),
            decreases entries@.len() - i,
        {
            let key = &entries[i].0;
            let v = entries[i].1;
            let cur = match result.get(key.as_str()) {
                Some(x) => *x,
                None => 0,
            };
            let m = if cur >= v { cur } else { v };
            proof {
                lemma_entries_prefix_step(entries@, i as int);
            }
            result.insert(key.clone(), m);
            proof {
                let p = entries_map(entries@.take(i as int));
                assert(cur == clock_at(self@, key@));
                assert(result@ =~= clock_merge(self@, p.insert(key@, v)));
            }
            i = i + 1;
        }
        proof {
            lemma_listing_is_map(entries@, other@);
        }
        VectorClock { clock: result }
    }

    /// The sum of all counters.
    pub fn total(&self) -> (t: u64)
        requires
            clock_total(self@) <= u64::MAX,
        ensures
            t == clock_total(self@),
    {
        let entries = self.clock.entries();
        let ghost c = self@;
        let mut sum: u128 = 0;
        let mut i: usize = 0;
        proof {
            lemma_entries_empty_prefix(entries@);
            assert(entries_map(entries@.take(0)).dom() =~= Set::<Seq<char>>::empty());
            vstd::set::fold::lemma_fold_empty(0int, total_step(c));
        }
        while i < entries.len()
            invariant
                i <= entries@.len(),
                lists_map(entries@, c),
                entries_map(entries@.take(i as int)).dom().finite(),
                sum == entries_map(entries@.take(i as int)).dom().fold(0int, total_step(c)),
                sum <= i * (u64::MAX as int),
            decreases entries@.len() - i,
        {
            proof {
                lemma_entries_prefix_step(entries@, i as int);
                let d = entries_map(entries@.take(i as int)).dom();
                let k = entries@[i as int].0@;
                assert(entries_map(entries@.take(i as int + 1)).dom() =~= d.insert(k));
                assert(vstd::set::fold::is_fun_commutative(total_step(c)));
                vstd::set::fold::lemma_fold_insert(d, 0int, total_step(c), k);
                assert(c.contains_key(entries@[i as int].0@));
                assert(c[k] == entries@[i as int].1);
            }
            sum = sum + entries[i].1 as u128;
            i = i + 1;
        }
        proof {
            lemma_listing_is_map(entries@, c);
        }
        sum as u64
    }

    /// `Some(true)` if this clock happened before `other`, `Some(false)` if
    /// `other` is at or below it (equal clocks included), `None` if they are
    /// concurrent.
    pub fn compare(&self, other: &VectorClock) -> (r: Option<bool>)
        ensures
            r == clock_compare(self@, other@),
    {
        let self_less = below_at_some(&self.clock, &other.clock, &other.clock);
        let other_less = below_at_some(&other.clock, &self.clock, &self.clock);
        proof {
            if exists|k: Seq<char>| #[trigger] clock_at(self@, k) < clock_at(other@, k) {
                let k = choose|k: Seq<char>| #[trigger] clock_at(self@, k) < clock_at(other@, k);
                assert(other@.dom().contains(k));
            }
            if exists|k: Seq<char>| #[trigger] clock_at(other@, k) < clock_at(self@, k) {
                let k = choose|k: Seq<char>| #[trigger] clock_at(other@, k) < clock_at(self@, k);
                assert(self@.dom().contains(k));
            }
            assert(self_less == !clock_le(other@, self@));
            assert(other_less == !clock_le(self@, other@));
        }
        if self_less && !other_less {
            return Some(true);
        }
        if other_less && !self_less {
            return Some(false);
        }
        if !self_less && !other_less {
            return Some(false);
        }
        None
    }

    /// Neither clock is at or below the other.
    pub fn is_concurrent_with(&self, other: &VectorClock) -> (b: bool)
        ensures
            b == clock_concurrent(self@, other@),
            b == (clock_compare(self@, other@) is None),
    {
        self.compare(other).is_none()
    }

    /// This clock is at or below `other` everywhere and strictly below somewhere.
    pub fn happened_before(&self, other: &VectorClock) -> (b: bool)
        ensures
            b == clock_before(self@, other@),
    {
        match self.compare(other) {
            Some(true) => true,
            _ => false,
        }
    }
}

/// Competing values written under one key, each with its clock.
#[derive(Debug, Clone)]
pub struct ConflictEntry {
    pub key: String,
    pub values: Vec<(String, VectorClock)>,
}

/// Last writer wins: the value whose clock has the largest counter sum (the
/// last such one on a tie); the empty string when there is no value.
pub fn resolve_lww(conflict: &ConflictEntry) -> (winner: String)
    requires
        forall|i: int| 0 <= i < conflict.values@.len() ==> clock_total(#[trigger] conflict.values@[i].1@) <= u64::MAX,
    ensures
        conflict.values@.len() == 0 ==> winner@ == Seq::<char>::empty(),
        conflict.values@.len() > 0 ==> winner == conflict.values@[lww_winner(conflict.values@)].0,
{
    let values = &conflict.values;
    if values.len() == 0 {
        return String::new();
    }
    let mut best: usize = 0;
    let mut best_total: u64 = values[0].1.total();
    let mut i: usize = 1;
    while i < values.len()
        invariant
            1 <= i <= values@.len(),
            forall|j: int| 0 <= j < values@.len() ==> clock_total(#[trigger] values@[j].1@) <= u64::MAX,
            best == lww_winner(values@.take(i as int)),
            best < i,
            best_total == clock_total(values@[best as int].1@),
        decreases values@.len() - i,
    {
        let t = values[i].1.total();
        proof {
            let p = values@.take(i as int + 1);
            assert(p.drop_last() =~= values@.take(i as int));
            assert(p[best as int] == values@[best as int]);
        }
        if t >= best_total {
            best = i;
            best_total = t;
        }
        i = i + 1;
    }
    proof {
        assert(values@.take(i as int) =~= values@);
    }
    values[best].0.clone()
}

/// All clocks merged, with the first value (the empty string when there is none).
pub fn resolve_merge(conflict: &ConflictEntry) -> (r: (String, VectorClock))
    ensures
        r.1@ == merge_all(conflict.values@),
        conflict.values@.len() == 0 ==> r.0@ == Seq::<char>::empty(),
        conflict.values@.len() > 0 ==> r.0 == conflict.values@[0].0,
{
    let values = &conflict.values;
    let mut merged = VectorClock::new();
    let mut i: usize = 0;
    while i < values.len()
        invariant
            i <= values@.len(),
            merged@ == merge_all(values@.take(i as int)),
        decreases values@.len() - i,
    {
        proof {
            assert(values@.take(i as int + 1).drop_last() =~= values@.take(i as int));
        }
        merged = merged.merge(&values[i].1);
        i = i + 1;
    }
    proof {
        assert(values@.take(i as int) =~= values@);
    }
    let value = if values.len() > 0 { values[0].0.clone() } else { String::new() };
    (value, merged)
}

/// Last-writer-wins picks a latest write: the winner's clock counts at least
/// as many events in total as every other entry's, and no later entry ties
/// with it.
pub proof fn law_lww_winner_is_latest(s: Seq<(String, VectorClock)>)
    requires
        s.len() > 0,
    ensures
        0 <= lww_winner(s) < s.len(),
        forall|i: int| 0 <= i < s.len() ==> clock_total(#[trigger] s[i].1@) <= clock_total(s[lww_winner(s)].1@),
        forall|i: int| lww_winner(s) < i < s.len() ==> clock_total(#[trigger] s[i].1@) < clock_total(s[lww_winner(s)].1@),
    decreases s.len(),
{
    if s.len() > 1 {
        let d = s.drop_last();
        law_lww_winner_is_latest(d);
        let j = lww_winner(d);
        let w = lww_winner(s);
        assert(d[j] == s[j]);
        assert(s[s.len() - 1] == s.last());
        assert forall|i: int| 0 <= i < s.len() implies clock_total(#[trigger] s[i].1@) <= clock_total(s[w].1@) by {
            if i < d.len() {
                assert(d[i] == s[i]);
                assert(clock_total(d[i].1@) <= clock_total(d[j].1@));
            }
        }
        assert forall|i: int| w < i < s.len() implies clock_total(#[trigger] s[i].1@) < clock_total(s[w].1@) by {
            if i < d.len() {
                assert(d[i] == s[i]);
                assert(clock_total(d[i].1@) < clock_total(d[j].1@));
            }
        }
    }
}

} // verus!
