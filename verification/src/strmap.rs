//! A small map from string keys to values, kept as a vector of entries whose
//! keys never repeat. Its meaning is a finite `Map` from the keys' characters
//! to the values.

use vstd::prelude::*;

verus! {

/// The map that a sequence of entries with distinct keys stands for.
pub open spec fn entries_map<V>(s: Seq<(String, V)>) -> Map<Seq<char>, V> {
    Map::new(
        |k: Seq<char>| exists|i: int| 0 <= i < s.len() && s[i].0@ == k,
        |k: Seq<char>| s[choose|i: int| 0 <= i < s.len() && s[i].0@ == k].1,
    )
}

/// The keys of a sequence of entries, in order.
pub open spec fn entry_keys<V>(s: Seq<(String, V)>) -> Seq<Seq<char>> {
    s.map_values(|e: (String, V)| e.0@)
}

/// No two entries share a key.
pub open spec fn keys_distinct<V>(s: Seq<(String, V)>) -> bool {
    forall|i: int, j: int|
        0 <= i < s.len() && 0 <= j < s.len() && i != j ==> #[trigger] s[i].0@ != #[trigger] s[j].0@
}

/// What every listing of a map's entries satisfies: the keys are distinct,
/// each entry is in the map, and each key of the map has an entry.
pub open spec fn lists_map<V>(s: Seq<(String, V)>, m: Map<Seq<char>, V>) -> bool {
    &&& keys_distinct(s)
    &&& s.len() == m.len()
    &&& m.dom().finite()
    &&& forall|i: int| 0 <= i < s.len() ==> #[trigger] m.contains_key(s[i].0@) && m[s[i].0@] == s[i].1
    &&& forall|k: Seq<char>| #[trigger] m.contains_key(k) ==> exists|i: int| 0 <= i < s.len() && s[i].0@ == k
}

pub proof fn lemma_entries_map_at<V>(s: Seq<(String, V)>, i: int)
    requires
        keys_distinct(s),
        0 <= i < s.len(),
    ensures
        entries_map(s).contains_key(s[i].0@),
        entries_map(s)[s[i].0@] == s[i].1,
{
    let k = s[i].0@;
    assert(exists|j: int| 0 <= j < s.len() && s[j].0@ == k);
    let j = choose|j: int| 0 <= j < s.len() && s[j].0@ == k;
    assert(j == i);
}

pub proof fn lemma_entries_map_len<V>(s: Seq<(String, V)>)
    requires
        keys_distinct(s),
    ensures
        entries_map(s).dom() == entry_keys(s).to_set(),
        entries_map(s).dom().finite(),
        entries_map(s).len() == s.len(),
{
    let ks = entry_keys(s);
    assert(entries_map(s).dom() =~= ks.to_set()) by {
        assert forall|k: Seq<char>| entries_map(s).dom().contains(k) implies ks.to_set().contains(k) by {
            let i = choose|i: int| 0 <= i < s.len() && s[i].0@ == k;
            assert(ks[i] == k);
        }
        assert forall|k: Seq<char>| ks.to_set().contains(k) implies entries_map(s).dom().contains(k) by {
            let i = choose|i: int| 0 <= i < ks.len() && ks[i] == k;
            assert(s[i].0@ == k);
        }
    }
    assert(ks.no_duplicates()) by {
        assert forall|i: int, j: int| 0 <= i < ks.len() && 0 <= j < ks.len() && i != j implies ks[i] != ks[j] by {
            assert(s[i].0@ != s[j].0@);
        }
    }
    ks.unique_seq_to_set();
}

pub proof fn lemma_lists_map<V>(s: Seq<(String, V)>)
    requires
        keys_distinct(s),
    ensures
        lists_map(s, entries_map(s)),
{
    lemma_entries_map_len(s);
    assert forall|i: int| 0 <= i < s.len() implies #[trigger] entries_map(s).contains_key(s[i].0@)
        && entries_map(s)[s[i].0@] == s[i].1 by {
        lemma_entries_map_at(s, i);
    }
}

/// Walking the entries in order: the first `i + 1` entries stand for the map of
/// the first `i` with one more key, which was not among them.
pub proof fn lemma_entries_prefix_step<V>(s: Seq<(String, V)>, i: int)
    requires
        keys_distinct(s),
        0 <= i < s.len(),
    ensures
        !entries_map(s.take(i)).contains_key(s[i].0@),
        entries_map(s.take(i + 1)) == entries_map(s.take(i)).insert(s[i].0@, s[i].1),
{
    let p = s.take(i);
    let q = s.take(i + 1);
    if entries_map(p).contains_key(s[i].0@) {
        let j = choose|j: int| 0 <= j < p.len() && p[j].0@ == s[i].0@;
        assert(s[j].0@ == s[i].0@);
    }
    assert(keys_distinct(q));
    assert(entries_map(q) =~= entries_map(p).insert(s[i].0@, s[i].1)) by {
        assert forall|k: Seq<char>| #[trigger] entries_map(q).contains_key(k)
            == entries_map(p).insert(s[i].0@, s[i].1).contains_key(k) by {
            if entries_map(q).contains_key(k) && k != s[i].0@ {
                let j = choose|j: int| 0 <= j < q.len() && q[j].0@ == k;
                assert(p[j].0@ == k);
            }
            if entries_map(p).contains_key(k) {
                let j = choose|j: int| 0 <= j < p.len() && p[j].0@ == k;
                assert(q[j].0@ == k);
            }
            if k == s[i].0@ {
                assert(q[i].0@ == k);
            }
        }
        assert forall|k: Seq<char>| #[trigger] entries_map(q).contains_key(k) implies
            entries_map(q)[k] == entries_map(p).insert(s[i].0@, s[i].1)[k] by {
            let j = choose|j: int| 0 <= j < q.len() && q[j].0@ == k;
            lemma_entries_map_at(q, j);
            if j < i {
                assert(keys_distinct(p));
                lemma_entries_map_at(p, j);
            }
        }
    }
}

/// A listing of a map stands for that map.
pub proof fn lemma_listing_is_map<V>(s: Seq<(String, V)>, m: Map<Seq<char>, V>)
    requires
        lists_map(s, m),
    ensures
        entries_map(s) == m,
        s.take(s.len() as int) == s,
{
    assert(s.take(s.len() as int) =~= s);
    assert(entries_map(s) =~= m) by {
        assert forall|k: Seq<char>| #[trigger] entries_map(s).contains_key(k) == m.contains_key(k) by {
            if m.contains_key(k) {
                let i = choose|i: int| 0 <= i < s.len() && s[i].0@ == k;
            }
        }
        assert forall|k: Seq<char>| #[trigger] entries_map(s).contains_key(k) implies entries_map(s)[k] == m[k] by {
            let i = choose|i: int| 0 <= i < s.len() && s[i].0@ == k;
            lemma_entries_map_at(s, i);
        }
    }
}

/// The empty prefix stands for the empty map.
pub proof fn lemma_entries_empty_prefix<V>(s: Seq<(String, V)>)
    ensures
        entries_map(s.take(0)) == Map::<Seq<char>, V>::empty(),
{
    assert(entries_map(s.take(0)) =~= Map::<Seq<char>, V>::empty());
}

/// A prefix of entries with distinct keys has distinct keys and a finite map.
pub proof fn lemma_prefix_distinct<V>(s: Seq<(String, V)>, i: int)
    requires
        keys_distinct(s),
        0 <= i <= s.len(),
    ensures
        keys_distinct(s.take(i)),
        entries_map(s.take(i)).dom().finite(),
        entries_map(s.take(i)).len() == i,
{
    let p = s.take(i);
    assert(keys_distinct(p)) by {
        assert forall|a: int, b: int| 0 <= a < p.len() && 0 <= b < p.len() && a != b implies #[trigger] p[a].0@ != #[trigger] p[b].0@ by {
            assert(p[a] == s[a] && p[b] == s[b]);
        }
    }
    lemma_entries_map_len(p);
}

/// A map keyed by strings; no key occurs twice among its entries.
#[derive(Debug)]
pub struct StrMap<V> {
    entries: Vec<(String, V)>,
}

impl<V> View for StrMap<V> {
    type V = Map<Seq<char>, V>;

    closed spec fn view(&self) -> Map<Seq<char>, V> {
        entries_map(self.entries@)
    }
}

impl<V> StrMap<V> {
    #[verifier::type_invariant]
    spec fn inv(&self) -> bool {
        keys_distinct(self.entries@)
    }

    /// The entries in the order in which they are kept.
    pub closed spec fn entry_seq(&self) -> Seq<(String, V)> {
        self.entries@
    }

    /// An empty map.
    pub fn new() -> (m: Self)
        ensures
            m@ == Map::<Seq<char>, V>::empty(),
            m.entry_seq() == Seq::<(String, V)>::empty(),
    {
        let m = StrMap { entries: Vec::new() };
        assert(m@ =~= Map::<Seq<char>, V>::empty());
        m
    }

    /// The entries, each key once; together they list exactly the map.
    pub fn entries(&self) -> (r: &Vec<(String, V)>)
        ensures
            r@ == self.entry_seq(),
            lists_map(r@, self@),
            self@.dom().finite(),
    {
        proof {
            use_type_invariant(self);
            lemma_lists_map(self.entries@);
        }
        &self.entries
    }

    /// The number of keys.
    pub fn len(&self) -> (n: usize)
        ensures
            n == self@.len(),
            self@.dom().finite(),
    {
        proof {
            use_type_invariant(self);
            lemma_entries_map_len(self.entries@);
        }
        self.entries.len()
    }

    /// The position of the entry whose key is `key`, if there is one.
    fn find(&self, key: &String) -> (r: Option<usize>)
        ensures
            match r {
                Some(i) => i < self.entries@.len() && self.entries@[i as int].0@ == key@,
                None => !self@.contains_key(key@),
            },
    {
        let mut i: usize = 0;
        while i < self.entries.len()
            invariant
                i <= self.entries@.len(),
                forall|j: int| 0 <= j < i ==> self.entries@[j].0@ != key@,
            decreases self.entries@.len() - i,
        {
            if self.entries[i].0 == *key {
                return Some(i);
            }
            i = i + 1;
        }
        None
    }

    /// Whether `key` has a value.
    pub fn contains_key(&self, key: &str) -> (b: bool)
        ensures
            b == self@.contains_key(key@),
    {
        proof {
            use_type_invariant(self);
        }
        let k = key.to_owned();
        match self.find(&k) {
            Some(i) => {
                proof {
                    lemma_entries_map_at(self.entries@, i as int);
                }
                true
            },
            None => false,
        }
    }

    /// The value of `key`, if it has one.
    pub fn get(&self, key: &str) -> (r: Option<&V>)
        ensures
            r == (if self@.contains_key(key@) { Some(&self@[key@]) } else { None::<&V> }),
    {
        proof {
            use_type_invariant(self);
        }
        let k = key.to_owned();
        match self.find(&k) {
            Some(i) => {
                proof {
                    lemma_entries_map_at(self.entries@, i as int);
                }
                Some(&self.entries[i].1)
            },
            None => None,
        }
    }

    /// Gives `key` the value `value`, in place of any value it had.
    pub fn insert(&mut self, key: String, value: V)
        ensures
            final(self)@ == old(self)@.insert(key@, value),
    {
        proof {
            use_type_invariant(&*self);
        }
        let ghost old_entries = self.entries@;
        let found = self.find(&key);
        let mut entries: Vec<(String, V)> = Vec::new();
        std::mem::swap(&mut self.entries, &mut entries);
        match found {
            Some(i) => {
                entries.set(i, (key, value));
                proof {
                    let s = entries@;
                    assert(keys_distinct(s));
                    assert(entries_map(s) =~= entries_map(old_entries).insert(key@, value)) by {
                        assert forall|k: Seq<char>| #[trigger] entries_map(s).contains_key(k)
                            == entries_map(old_entries).insert(key@, value).contains_key(k) by {
                            if entries_map(s).contains_key(k) {
                                let j = choose|j: int| 0 <= j < s.len() && s[j].0@ == k;
                                assert(old_entries[j].0@ == k);
                            }
                            if entries_map(old_entries).contains_key(k) {
                                let j = choose|j: int| 0 <= j < old_entries.len() && old_entries[j].0@ == k;
                                assert(s[j].0@ == k);
                            }
                        }
                        assert forall|k: Seq<char>| #[trigger] entries_map(s).contains_key(k) implies
                            entries_map(s)[k] == entries_map(old_entries).insert(key@, value)[k] by {
                            let j = choose|j: int| 0 <= j < s.len() && s[j].0@ == k;
                            lemma_entries_map_at(s, j);
                            lemma_entries_map_at(old_entries, j);
                        }
                    }
                }
            },
            None => {
                entries.push((key, value));
                proof {
                    let s = entries@;
                    assert(keys_distinct(s)) by {
                        assert forall|i: int, j: int|
                            0 <= i < s.len() && 0 <= j < s.len() && i != j implies #[trigger] s[i].0@ != #[trigger] s[j].0@ by {
                            if i < old_entries.len() && j < old_entries.len() {
                                assert(s[i] == old_entries[i] && s[j] == old_entries[j]);
                            } else if i < old_entries.len() {
                                assert(s[i] == old_entries[i]);
                                lemma_entries_map_at(old_entries, i);
                            } else {
                                assert(s[j] == old_entries[j]);
                                lemma_entries_map_at(old_entries, j);
                            }
                        }
                    }
                    assert(entries_map(s) =~= entries_map(old_entries).insert(key@, value)) by {
                        assert forall|k: Seq<char>| #[trigger] entries_map(s).contains_key(k)
                            == entries_map(old_entries).insert(key@, value).contains_key(k) by {
                            if entries_map(s).contains_key(k) && k != key@ {
                                let j = choose|j: int| 0 <= j < s.len() && s[j].0@ == k;
                                assert(old_entries[j].0@ == k);
                            }
                            if entries_map(old_entries).contains_key(k) {
                                let j = choose|j: int| 0 <= j < old_entries.len() && old_entries[j].0@ == k;
                                assert(s[j].0@ == k);
                            }
                            if k == key@ {
                                assert(s[s.len() - 1].0@ == k);
                            }
                        }
                        assert forall|k: Seq<char>| #[trigger] entries_map(s).contains_key(k) implies
                            entries_map(s)[k] == entries_map(old_entries).insert(key@, value)[k] by {
                            let j = choose|j: int| 0 <= j < s.len() && s[j].0@ == k;
                            lemma_entries_map_at(s, j);
                            if j < old_entries.len() {
                                assert(s[j] == old_entries[j]);
                                lemma_entries_map_at(old_entries, j);
                            }
                        }
                    }
                }
            },
        }
        self.entries = entries;
    }
}

impl<V: Clone> Clone for StrMap<V> {
    /// A copy with the same keys in the same order, each value cloned.
    fn clone(&self) -> (r: Self)
        ensures
            r.entry_seq().len() == self.entry_seq().len(),
            forall|i: int| 0 <= i < self.entry_seq().len() ==> #[trigger] r.entry_seq()[i].0 == self.entry_seq()[i].0,
    {
        proof {
            use_type_invariant(self);
        }
        let mut out: Vec<(String, V)> = Vec::new();
        let mut i: usize = 0;
        while i < self.entries.len()
            invariant
                i <= self.entries@.len(),
                out@.len() == i,
                forall|j: int| 0 <= j < i ==> #[trigger] out@[j].0 == self.entries@[j].0,
            decreases self.entries@.len() - i,
        {
            let key = self.entries[i].0.clone();
            let value = self.entries[i].1.clone();
            out.push((key, value));
            i = i + 1;
        }
        proof {
            assert(keys_distinct(out@)) by {
                assert forall|a: int, b: int| 0 <= a < out@.len() && 0 <= b < out@.len() && a != b
                    implies #[trigger] out@[a].0@ != #[trigger] out@[b].0@ by {
                    assert(out@[a].0 == self.entries@[a].0 && out@[b].0 == self.entries@[b].0);
                }
            }
        }
        StrMap { entries: out }
    }
}

impl<V: Copy> StrMap<V> {
    /// An independent copy with the same entries in the same order.
    pub fn duplicate(&self) -> (r: Self)
        ensures
            r@ == self@,
            r.entry_seq() == self.entry_seq(),
    {
        proof {
            use_type_invariant(self);
        }
        let mut out: Vec<(String, V)> = Vec::new();
        let mut i: usize = 0;
        while i < self.entries.len()
            invariant
                i <= self.entries@.len(),
                out@ == self.entries@.take(i as int),
            decreases self.entries@.len() - i,
        {
            let key = self.entries[i].0.clone();
            let value = self.entries[i].1;
            out.push((key, value));
            proof {
                assert(self.entries@.take(i as int + 1) =~= self.entries@.take(i as int).push(self.entries@[i as int]));
            }
            i = i + 1;
        }
        proof {
            assert(self.entries@.take(i as int) =~= self.entries@);
        }
        StrMap { entries: out }
    }
}

} // verus!
