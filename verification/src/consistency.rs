//! Replicated key-value stores under strong, eventual and causal consistency.

use vstd::prelude::*;
use crate::strmap::StrMap;
use crate::vector_clock::{clock_at, clock_before, clock_concurrent, counter, below_at_some, law_increment_advances};

verus! {

/// How a store tracks its writes.
#[derive(Debug, Clone, Copy, PartialEq, Eq, Structural)]
pub enum ConsistencyModel {
    Strong,
    Eventual,
    Causal,
}

/// A stored value with its version, timestamp and causal clock.
#[derive(Debug, Clone)]
pub struct VersionedValue {
    pub value: String,
    pub version: u64,
    pub timestamp: u64,
    pub vector_clock: StrMap<u64>,
}

impl VersionedValue {
    /// The two values agree in every field.
    pub open spec fn same_as(self, other: VersionedValue) -> bool {
        &&& self.value@ == other.value@
        &&& self.version == other.version
        &&& self.timestamp == other.timestamp
        &&& self.vector_clock@ == other.vector_clock@
    }

    /// A copy of this value.
    pub fn duplicate(&self) -> (r: VersionedValue)
        ensures
            r.same_as(*self),
    {
        VersionedValue {
            value: self.value.clone(),
            version: self.version,
            timestamp: self.timestamp,
            vector_clock: self.vector_clock.duplicate(),
        }
    }
}

/// The version that the next write of `key` gets: one more than the stored one, or 1.
pub open spec fn next_version(data: Map<Seq<char>, VersionedValue>, key: Seq<char>) -> int {
    if data.contains_key(key) { data[key].version + 1 } else { 1 }
}

/// The clock that a causal write of `key` by `node` gets: the stored clock with
/// `node` counted once more, or a clock that counts only that write.
pub open spec fn next_clock(data: Map<Seq<char>, VersionedValue>, key: Seq<char>, node: Seq<char>) -> Map<Seq<char>, u64> {
    if data.contains_key(key) {
        let c = data[key].vector_clock@;
        c.insert(node, (clock_at(c, node) + 1) as u64)
    } else {
        map![node => 1u64]
    }
}

/// What a write of `key` by `node` under `model` may assume of the stored value.
pub open spec fn write_allowed(model: ConsistencyModel, data: Map<Seq<char>, VersionedValue>, key: Seq<char>, node: Seq<char>) -> bool {
    &&& next_version(data, key) <= u64::MAX
    &&& (model == ConsistencyModel::Causal && data.contains_key(key)) ==> clock_at(data[key].vector_clock@, node) < u64::MAX
}

/// A key-value store with one consistency model.
#[derive(Debug, Clone)]
pub struct DataStore {
    pub data: StrMap<VersionedValue>,
    pub consistency: ConsistencyModel,
}

impl DataStore {
    /// An empty store.
    pub fn new(consistency: ConsistencyModel) -> (s: Self)
        ensures
            s.data@ == Map::<Seq<char>, VersionedValue>::empty(),
            s.consistency == consistency,
    {
        DataStore { data: StrMap::new(), consistency }
    }

    /// Stores `value` under `key`. The version counts the writes of the key;
    /// under the causal model the clock also counts the writes of each node.
    pub fn write(&mut self, key: &str, value: String, node_id: &str)
        requires
            write_allowed(old(self).consistency, old(self).data@, key@, node_id@),
        ensures
            final(self).consistency == old(self).consistency,
            final(self).data@ == old(self).data@.insert(key@, final(self).data@[key@]),
            final(self).data@[key@].value == value,
            final(self).data@[key@].version == next_version(old(self).data@, key@),
            final(self).data@[key@].timestamp == 0,
            final(self).data@[key@].vector_clock@ == (if old(self).consistency == ConsistencyModel::Causal {
                next_clock(old(self).data@, key@, node_id@)
            } else {
                Map::<Seq<char>, u64>::empty()
            }),
    {
        match self.consistency {
            ConsistencyModel::Strong => self.write_strong(key, value),
            ConsistencyModel::Eventual => self.write_eventual(key, value, node_id),
            ConsistencyModel::Causal => self.write_causal(key, value, node_id),
        }
    }

    fn next_version_of(&self, key: &str) -> (v: u64)
        requires
            next_version(self.data@, key@) <= u64::MAX,
        ensures
            v == next_version(self.data@, key@),
    {
        match self.data.get(key) {
            Some(v) => v.version + 1,
            None => 1,
        }
    }

    fn write_strong(&mut self, key: &str, value: String)
        requires
            next_version(old(self).data@, key@) <= u64::MAX,
        ensures
            final(self).consistency == old(self).consistency,
            final(self).data@ == old(self).data@.insert(key@, final(self).data@[key@]),
            final(self).data@[key@].value == value,
            final(self).data@[key@].version == next_version(old(self).data@, key@),
            final(self).data@[key@].timestamp == 0,
            final(self).data@[key@].vector_clock@ == Map::<Seq<char>, u64>::empty(),
    {
        let version = self.next_version_of(key);
        self.data.insert(key.to_owned(), VersionedValue {
            value,
            version,
            timestamp: 0,
            vector_clock: StrMap::new(),
        });
    }

    fn write_eventual(&mut self, key: &str, value: String, node_id: &str)
        requires
            next_version(old(self).data@, key@) <= u64::MAX,
        ensures
            final(self).consistency == old(self).consistency,
            final(self).data@ == old(self).data@.insert(key@, final(self).data@[key@]),
            final(self).data@[key@].value == value,
            final(self).data@[key@].version == next_version(old(self).data@, key@),
            final(self).data@[key@].timestamp == 0,
            final(self).data@[key@].vector_clock@ == Map::<Seq<char>, u64>::empty(),
    {
        let version = self.next_version_of(key);
        self.data.insert(key.to_owned(), VersionedValue {
            value,
            version,
            timestamp: 0,
            vector_clock: StrMap::new(),
        });
    }

    fn write_causal(&mut self, key: &str, value: String, node_id: &str)
        requires
            write_allowed(ConsistencyModel::Causal, old(self).data@, key@, node_id@),
        ensures
            final(self).consistency == old(self).consistency,
            final(self).data@ == old(self).data@.insert(key@, final(self).data@[key@]),
            final(self).data@[key@].value == value,
            final(self).data@[key@].version == next_version(old(self).data@, key@),
            final(self).data@[key@].timestamp == 0,
            final(self).data@[key@].vector_clock@ == next_clock(old(self).data@, key@, node_id@),
    {
        let vc = match self.data.get(key) {
            Some(v) => {
                let mut vc = v.vector_clock.duplicate();
                let c = counter(&vc, node_id);
                vc.insert(node_id.to_owned(), c + 1);
                vc
            },
            None => {
                let mut vc = StrMap::new();
                vc.insert(node_id.to_owned(), 1u64);
                proof {
                    assert(vc@ =~= map![node_id@ => 1u64]);
                }
                vc
            },
        };
        let version = self.next_version_of(key);
        self.data.insert(key.to_owned(), VersionedValue {
            value,
            version,
            timestamp: 0,
            vector_clock: vc,
        });
    }

    /// The stored value of `key`, if any.
    pub fn read(&self, key: &str) -> (r: Option<&VersionedValue>)
        ensures
            r == (if self.data@.contains_key(key@) { Some(&self.data@[key@]) } else { None::<&VersionedValue> }),
    {
        self.data.get(key)
    }
}

/// The replica whose value of `key` last-writer-wins picks: the first one
/// holding the highest version of the key, if any replica holds the key.
pub open spec fn best_replica(replicas: Seq<DataStore>, key: Seq<char>) -> Option<int>
    decreases replicas.len(),
{
    if replicas.len() == 0 {
        None
    } else {
        let prev = replicas.drop_last();
        let b = best_replica(prev, key);
        let last = replicas.last();
        if last.data@.contains_key(key) && (b is None || last.data@[key].version > prev[b->0].data@[key].version) {
            Some(replicas.len() - 1)
        } else {
            b
        }
    }
}

pub proof fn lemma_best_replica_holds_key(replicas: Seq<DataStore>, key: Seq<char>)
    ensures
        best_replica(replicas, key) matches Some(b) ==> 0 <= b < replicas.len() && replicas[b].data@.contains_key(key),
    decreases replicas.len(),
{
    if replicas.len() > 0 {
        lemma_best_replica_holds_key(replicas.drop_last(), key);
    }
}

/// Last-writer-wins picks the highest version of the key, and the first
/// replica holding it; it picks nothing exactly when no replica holds the key.
pub proof fn law_best_replica_is_newest(replicas: Seq<DataStore>, key: Seq<char>)
    ensures
        best_replica(replicas, key) is None <==> forall|i: int| 0 <= i < replicas.len() ==> !(#[trigger] replicas[i].data@.contains_key(key)),
        best_replica(replicas, key) matches Some(b) ==> {
            &&& 0 <= b < replicas.len()
            &&& replicas[b].data@.contains_key(key)
            &&& forall|i: int| 0 <= i < replicas.len() && #[trigger] replicas[i].data@.contains_key(key) ==>
                replicas[i].data@[key].version <= replicas[b].data@[key].version
            &&& forall|i: int| 0 <= i < b && #[trigger] replicas[i].data@.contains_key(key) ==>
                replicas[i].data@[key].version < replicas[b].data@[key].version
        },
    decreases replicas.len(),
{
    if replicas.len() > 0 {
        let prev = replicas.drop_last();
        law_best_replica_is_newest(prev, key);
        assert forall|i: int| 0 <= i < prev.len() implies #[trigger] prev[i] == replicas[i] by {}
        let last = replicas.len() - 1;
        if best_replica(replicas, key) is None {
            assert forall|i: int| 0 <= i < replicas.len() implies !(#[trigger] replicas[i].data@.contains_key(key)) by {
                if i < last {
                    assert(prev[i] == replicas[i]);
                }
            }
        }
        match best_replica(replicas, key) {
            Some(b) => {
                let bp = best_replica(prev, key);
                if b == last {
                    assert forall|i: int| 0 <= i < replicas.len() && #[trigger] replicas[i].data@.contains_key(key) implies
                        replicas[i].data@[key].version <= replicas[b].data@[key].version by {
                        if i < last {
                            assert(prev[i].data@.contains_key(key));
                        }
                    }
                    assert forall|i: int| 0 <= i < b && #[trigger] replicas[i].data@.contains_key(key) implies
                        replicas[i].data@[key].version < replicas[b].data@[key].version by {
                        assert(prev[i].data@.contains_key(key));
                    }
                } else {
                    assert(bp == Some(b));
                    assert(prev[b] == replicas[b]);
                    assert forall|i: int| 0 <= i < replicas.len() && #[trigger] replicas[i].data@.contains_key(key) implies
                        replicas[i].data@[key].version <= replicas[b].data@[key].version by {
                        if i < last {
                            assert(prev[i].data@.contains_key(key));
                        }
                    }
                    assert forall|i: int| 0 <= i < b && #[trigger] replicas[i].data@.contains_key(key) implies
                        replicas[i].data@[key].version < replicas[b].data@[key].version by {
                        assert(prev[i].data@.contains_key(key));
                    }
                }
            },
            None => {},
        }
    }
}

/// A causal write happens after the write it replaces: the stored clock
/// happened before the new one.
pub proof fn law_causal_write_advances(data: Map<Seq<char>, VersionedValue>, key: Seq<char>, node: Seq<char>)
    requires
        data.contains_key(key),
        clock_at(data[key].vector_clock@, node) < u64::MAX,
    ensures
        clock_before(data[key].vector_clock@, next_clock(data, key, node)),
{
    law_increment_advances(data[key].vector_clock@, node);
}

/// Concurrency of raw clocks is symmetric, and it means that neither clock
/// happened before the other while they differ at some node.
pub proof fn law_are_concurrent_symmetric(a: Map<Seq<char>, u64>, b: Map<Seq<char>, u64>)
    ensures
        clock_concurrent(a, b) == clock_concurrent(b, a),
        clock_concurrent(a, b) == (!clock_before(a, b) && !clock_before(b, a)
            && exists|k: Seq<char>| #[trigger] clock_at(a, k) != #[trigger] clock_at(b, k)),
{
    if !clock_before(a, b) && !clock_before(b, a) && exists|k: Seq<char>| #[trigger] clock_at(a, k) != #[trigger] clock_at(b, k) {
        let k = choose|k: Seq<char>| #[trigger] clock_at(a, k) != #[trigger] clock_at(b, k);
        assert(clock_at(a, k) < clock_at(b, k) || clock_at(b, k) < clock_at(a, k));
    }
}

/// Copies the highest version of `key` among the replicas (the first replica
/// holding it wins a tie) to every replica; nothing changes when no replica
/// holds the key.
pub fn merge_replicas(replicas: &mut Vec<DataStore>, key: &str)
    ensures
        final(replicas)@.len() == old(replicas)@.len(),
        best_replica(old(replicas)@, key@) is None ==> final(replicas)@ == old(replicas)@,
        best_replica(old(replicas)@, key@) matches Some(b) ==> forall|i: int| 0 <= i < old(replicas)@.len() ==> {
            &&& #[trigger] final(replicas)@[i].consistency == old(replicas)@[i].consistency
            &&& final(replicas)@[i].data@ == old(replicas)@[i].data@.insert(key@, final(replicas)@[i].data@[key@])
            &&& final(replicas)@[i].data@[key@].same_as(old(replicas)@[b].data@[key@])
        },
{
    let ghost old_replicas = replicas@;
    let mut best: Option<usize> = None;
    let mut i: usize = 0;
    while i < replicas.len()
        invariant
            i <= replicas@.len(),
            replicas@ == old_replicas,
            best_replica(replicas@.take(i as int), key@) == (match best { Some(b) => Some(b as int), None => None::<int> }),
            best matches Some(b) ==> b < i,
        decreases replicas@.len() - i,
    {
        proof {
            assert(replicas@.take(i as int + 1).drop_last() =~= replicas@.take(i as int));
            lemma_best_replica_holds_key(replicas@.take(i as int), key@);
        }
        match replicas[i].data.get(key) {
            Some(v) => {
                let better = match best {
                    None => true,
                    Some(b) => match replicas[b].data.get(key) {
                        Some(bv) => v.version > bv.version,
                        None => true,
                    },
                };
                if better {
                    best = Some(i);
                }
            },
            None => {},
        }
        i = i + 1;
    }
    proof {
        assert(replicas@.take(i as int) =~= replicas@);
        lemma_best_replica_holds_key(replicas@, key@);
    }
    match best {
        None => {},
        Some(b) => {
            let chosen = match replicas[b].data.get(key) {
                Some(v) => v.duplicate(),
                None => {
                    proof {
                        assert(false);
                    }
                    return;
                },
            };
            let mut j: usize = 0;
            while j < replicas.len()
                invariant
                    j <= replicas@.len(),
                    replicas@.len() == old_replicas.len(),
                    chosen.same_as(old_replicas[b as int].data@[key@]),
                    forall|i: int| j <= i < replicas@.len() ==> #[trigger] replicas@[i] == old_replicas[i],
                    forall|i: int| 0 <= i < j ==> {
                        &&& #[trigger] replicas@[i].consistency == old_replicas[i].consistency
                        &&& replicas@[i].data@ == old_replicas[i].data@.insert(key@, replicas@[i].data@[key@])
                        &&& replicas@[i].data@[key@].same_as(old_replicas[b as int].data@[key@])
                    },
                decreases replicas@.len() - j,
            {
                let mut slot = DataStore::new(ConsistencyModel::Strong);
                replicas.set_and_swap(j, &mut slot);
                let copy = chosen.duplicate();
                slot.data.insert(key.to_owned(), copy);
                replicas.set_and_swap(j, &mut slot);
                j = j + 1;
            }
        },
    }
}

/// `vc1` happened before `vc2`: at or below it for every node and strictly
/// below it for some node.
pub fn happened_before(vc1: &StrMap<u64>, vc2: &StrMap<u64>) -> (b: bool)
    ensures
        b == clock_before(vc1@, vc2@),
{
    let some_above = below_at_some(vc2, vc1, vc1);
    let some_below = below_at_some(vc1, vc2, vc2);
    proof {
        if exists|k: Seq<char>| #[trigger] clock_at(vc1@, k) < clock_at(vc2@, k) {
            let k = choose|k: Seq<char>| #[trigger] clock_at(vc1@, k) < clock_at(vc2@, k);
            assert(vc2@.dom().contains(k));
        }
        if exists|k: Seq<char>| #[trigger] clock_at(vc2@, k) < clock_at(vc1@, k) {
            let k = choose|k: Seq<char>| #[trigger] clock_at(vc2@, k) < clock_at(vc1@, k);
            assert(vc1@.dom().contains(k));
        }
    }
    !some_above && some_below
}

/// Neither clock is at or below the other: each counts more than the other
/// for some node, a node absent from a clock counting 0.
pub fn are_concurrent(vc1: &StrMap<u64>, vc2: &StrMap<u64>) -> (b: bool)
    ensures
        b == clock_concurrent(vc1@, vc2@),
{
    let one_above = below_at_some(vc2, vc1, vc1);
    let two_above = below_at_some(vc1, vc2, vc2);
    proof {
        if exists|k: Seq<char>| #[trigger] clock_at(vc2@, k) < clock_at(vc1@, k) {
            let k = choose|k: Seq<char>| #[trigger] clock_at(vc2@, k) < clock_at(vc1@, k);
            assert(vc1@.dom().contains(k));
        }
        if exists|k: Seq<char>| #[trigger] clock_at(vc1@, k) < clock_at(vc2@, k) {
            let k = choose|k: Seq<char>| #[trigger] clock_at(vc1@, k) < clock_at(vc2@, k);
            assert(vc2@.dom().contains(k));
        }
    }
    one_above && two_above
}

/// Versions count the writes of each key: a key the store does not hold gets
/// version 1 whatever other keys it holds, a write of another key leaves a
/// key's next version as it was, and a write of a key sets its next version
/// to one more than the version written.
pub proof fn law_versions_count_writes_per_key(
    data: Map<Seq<char>, VersionedValue>,
    key: Seq<char>,
    other: Seq<char>,
    v: VersionedValue,
)
    ensures
        !data.contains_key(key) ==> next_version(data, key) == 1,
        other != key ==> next_version(data.insert(other, v), key) == next_version(data, key),
        next_version(data.insert(key, v), key) == v.version + 1,
        next_version(Map::empty(), key) == 1,
{
}

} // verus!
