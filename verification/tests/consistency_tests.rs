use lau_distributed_systems::consistency::{are_concurrent, happened_before, merge_replicas, ConsistencyModel, DataStore};
use lau_distributed_systems::strmap::StrMap;

#[test]
fn test_strong_consistency_overwrite() {
    let mut store = DataStore::new(ConsistencyModel::Strong);
    store.write("k", "v1".into(), "n1");
    store.write("k", "v2".into(), "n1");
    assert_eq!(store.read("k").unwrap().value, "v2");
    assert_eq!(store.read("k").unwrap().version, 2);
}

#[test]
fn test_eventual_replication_merge() {
    let mut replicas = vec![
        DataStore::new(ConsistencyModel::Eventual),
        DataStore::new(ConsistencyModel::Eventual),
    ];
    replicas[0].write("k", "v1".into(), "n0");
    replicas[1].write("k", "v2".into(), "n1");
    assert_eq!(replicas[0].read("k").unwrap().version, 1);
    merge_replicas(&mut replicas, "k");
    assert_eq!(replicas[0].read("k").unwrap().value, replicas[1].read("k").unwrap().value);
}

#[test]
fn test_causal_ordering() {
    let mut vc1 = StrMap::new();
    vc1.insert("a".into(), 1);
    let mut vc2 = StrMap::new();
    vc2.insert("a".into(), 2);
    assert!(happened_before(&vc1, &vc2));
    assert!(!happened_before(&vc2, &vc1));
}

#[test]
fn test_concurrent_vector_clocks() {
    let mut vc1 = StrMap::new();
    vc1.insert("a".into(), 1);
    let mut vc2 = StrMap::new();
    vc2.insert("b".into(), 1);
    assert!(are_concurrent(&vc1, &vc2));
}

#[test]
fn test_causal_write_tracks_clock() {
    let mut store = DataStore::new(ConsistencyModel::Causal);
    store.write("k", "v1".into(), "node_a");
    store.write("k", "v2".into(), "node_b");
    let v = store.read("k").unwrap();
    assert_eq!(v.vector_clock.get("node_a"), Some(&1));
    assert_eq!(v.vector_clock.get("node_b"), Some(&1));
}

#[test]
fn read_of_unwritten_key_is_none() {
    let store = DataStore::new(ConsistencyModel::Strong);
    assert!(store.read("missing").is_none());
}

#[test]
fn strong_and_eventual_writes_have_no_clock() {
    let mut store = DataStore::new(ConsistencyModel::Eventual);
    store.write("k", "v".into(), "n");
    let v = store.read("k").unwrap();
    assert_eq!(v.version, 1);
    assert_eq!(v.timestamp, 0);
    assert_eq!(v.vector_clock.len(), 0);
}

#[test]
fn causal_write_counts_each_node() {
    let mut store = DataStore::new(ConsistencyModel::Causal);
    store.write("k", "v1".into(), "a");
    store.write("k", "v2".into(), "a");
    store.write("k", "v3".into(), "b");
    let v = store.read("k").unwrap();
    assert_eq!(v.value, "v3");
    assert_eq!(v.version, 3);
    assert_eq!(v.vector_clock.get("a"), Some(&2));
    assert_eq!(v.vector_clock.get("b"), Some(&1));
}

#[test]
fn merge_picks_highest_version_first_on_tie() {
    let mut replicas = vec![
        DataStore::new(ConsistencyModel::Eventual),
        DataStore::new(ConsistencyModel::Eventual),
        DataStore::new(ConsistencyModel::Eventual),
    ];
    replicas[0].write("k", "a".into(), "n0");
    replicas[1].write("k", "b1".into(), "n1");
    replicas[1].write("k", "b2".into(), "n1");
    replicas[2].write("k", "c1".into(), "n2");
    replicas[2].write("k", "c2".into(), "n2");
    merge_replicas(&mut replicas, "k");
    for r in &replicas {
        assert_eq!(r.read("k").unwrap().value, "b2");
        assert_eq!(r.read("k").unwrap().version, 2);
    }
}

#[test]
fn merge_of_absent_key_changes_nothing() {
    let mut replicas = vec![DataStore::new(ConsistencyModel::Strong), DataStore::new(ConsistencyModel::Strong)];
    replicas[0].write("other", "x".into(), "n0");
    merge_replicas(&mut replicas, "k");
    assert!(replicas[0].read("k").is_none());
    assert!(replicas[1].read("k").is_none());
    assert!(replicas[1].read("other").is_none());
}

#[test]
fn equal_clocks_are_not_concurrent() {
    let mut a = StrMap::new();
    a.insert("x".into(), 1u64);
    let mut b = StrMap::new();
    b.insert("x".into(), 1u64);
    assert!(!are_concurrent(&a, &b));
    let mut c = StrMap::new();
    c.insert("y".into(), 0u64);
    let d: StrMap<u64> = StrMap::new();
    // A zero counter counts as an absent one: these clocks are equal.
    assert!(!are_concurrent(&c, &d));
    assert!(!happened_before(&c, &d));
    assert!(!happened_before(&d, &c));
}
