use lau_distributed_systems::vector_clock::{resolve_lww, resolve_merge, ConflictEntry, VectorClock};

#[test]
fn test_increment() {
    let mut vc = VectorClock::new();
    vc.increment("a");
    vc.increment("a");
    vc.increment("b");
    assert_eq!(vc.get("a"), 2);
    assert_eq!(vc.get("b"), 1);
    assert_eq!(vc.get("c"), 0);
}

#[test]
fn test_merge() {
    let mut vc1 = VectorClock::new();
    vc1.increment("a");
    let mut vc2 = VectorClock::new();
    vc2.increment("b");
    let merged = vc1.merge(&vc2);
    assert_eq!(merged.get("a"), 1);
    assert_eq!(merged.get("b"), 1);
}

#[test]
fn test_happened_before() {
    let mut vc1 = VectorClock::new();
    vc1.increment("a");
    let mut vc2 = vc1.clone();
    vc2.increment("a");
    assert!(vc1.happened_before(&vc2));
    assert!(!vc2.happened_before(&vc1));
}

#[test]
fn test_concurrent() {
    let mut vc1 = VectorClock::new();
    vc1.increment("a");
    let mut vc2 = VectorClock::new();
    vc2.increment("b");
    assert!(vc1.is_concurrent_with(&vc2));
}

#[test]
fn test_lww_resolution() {
    let mut vc1 = VectorClock::new();
    vc1.increment("a");
    let mut vc2 = VectorClock::new();
    vc2.increment("a");
    vc2.increment("b");
    let conflict = ConflictEntry {
        key: "k".into(),
        values: vec![("old".into(), vc1), ("new".into(), vc2)],
    };
    assert_eq!(resolve_lww(&conflict), "new");
}

#[test]
fn test_equal_clocks() {
    let mut vc1 = VectorClock::new();
    vc1.increment("a");
    let mut vc2 = VectorClock::new();
    vc2.increment("a");
    assert!(!vc1.is_concurrent_with(&vc2));
    assert!(!vc1.happened_before(&vc2));
}

#[test]
fn merge_takes_maximum_per_node() {
    let mut a = VectorClock::new();
    a.increment("x");
    a.increment("x");
    a.increment("y");
    let mut b = VectorClock::new();
    b.increment("x");
    b.increment("y");
    b.increment("y");
    b.increment("y");
    b.increment("z");
    let m = a.merge(&b);
    assert_eq!(m.get("x"), 2);
    assert_eq!(m.get("y"), 3);
    assert_eq!(m.get("z"), 1);
    assert_eq!(m.clock.len(), 3);
    // Merging is commutative.
    let m2 = b.merge(&a);
    assert_eq!(m2.get("x"), 2);
    assert_eq!(m2.get("y"), 3);
    assert_eq!(m2.get("z"), 1);
    // Each input happened before (or equals) the merge.
    assert!(a.happened_before(&m));
    assert!(b.happened_before(&m));
}

#[test]
fn compare_answers_for_each_order() {
    let mut a = VectorClock::new();
    a.increment("x");
    let mut b = a.clone();
    b.increment("y");
    assert_eq!(a.compare(&b), Some(true));
    assert_eq!(b.compare(&a), Some(false));
    assert_eq!(a.compare(&a), Some(false));
    let mut c = VectorClock::new();
    c.increment("z");
    assert_eq!(a.compare(&c), None);
    assert_eq!(c.compare(&a), None);
}

#[test]
fn empty_clocks_are_equal() {
    let a = VectorClock::new();
    let b = VectorClock::new();
    assert_eq!(a.compare(&b), Some(false));
    assert!(!a.happened_before(&b));
    assert!(!a.is_concurrent_with(&b));
}

#[test]
fn total_sums_counters() {
    let mut a = VectorClock::new();
    a.increment("x");
    a.increment("x");
    a.increment("y");
    assert_eq!(a.total(), 3);
    assert_eq!(VectorClock::new().total(), 0);
}

#[test]
fn lww_empty_gives_empty_string() {
    let conflict = ConflictEntry { key: "k".into(), values: vec![] };
    assert_eq!(resolve_lww(&conflict), "");
}

#[test]
fn lww_tie_goes_to_last() {
    let mut vc1 = VectorClock::new();
    vc1.increment("a");
    let mut vc2 = VectorClock::new();
    vc2.increment("b");
    let conflict = ConflictEntry {
        key: "k".into(),
        values: vec![("first".into(), vc1), ("second".into(), vc2)],
    };
    assert_eq!(resolve_lww(&conflict), "second");
}

#[test]
fn resolve_merge_merges_and_keeps_first() {
    let mut vc1 = VectorClock::new();
    vc1.increment("a");
    let mut vc2 = VectorClock::new();
    vc2.increment("b");
    vc2.increment("b");
    let conflict = ConflictEntry {
        key: "k".into(),
        values: vec![("one".into(), vc1), ("two".into(), vc2)],
    };
    let (value, merged) = resolve_merge(&conflict);
    assert_eq!(value, "one");
    assert_eq!(merged.get("a"), 1);
    assert_eq!(merged.get("b"), 2);
    let empty = ConflictEntry { key: "k".into(), values: vec![] };
    let (value, merged) = resolve_merge(&empty);
    assert_eq!(value, "");
    assert_eq!(merged.clock.len(), 0);
}

#[test]
fn clocks_compare_equal_by_their_counters() {
    let mut a = VectorClock::new();
    let mut b = VectorClock::new();
    assert!(a == b);
    a.increment("x");
    assert!(a != b);
    b.increment("x");
    assert!(a == b);
    a.increment("y");
    b.increment("y");
    b.increment("y");
    assert!(a != b);
}
