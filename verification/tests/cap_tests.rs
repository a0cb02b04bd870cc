use lau_distributed_systems::cap::{ring_distance, CapChoice};

#[test]
fn ring_distance_goes_the_short_way() {
    assert_eq!(ring_distance(0, 0, 4), 0);
    assert_eq!(ring_distance(0, 1, 4), 1);
    assert_eq!(ring_distance(0, 3, 4), 1);
    assert_eq!(ring_distance(0, 2, 4), 2);
    assert_eq!(ring_distance(4, 1, 7), 3);
    assert_eq!(ring_distance(1, 6, 7), 2);
}

#[test]
fn ring_distance_is_symmetric() {
    for i in 0..9 {
        for j in 0..9 {
            assert_eq!(ring_distance(i, j, 9), ring_distance(j, i, 9));
            assert!(ring_distance(i, j, 9) <= 4);
        }
    }
}

#[test]
fn cap_choices_differ() {
    assert_ne!(CapChoice::Consistency, CapChoice::Availability);
}
