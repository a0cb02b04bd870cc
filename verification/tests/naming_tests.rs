use lau_distributed_systems::naming::{decimal_string, indexed_name};

#[test]
fn decimal_strings_have_no_leading_zeros() {
    assert_eq!(decimal_string(0), "0");
    assert_eq!(decimal_string(7), "7");
    assert_eq!(decimal_string(10), "10");
    assert_eq!(decimal_string(907), "907");
    assert_eq!(decimal_string(usize::MAX), usize::MAX.to_string());
}

#[test]
fn indexed_names_join_prefix_and_number() {
    assert_eq!(indexed_name("agent_", 12), "agent_12");
    assert_eq!(indexed_name("n", 0), "n0");
}
