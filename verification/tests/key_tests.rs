use consistency::key::decimal_len;
use consistency::key::is_placeable;
use consistency::key::make_replica_key;

#[test]
fn decimal_len_counts_digits() {
    assert_eq!(decimal_len(0), 1);
    assert_eq!(decimal_len(9), 1);
    assert_eq!(decimal_len(10), 2);
    assert_eq!(decimal_len(99), 2);
    assert_eq!(decimal_len(100), 3);
    assert_eq!(decimal_len(123_456), 6);
    assert_eq!(decimal_len(usize::MAX) as usize, usize::MAX.to_string().len());
    for n in 0..2000 {
        assert_eq!(decimal_len(n) as usize, n.to_string().len());
    }
}

#[test]
fn ordinary_names_are_placeable() {
    assert!(is_placeable("Foo", 0));
    assert!(is_placeable("Foo", 3));
    assert!(is_placeable("", 1));
    assert!(is_placeable("Foo", usize::MAX));
    assert!(is_placeable("x".repeat(100_000).as_str(), 1000));
}

#[test]
fn replica_key_is_name_underscore_replica() {
    assert_eq!(make_replica_key("Foo", 0), "Foo_0");
    assert_eq!(make_replica_key("Foo", 7), "Foo_7");
    assert_eq!(make_replica_key("Foo", 10), "Foo_10");
    assert_eq!(make_replica_key("Bar", 120), "Bar_120");
    assert_eq!(make_replica_key("", 3), "_3");
    assert_eq!(make_replica_key("a_b", 45), "a_b_45");
    assert_eq!(make_replica_key("é", 1), "é_1");
    assert_eq!(make_replica_key("n", usize::MAX), format!("n_{}", usize::MAX));
}
