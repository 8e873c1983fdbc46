use topn::order::at_most;

#[test]
fn at_most_compares_integers() {
    assert!(at_most(&1, &2));
    assert!(at_most(&2, &2));
    assert!(!at_most(&3, &2));
    assert!(at_most(&i32::MIN, &i32::MAX));
    assert!(at_most(&0u8, &0u8));
    assert!(!at_most(&u64::MAX, &0));
}

#[test]
fn at_most_compares_strings_and_tuples() {
    assert!(at_most(&"apple", &"pear"));
    assert!(!at_most(&"pear", &"apple"));
    assert!(at_most(&(1, 'b'), &(2, 'a')));
    assert!(at_most(&(1, 'a'), &(1, 'b')));
    assert!(!at_most(&(1, 'b'), &(1, 'a')));
}
