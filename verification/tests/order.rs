use spartacus::order::{at_most, same_key};

#[test]
fn same_key_is_equality() {
    assert!(same_key(&3u8, &3u8));
    assert!(!same_key(&3u8, &4u8));
    assert!(same_key(&(1i64, 2u8), &(1i64, 2u8)));
    assert!(!same_key(&(1i64, 2u8), &(1i64, 3u8)));
}

#[test]
fn at_most_is_less_or_equal() {
    assert!(at_most(&3i32, &3i32));
    assert!(at_most(&-3i32, &3i32));
    assert!(!at_most(&4i32, &3i32));
    assert!(at_most(&0usize, &usize::MAX));
    assert!(!at_most(&usize::MAX, &0usize));
}
