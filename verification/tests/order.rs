use cro_collections::order::{is_le, is_lt, is_same};

#[test]
fn comparisons_follow_the_order_of_the_type() {
    assert!(is_le(&1, &2));
    assert!(is_le(&2, &2));
    assert!(!is_le(&3, &2));
    assert!(is_lt(&"a", &"b"));
    assert!(!is_lt(&"b", &"b"));
    assert!(is_same(&'x', &'x'));
    assert!(!is_same(&'x', &'y'));
}
