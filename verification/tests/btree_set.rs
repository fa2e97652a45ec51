use cro_collections::sequences::CroVec;
use cro_collections::sets::btree_set::{in_range, Edge, SetOrder};
use cro_collections::sets::{CroBTreeSet, CroBTreeSetIter};

fn set_of(keys: &[i32]) -> CroBTreeSet<i32> {
    let mut set = CroBTreeSet::with_order(4);
    for key in keys {
        set.insert(*key);
    }
    set
}

fn rest_of(mut it: CroBTreeSetIter<'_, i32>) -> Vec<i32> {
    let mut out = Vec::new();
    while let Some(key) = it.next() {
        out.push(*key);
    }
    out
}

fn keys_of(set: &CroBTreeSet<i32>) -> Vec<i32> {
    rest_of(set.iter())
}

#[test]
fn set_keeps_each_key_once_in_order() {
    let mut set = CroBTreeSet::new();
    assert!(set.is_empty());
    assert!(set.insert(3));
    assert!(set.insert(1));
    assert!(set.insert(2));
    assert!(!set.insert(3));
    assert_eq!(set.len(), 3);
    assert_eq!(keys_of(&set), vec![1, 2, 3]);
    assert!(set.contains(&2));
    assert!(!set.contains(&4));
    assert_eq!(set.get(&2), Some(&2));
    assert_eq!(set.get(&9), None);
    set.wipe();
    assert_eq!(set.len(), 0);
    assert!(!set.contains(&2));
}

#[test]
fn set_take_remove_and_replace() {
    let mut set = set_of(&[5, 1, 9, 3, 7]);
    assert_eq!(set.take(&3), Some(3));
    assert_eq!(set.take(&3), None);
    assert!(set.remove(&9));
    assert!(!set.remove(&9));
    assert_eq!(keys_of(&set), vec![1, 5, 7]);
    assert_eq!(set.replace(5), Some(5));
    assert_eq!(set.replace(6), None);
    assert_eq!(keys_of(&set), vec![1, 5, 6, 7]);
    assert_eq!(set.len(), 4);
}

#[test]
fn set_ends() {
    let mut set = set_of(&[4, 2, 8, 6]);
    assert_eq!(set.first(), Some(&2));
    assert_eq!(set.last(), Some(&8));
    assert_eq!(set.pop_first(), Some(2));
    assert_eq!(set.pop_last(), Some(8));
    assert_eq!(keys_of(&set), vec![4, 6]);
    assert_eq!(set.pop_first(), Some(4));
    assert_eq!(set.pop_last(), Some(6));
    assert_eq!(set.pop_first(), None);
    assert_eq!(set.pop_last(), None);
    assert_eq!(set.first(), None);
    assert_eq!(set.last(), None);
}

#[test]
fn set_cursor_hands_out_from_both_ends() {
    let set = set_of(&[1, 2, 3, 4, 5]);
    let mut it = set.iter();
    assert_eq!(it.next(), Some(&1));
    assert_eq!(it.next_back(), Some(&5));
    assert_eq!(it.next_back(), Some(&4));
    assert_eq!(it.next(), Some(&2));
    assert_eq!(it.next(), Some(&3));
    assert_eq!(it.next(), None);
    assert_eq!(it.next_back(), None);
}

#[test]
fn set_range_by_its_edges() {
    let set = set_of(&[1, 3, 5, 7, 9]);
    assert_eq!(rest_of(set.range(Edge::Included(&3), Edge::Excluded(&7))), vec![3, 5]);
    assert_eq!(rest_of(set.range(Edge::Excluded(&3), Edge::Included(&7))), vec![5, 7]);
    assert_eq!(rest_of(set.range(Edge::Unbounded, Edge::Included(&4))), vec![1, 3]);
    assert_eq!(rest_of(set.range(Edge::Included(&6), Edge::Unbounded)), vec![7, 9]);
    assert_eq!(rest_of(set.range(Edge::Unbounded, Edge::Unbounded)), vec![1, 3, 5, 7, 9]);
    assert_eq!(rest_of(set.range(Edge::Included(&8), Edge::Excluded(&8))), Vec::<i32>::new());
    assert!(in_range(&Edge::Included(&1), &Edge::Included(&1), &1));
    assert!(!in_range(&Edge::Excluded(&1), &Edge::Unbounded, &1));
    assert!(!in_range(&Edge::Unbounded, &Edge::Excluded(&1), &1));
}

#[test]
fn set_retain_append_split_and_extend() {
    let mut set = set_of(&[1, 2, 3, 4, 5, 6]);
    set.retain(|k: &i32| *k % 2 == 0);
    assert_eq!(keys_of(&set), vec![2, 4, 6]);
    let mut other = set_of(&[5, 6, 7]);
    set.append(&mut other);
    assert!(other.is_empty());
    assert_eq!(keys_of(&set), vec![2, 4, 5, 6, 7]);
    let upper = set.split_off(&5);
    assert_eq!(keys_of(&set), vec![2, 4]);
    assert_eq!(keys_of(&upper), vec![5, 6, 7]);
    let mut more = CroVec::new();
    more.push(9);
    more.push(2);
    more.push(0);
    set.extend(more);
    assert_eq!(keys_of(&set), vec![0, 2, 4, 9]);
}

#[test]
fn set_algebra_by_merging() {
    let a = set_of(&[1, 2, 3, 5, 8]);
    let b = set_of(&[2, 3, 4, 8, 9, 10]);
    let none = set_of(&[]);
    assert_eq!(rest_of(a.union(&b)), vec![1, 2, 3, 4, 5, 8, 9, 10]);
    assert_eq!(rest_of(a.intersection(&b)), vec![2, 3, 8]);
    assert_eq!(rest_of(a.difference(&b)), vec![1, 5]);
    assert_eq!(rest_of(b.difference(&a)), vec![4, 9, 10]);
    assert_eq!(rest_of(a.symmetric_difference(&b)), vec![1, 4, 5, 9, 10]);
    assert_eq!(rest_of(a.union(&none)), vec![1, 2, 3, 5, 8]);
    assert_eq!(rest_of(none.union(&a)), vec![1, 2, 3, 5, 8]);
    assert_eq!(rest_of(a.intersection(&none)), Vec::<i32>::new());
    assert_eq!(rest_of(a.difference(&a)), Vec::<i32>::new());
    assert_eq!(rest_of(a.symmetric_difference(&a)), Vec::<i32>::new());
    assert_eq!(rest_of(none.symmetric_difference(&b)), vec![2, 3, 4, 8, 9, 10]);
}

#[test]
fn set_comparisons() {
    let a = set_of(&[1, 2, 3]);
    let b = set_of(&[1, 2, 3, 4]);
    let c = set_of(&[7, 8]);
    let none = set_of(&[]);
    assert!(a.is_subset(&b));
    assert!(!b.is_subset(&a));
    assert!(b.is_superset(&a));
    assert!(!a.is_superset(&b));
    assert!(a.is_subset(&a));
    assert!(none.is_subset(&a));
    assert!(a.is_disjoint(&c));
    assert!(!a.is_disjoint(&b));
    assert!(none.is_disjoint(&none));
}

#[test]
fn set_into_cursor() {
    let set = set_of(&[3, 1, 2]);
    let mut it = set.into_iter();
    assert_eq!(it.next(), Some(1));
    assert_eq!(it.next(), Some(2));
    assert_eq!(it.next(), Some(3));
    assert_eq!(it.next(), None);
}

#[test]
fn set_of_strings_without_copies() {
    let mut set = CroBTreeSet::with_order(3);
    for word in ["pear", "apple", "fig", "plum", "kiwi", "lime", "date"] {
        assert!(set.insert(String::from(word)));
    }
    assert_eq!(set.take(&String::from("fig")), Some(String::from("fig")));
    assert_eq!(set.pop_first(), Some(String::from("apple")));
    assert_eq!(set.pop_last(), Some(String::from("plum")));
    let mut it = set.iter();
    let mut words = Vec::new();
    while let Some(word) = it.next() {
        words.push(word.as_str());
    }
    assert_eq!(words, vec!["date", "kiwi", "lime", "pear"]);
}

#[test]
fn set_equality_and_dictionary_order() {
    let a = set_of(&[1, 2, 3]);
    let b = set_of(&[3, 2, 1]);
    let c = set_of(&[1, 2, 4]);
    let d = set_of(&[1, 2]);
    let none = set_of(&[]);
    assert!(a.eq(&b));
    assert!(!a.eq(&c));
    assert!(!a.eq(&d));
    assert!(none.eq(&none));
    assert!(matches!(a.compare(&b), SetOrder::Equal));
    assert!(matches!(a.compare(&c), SetOrder::Less));
    assert!(matches!(c.compare(&a), SetOrder::Greater));
    assert!(matches!(d.compare(&a), SetOrder::Less));
    assert!(matches!(a.compare(&d), SetOrder::Greater));
    assert!(matches!(none.compare(&a), SetOrder::Less));
    assert!(matches!(none.compare(&none), SetOrder::Equal));
    assert!(matches!(set_of(&[9]).compare(&set_of(&[1, 100])), SetOrder::Greater));
}

#[test]
fn set_clone_is_a_set_of_its_own() {
    let mut a = set_of(&[1, 2, 3]);
    let b = a.clone();
    a.insert(4);
    assert_eq!(keys_of(&a), vec![1, 2, 3, 4]);
    assert_eq!(keys_of(&b), vec![1, 2, 3]);
}
