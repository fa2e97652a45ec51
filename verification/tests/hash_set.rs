use cro_collections::maps::SeededHash;
use cro_collections::sequences::CroVec;
use cro_collections::sets::{CroHashSet, CroHashSetIter};

fn set_of(keys: &[i32]) -> CroHashSet<i32> {
    let mut set = CroHashSet::new();
    for key in keys {
        set.insert(*key);
    }
    set
}

fn sorted_rest(mut it: CroHashSetIter<'_, i32>) -> Vec<i32> {
    let mut out = Vec::new();
    while let Some(key) = it.next() {
        out.push(*key);
    }
    out.sort();
    out
}

fn keys_of(set: &CroHashSet<i32>) -> Vec<i32> {
    sorted_rest(set.iter())
}

#[test]
fn hash_set_keeps_each_key_once() {
    let mut set = CroHashSet::new();
    assert!(set.is_empty());
    assert_eq!(set.cap(), 16);
    assert!(set.insert("a"));
    assert!(set.insert("b"));
    assert!(!set.insert("a"));
    assert_eq!(set.len(), 2);
    assert!(set.contains(&"a"));
    assert!(!set.contains(&"c"));
    assert_eq!(set.get(&"b"), Some(&"b"));
    assert_eq!(set.get(&"c"), None);
    set.wipe();
    assert!(set.is_empty());
    assert_eq!(set.cap(), 16);
}

#[test]
fn hash_set_take_remove_and_replace() {
    let mut set = set_of(&[5, 1, 9, 3, 7]);
    assert_eq!(set.take(&3), Some(3));
    assert_eq!(set.take(&3), None);
    assert!(set.remove(&9));
    assert!(!set.remove(&9));
    assert_eq!(keys_of(&set), vec![1, 5, 7]);
    assert_eq!(set.replace(5), Some(5));
    assert_eq!(set.replace(6), None);
    assert_eq!(keys_of(&set), vec![1, 5, 6, 7]);
}

#[test]
fn hash_set_capacity() {
    let mut set: CroHashSet<u16> = CroHashSet::with_cap(4);
    assert_eq!(set.cap(), 4);
    for i in 0..4 {
        set.insert(i);
    }
    assert_eq!(set.cap(), 8);
    set.reserve(20);
    assert_eq!(set.cap(), 32);
    set.shrink_to(2);
    assert_eq!(set.cap(), 8);
    set.shrink_to_fit();
    assert_eq!(set.cap(), 8);
    assert_eq!(set.len(), 4);
    for i in 0..4 {
        assert!(set.contains(&i));
    }
}

#[test]
fn hash_set_drain_retain_append_extend() {
    let mut set = set_of(&[1, 2, 3, 4, 5, 6]);
    set.retain(|k: &i32| *k % 2 == 0);
    assert_eq!(keys_of(&set), vec![2, 4, 6]);
    let mut other = set_of(&[5, 6, 7]);
    set.append(&mut other);
    assert!(other.is_empty());
    assert_eq!(keys_of(&set), vec![2, 4, 5, 6, 7]);
    let mut more = CroVec::new();
    more.push(9);
    more.push(2);
    set.extend(more);
    assert_eq!(keys_of(&set), vec![2, 4, 5, 6, 7, 9]);
    let mut drained = Vec::new();
    let mut it = set.drain();
    while let Some(key) = it.next() {
        drained.push(key);
    }
    drained.sort();
    assert_eq!(drained, vec![2, 4, 5, 6, 7, 9]);
    assert!(set.is_empty());
}

#[test]
fn hash_set_algebra_by_lookup() {
    let a = set_of(&[1, 2, 3, 5, 8]);
    let b = set_of(&[2, 3, 4, 8, 9, 10]);
    let none = set_of(&[]);
    assert_eq!(sorted_rest(a.union(&b)), vec![1, 2, 3, 4, 5, 8, 9, 10]);
    assert_eq!(sorted_rest(a.intersection(&b)), vec![2, 3, 8]);
    assert_eq!(sorted_rest(a.difference(&b)), vec![1, 5]);
    assert_eq!(sorted_rest(b.difference(&a)), vec![4, 9, 10]);
    assert_eq!(sorted_rest(a.symmetric_difference(&b)), vec![1, 4, 5, 9, 10]);
    assert_eq!(sorted_rest(a.union(&none)), vec![1, 2, 3, 5, 8]);
    assert_eq!(sorted_rest(none.union(&a)), vec![1, 2, 3, 5, 8]);
    assert_eq!(sorted_rest(a.intersection(&none)), Vec::<i32>::new());
    assert_eq!(sorted_rest(a.symmetric_difference(&a)), Vec::<i32>::new());
}

#[test]
fn hash_set_comparisons() {
    let a = set_of(&[1, 2, 3]);
    let b = set_of(&[1, 2, 3, 4]);
    let c = set_of(&[7, 8]);
    let none = set_of(&[]);
    assert!(a.is_subset(&b));
    assert!(!b.is_subset(&a));
    assert!(b.is_superset(&a));
    assert!(none.is_subset(&a));
    assert!(a.is_disjoint(&c));
    assert!(!a.is_disjoint(&b));
}

#[test]
fn hash_set_into_cursor() {
    let set = set_of(&[3, 1, 2]);
    let mut it = set.into_iter();
    let mut out = Vec::new();
    while let Some(key) = it.next() {
        out.push(key);
    }
    out.sort();
    assert_eq!(out, vec![1, 2, 3]);
}

#[test]
fn hash_set_with_a_seeded_strategy() {
    let mut a = CroHashSet::with_hasher(SeededHash::new(11));
    let mut b = CroHashSet::with_cap_and_hasher(2, SeededHash::new(22));
    assert_eq!(a.cap(), 16);
    assert_eq!(b.cap(), 2);
    assert_eq!(a.hasher().seed(), 11);
    assert_eq!(b.hasher().seed(), 22);
    for i in 0..30 {
        a.insert(i);
        if i % 3 == 0 {
            b.insert(i);
        }
    }
    assert!(b.is_subset(&a));
    assert!(!a.is_subset(&b));
    let mut common = Vec::new();
    let mut it = a.intersection(&b);
    while let Some(key) = it.next() {
        common.push(*key);
    }
    common.sort();
    assert_eq!(common, vec![0, 3, 6, 9, 12, 15, 18, 21, 24, 27]);
    assert_eq!(a.hasher().seed(), 11);
}

#[test]
fn hash_set_equality_and_clone() {
    let mut a = set_of(&[1, 2, 3]);
    let b = set_of(&[3, 2, 1]);
    let c = set_of(&[1, 2, 4]);
    let d = set_of(&[1, 2]);
    assert!(a.eq(&b));
    assert!(!a.eq(&c));
    assert!(!a.eq(&d));
    assert!(!d.eq(&a));
    let copy = a.clone();
    a.insert(9);
    assert!(copy.eq(&b));
    assert!(!copy.eq(&a));
    assert_eq!(keys_of(&copy), vec![1, 2, 3]);
}
