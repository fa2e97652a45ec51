use cro_collections::maps::hash_key::fnv1a_of;
use cro_collections::maps::{CroMap, HashKey, HashStrategy, KeyHash, SeededHash};

#[test]
fn test_new_map_is_empty() {
    let map: CroMap<i32, String> = CroMap::new();
    assert!(map.is_empty());
    assert_eq!(map.size(), 0);
}

#[test]
fn test_basic_insert_and_get() {
    let mut map = CroMap::new();
    map.insert("test", 42);
    assert_eq!(map.get(&"test"), Some(&42));
    assert_eq!(map.size(), 1);
}

#[test]
fn test_update_existing_key() {
    let mut map = CroMap::new();
    map.insert("key", 100);
    assert_eq!(map.insert("key", 200), Some(100));
    assert_eq!(map.get(&"key"), Some(&200));
    assert_eq!(map.size(), 1);
}

#[test]
fn test_remove() {
    let mut map = CroMap::new();
    map.insert("key", 42);
    assert_eq!(map.remove(&"key"), Some(42));
    assert!(map.is_empty());
    assert_eq!(map.get(&"key"), None);
}

#[test]
fn test_remove_nonexistent() {
    let mut map: CroMap<&str, i32> = CroMap::new();
    assert_eq!(map.remove(&"nonexistent"), None);
}

#[test]
fn test_multiple_operations() {
    let mut map = CroMap::new();

    map.insert("a", 1);
    map.insert("b", 2);
    map.insert("c", 3);

    assert_eq!(map.get(&"a"), Some(&1));
    assert_eq!(map.get(&"b"), Some(&2));
    assert_eq!(map.get(&"c"), Some(&3));
    assert_eq!(map.size(), 3);

    assert_eq!(map.remove(&"b"), Some(2));
    assert_eq!(map.size(), 2);

    assert_eq!(map.get(&"a"), Some(&1));
    assert_eq!(map.get(&"b"), None);
    assert_eq!(map.get(&"c"), Some(&3));

    map.insert("b", 4);
    assert_eq!(map.get(&"b"), Some(&4));
}

#[test]
fn test_resize_behavior() {
    let mut map = CroMap::new();

    for i in 0..10 {
        map.insert(i, i * 10);
    }

    for i in 0..10 {
        assert_eq!(map.get(&i), Some(&(i * 10)));
    }
    assert_eq!(map.size(), 10);
}

#[test]
fn test_insert_after_remove() {
    let mut map = CroMap::new();

    map.insert("key", 1);
    map.remove(&"key");

    map.insert("key", 2);
    assert_eq!(map.get(&"key"), Some(&2));
    assert_eq!(map.size(), 1);
}

#[test]
fn test_complex_collision_scenario() {
    let mut map = CroMap::new();

    let items = vec![("abc", 1), ("bac", 2), ("cba", 3), ("acb", 4)];

    for (k, v) in items.iter() {
        map.insert(*k, *v);
    }

    for (k, v) in items.iter() {
        assert_eq!(map.get(k), Some(v));
    }

    map.remove(&"bac");
    map.remove(&"acb");

    assert_eq!(map.get(&"abc"), Some(&1));
    assert_eq!(map.get(&"cba"), Some(&3));
    assert_eq!(map.get(&"bac"), None);
    assert_eq!(map.get(&"acb"), None);

    map.insert("bac", 5);
    assert_eq!(map.get(&"bac"), Some(&5));
}

#[test]
fn test_large_number_of_operations() {
    let mut map = CroMap::new();
    let num_operations = 1000;

    for i in 0..num_operations {
        map.insert(i, i * 2);
    }

    assert_eq!(map.size(), num_operations);

    for i in 0..num_operations {
        assert_eq!(map.get(&i), Some(&(i * 2)));
    }

    for i in 0..num_operations / 2 {
        assert_eq!(map.remove(&i), Some(i * 2));
    }

    assert_eq!(map.size(), num_operations / 2);
    for i in num_operations / 2..num_operations {
        assert_eq!(map.get(&i), Some(&(i * 2)));
    }
}

#[test]
fn test_edge_cases() {
    let mut map: CroMap<String, i32> = CroMap::new();

    map.insert(String::new(), 1);
    assert_eq!(map.get(&String::new()), Some(&1));

    let long_key = "a".repeat(1000);
    map.insert(long_key.clone(), 2);
    assert_eq!(map.get(&long_key), Some(&2));
}

#[test]
fn reinsert_after_remove_among_other_keys() {
    let mut map = CroMap::new();
    map.insert("abc", 1);
    map.insert("bac", 2);
    map.insert("cba", 3);
    map.insert("acb", 4);
    assert_eq!(map.remove(&"bac"), Some(2));
    assert_eq!(map.insert("bac", 20), None);
    assert_eq!(map.get(&"bac"), Some(&20));
    assert_eq!(map.get(&"abc"), Some(&1));
    assert_eq!(map.get(&"cba"), Some(&3));
    assert_eq!(map.get(&"acb"), Some(&4));
    assert_eq!(map.size(), 4);
}

#[test]
fn default_capacity_and_growth_by_doubling() {
    let mut map: CroMap<u64, u64> = CroMap::new();
    assert_eq!(map.cap(), 16);
    // twelve pairs are three quarters of sixteen slots
    for i in 0..12 {
        map.insert(i, i);
        assert_eq!(map.cap(), 16);
    }
    map.insert(12, 12);
    assert_eq!(map.cap(), 32);
    for i in 13..24 {
        map.insert(i, i);
    }
    assert_eq!(map.cap(), 32);
    map.insert(24, 24);
    assert_eq!(map.cap(), 64);
}

#[test]
fn load_stays_under_the_ceiling() {
    let mut map: CroMap<u32, u32> = CroMap::with_cap(0);
    assert_eq!(map.cap(), 0);
    assert_eq!(map.get(&7), None);
    for i in 0..500 {
        map.insert(i * 7919, i);
        let cap = map.cap();
        assert!(map.size() <= cap - cap / 4);
    }
    assert_eq!(map.size(), 500);
}

#[test]
fn insert_on_existing_key_keeps_the_size() {
    let mut map = CroMap::new();
    assert_eq!(map.insert(5u8, 'a'), None);
    assert_eq!(map.insert(5u8, 'b'), Some('a'));
    assert_eq!(map.insert(5u8, 'c'), Some('b'));
    assert_eq!(map.size(), 1);
    assert_eq!(map.get(&5), Some(&'c'));
}

#[test]
fn colliding_keys_probe_past_tombstones() {
    // 1, 17 and 33 share the home slot 1 of a table of sixteen slots
    let mut map: CroMap<u64, &str> = CroMap::new();
    map.insert(1, "one");
    map.insert(17, "seventeen");
    map.insert(33, "thirty-three");
    assert_eq!(map.remove(&17), Some("seventeen"));
    assert_eq!(map.get(&33), Some(&"thirty-three"));
    assert_eq!(map.get(&17), None);
    // an insertion takes the tombstone and still finds the key behind it
    assert_eq!(map.insert(49, "forty-nine"), None);
    assert_eq!(map.insert(33, "again"), Some("thirty-three"));
    assert_eq!(map.size(), 3);
    assert_eq!(map.get(&49), Some(&"forty-nine"));
    assert_eq!(map.get(&1), Some(&"one"));
}

#[test]
fn heavy_churn_fills_the_table_with_tombstones() {
    let mut map: CroMap<u64, u64> = CroMap::with_cap(8);
    for round in 0..200u64 {
        assert_eq!(map.insert(round, round * 3), None);
        assert_eq!(map.get(&round), Some(&(round * 3)));
        assert_eq!(map.remove(&round), Some(round * 3));
        assert_eq!(map.get(&round), None);
    }
    assert_eq!(map.size(), 0);
    assert_eq!(map.cap(), 8);
    assert_eq!(map.get(&1000), None);
}

#[test]
fn get_mut_changes_one_value() {
    let mut map = CroMap::new();
    map.insert("a", 1);
    map.insert("b", 2);
    if let Some(value) = map.get_mut(&"a") {
        *value += 10;
    }
    assert!(map.get_mut(&"z").is_none());
    assert_eq!(map.get(&"a"), Some(&11));
    assert_eq!(map.get(&"b"), Some(&2));
    assert_eq!(map.size(), 2);
}

#[test]
fn shrink_and_reserve_rehash_without_losing_pairs() {
    let mut map: CroMap<i64, i64> = CroMap::new();
    for i in -20..20 {
        map.insert(i, -i);
    }
    assert_eq!(map.cap(), 64);
    map.reserve(100);
    assert_eq!(map.cap(), 256);
    for i in -20..10 {
        assert_eq!(map.remove(&i), Some(-i));
    }
    map.shrink_to(4);
    // four slots hold three pairs, eight hold six, sixteen hold twelve
    assert_eq!(map.cap(), 16);
    for i in 10..20 {
        assert_eq!(map.get(&i), Some(&-i));
    }
    map.shrink_to(1000);
    assert_eq!(map.cap(), 16);
    map.wipe();
    assert_eq!(map.cap(), 16);
    assert!(map.is_empty());
    map.shrink_to_fit();
    assert_eq!(map.cap(), 0);
    map.insert(1, 1);
    assert_eq!(map.cap(), 1);
    map.insert(2, 2);
    assert_eq!(map.cap(), 2);
    map.insert(3, 3);
    assert_eq!(map.cap(), 4);
    assert_eq!(map.get(&1), Some(&1));
    assert_eq!(map.get(&2), Some(&2));
    assert_eq!(map.get(&3), Some(&3));
}

#[test]
fn iter_lists_each_pair_once() {
    let mut map = CroMap::new();
    for i in 0..40i32 {
        map.insert(i, i * i);
    }
    map.remove(&7);
    let items = map.iter();
    let mut seen = Vec::new();
    for i in 0..items.size() {
        let (k, v) = *items.get(i);
        assert_eq!(*v, *k * *k);
        seen.push(*k);
    }
    seen.sort();
    let expected: Vec<i32> = (0..40).filter(|k| *k != 7).collect();
    assert_eq!(seen, expected);
}

#[test]
fn drain_empties_the_map() {
    let mut map = CroMap::new();
    map.insert(String::from("x"), 1);
    map.insert(String::from("y"), 2);
    let pairs = map.drain();
    assert_eq!(pairs.size(), 2);
    assert!(map.is_empty());
    assert_eq!(map.cap(), 16);
    let mut seen = Vec::new();
    for i in 0..pairs.size() {
        seen.push(pairs.get(i).clone());
    }
    seen.sort();
    assert_eq!(seen, vec![(String::from("x"), 1), (String::from("y"), 2)]);
}

#[test]
fn entry_lookups_hand_back_the_stored_key() {
    let mut map = CroMap::new();
    map.insert(String::from("k"), 9);
    assert_eq!(map.get_key_value(&String::from("k")), Some((&String::from("k"), &9)));
    assert_eq!(map.get_key_value(&String::from("q")), None);
    assert!(map.contains_key(&String::from("k")));
    assert_eq!(map.remove_entry(&String::from("k")), Some((String::from("k"), 9)));
    assert_eq!(map.remove_entry(&String::from("k")), None);
    assert!(!map.contains_key(&String::from("k")));
}

#[test]
fn string_hash_is_fnv1a() {
    assert_eq!(fnv1a_of(b""), 0xcbf2_9ce4_8422_2325);
    assert_eq!(fnv1a_of(b"a"), 0xaf63_dc4c_8601_ec8c);
    assert_eq!(fnv1a_of(b"foobar"), 0x8594_4171_f739_67e8);
    assert_eq!("foobar".hash_code(), 0x8594_4171_f739_67e8);
    assert_eq!(String::from("foobar").hash_code(), 0x8594_4171_f739_67e8);
}

#[test]
fn integer_keys_hash_to_themselves() {
    assert_eq!(42u64.hash_code(), 42);
    assert_eq!(42u8.hash_code(), 42);
    assert_eq!((-1i32).hash_code(), u64::MAX);
    assert_eq!((-2i8).hash_code(), u64::MAX - 1);
    assert_eq!('a'.hash_code(), 97);
    assert_eq!(true.hash_code(), 1);
    assert_eq!(false.hash_code(), 0);
    assert!(7i64.same(&7));
    assert!(!7i64.same(&8));
    assert!("ab".same(&"ab"));
    assert!(!"ab".same(&"abc"));
    assert!(!"ab".same(&"ac"));
}

#[test]
fn strategies_hash_as_they_say() {
    assert_eq!(KeyHash.hash(&5u64), 5);
    assert_eq!(KeyHash.hash(&"a"), 0xaf63_dc4c_8601_ec8c);
    assert_eq!(SeededHash::new(0).hash(&1u64), 0x0000_0100_0000_01b3);
    assert_eq!(SeededHash::new(1).hash(&1u64), 0);
    assert_eq!(SeededHash::new(3).hash(&1u64), 0x0000_0200_0000_0366);
    assert_eq!(SeededHash::new(9).seed(), 9);
}

#[test]
fn map_with_a_seeded_strategy() {
    let mut map = CroMap::with_hasher(SeededHash::new(0xfeed));
    assert_eq!(map.cap(), 16);
    assert_eq!(map.hasher().seed(), 0xfeed);
    for i in 0..100u32 {
        assert_eq!(map.insert(i, i + 1), None);
    }
    for i in 0..100u32 {
        assert_eq!(map.get(&i), Some(&(i + 1)));
    }
    assert_eq!(map.remove(&50), Some(51));
    assert_eq!(map.get(&50), None);
    assert_eq!(map.size(), 99);
    assert_eq!(map.hasher().seed(), 0xfeed);
    let small: CroMap<u8, u8, SeededHash> = CroMap::with_cap_and_hasher(4, SeededHash::new(1));
    assert_eq!(small.cap(), 4);
    assert!(small.is_empty());
}
