use cro_collections::maps::CroBTree;

fn create_test_tree() -> CroBTree<i32, &'static str> {
    let mut tree = CroBTree::new();
    tree.insert(10, "ten");
    tree.insert(20, "twenty");
    tree.insert(5, "five");
    tree
}

#[test]
fn test_new_and_empty() {
    let tree: CroBTree<i32, &str> = CroBTree::new();
    assert!(tree.is_empty());
    assert_eq!(tree.len(), 0);
}

#[test]
fn test_custom_order() {
    let tree = CroBTree::<i32, &str>::with_order(4);
    assert_eq!(tree.len(), 0);
}

#[test]
fn test_insert_and_get() {
    let mut tree = CroBTree::new();

    assert_eq!(tree.insert(1, "one"), None);
    assert_eq!(tree.insert(2, "two"), None);
    assert_eq!(tree.len(), 2);

    assert_eq!(tree.insert(1, "new one"), Some("one"));
    assert_eq!(tree.len(), 2);

    assert_eq!(tree.get(&1), Some(&"new one"));
    assert_eq!(tree.get(&2), Some(&"two"));
    assert_eq!(tree.get(&3), None);
}

#[test]
fn test_contains_key() {
    let tree = create_test_tree();

    assert!(tree.contains_key(&5));
    assert!(tree.contains_key(&10));
    assert!(tree.contains_key(&20));
    assert!(!tree.contains_key(&15));
    assert!(!tree.contains_key(&0));
}

#[test]
fn test_clear() {
    let mut tree = create_test_tree();
    assert!(!tree.is_empty());

    tree.wipe();
    assert!(tree.is_empty());
    assert_eq!(tree.len(), 0);
    assert_eq!(tree.get(&10), None);
}

#[test]
fn test_ordering() {
    let mut tree = CroBTree::new();

    tree.insert(30, "thirty");
    tree.insert(10, "ten");
    tree.insert(20, "twenty");
    tree.insert(5, "five");
    tree.insert(15, "fifteen");

    assert_eq!(tree.get(&5), Some(&"five"));
    assert_eq!(tree.get(&10), Some(&"ten"));
    assert_eq!(tree.get(&15), Some(&"fifteen"));
    assert_eq!(tree.get(&20), Some(&"twenty"));
    assert_eq!(tree.get(&30), Some(&"thirty"));
}

#[test]
fn test_large_insertion() {
    let mut tree = CroBTree::new();
    let count = 1000;

    for i in 0..count {
        tree.insert(i, i.to_string());
    }

    assert_eq!(tree.len(), count);

    for i in 0..count {
        assert_eq!(tree.get(&i), Some(&i.to_string()));
    }
}

#[test]
fn test_different_types() {
    let mut string_tree: CroBTree<String, i32> = CroBTree::new();
    string_tree.insert("hello".to_string(), 1);
    string_tree.insert("world".to_string(), 2);

    assert_eq!(string_tree.get(&"hello".to_string()), Some(&1));
    assert_eq!(string_tree.get(&"world".to_string()), Some(&2));

    let mut char_tree: CroBTree<char, bool> = CroBTree::new();
    char_tree.insert('a', true);
    char_tree.insert('b', false);

    assert_eq!(char_tree.get(&'a'), Some(&true));
    assert_eq!(char_tree.get(&'b'), Some(&false));
}

#[test]
fn test_edge_cases_btree() {
    let mut tree = CroBTree::new();

    tree.insert(i32::MIN, "min");
    tree.insert(i32::MAX, "max");
    tree.insert(0, "zero");

    assert_eq!(tree.get(&i32::MIN), Some(&"min"));
    assert_eq!(tree.get(&i32::MAX), Some(&"max"));
    assert_eq!(tree.get(&0), Some(&"zero"));
}

#[test]
fn test_get_mut() {
    let mut tree = create_test_tree();

    if let Some(value) = tree.get_mut(&10) {
        *value = "TEN";
    }

    assert_eq!(tree.get(&10), Some(&"TEN"));
}

fn keys_in_order<V>(tree: &CroBTree<i32, V>) -> Vec<i32> {
    let items = tree.iter();
    let mut keys = Vec::new();
    for i in 0..items.size() {
        keys.push(*items.get(i).0);
    }
    keys
}

#[test]
fn in_order_walk_of_order_four() {
    let mut tree = CroBTree::with_order(4);
    for key in [30, 10, 20, 5, 15] {
        tree.insert(key, ());
    }
    assert_eq!(keys_in_order(&tree), vec![5, 10, 15, 20, 30]);
    assert_eq!(tree.order(), 4);
}

#[test]
fn default_order_is_six() {
    let tree: CroBTree<u8, u8> = CroBTree::new();
    assert_eq!(tree.order(), 6);
}

#[test]
fn every_insertion_order_gives_the_same_map() {
    let orders: [[i32; 4]; 6] = [
        [1, 2, 3, 4],
        [4, 3, 2, 1],
        [2, 4, 1, 3],
        [3, 1, 4, 2],
        [1, 3, 2, 4],
        [4, 1, 3, 2],
    ];
    for order in orders {
        let mut tree = CroBTree::with_order(3);
        for key in order {
            assert_eq!(tree.insert(key, key * 100), None);
        }
        assert_eq!(keys_in_order(&tree), vec![1, 2, 3, 4]);
        for key in 1..=4 {
            assert_eq!(tree.get(&key), Some(&(key * 100)));
        }
        assert_eq!(tree.get(&0), None);
        assert_eq!(tree.get(&5), None);
        assert_eq!(tree.len(), 4);
    }
}

#[test]
fn small_orders_split_often() {
    for order in 3..9usize {
        let mut tree = CroBTree::with_order(order);
        let n = 600;
        // a walk through the keys that comes by each once
        for step in 0..n {
            let key = (step * 7919) % n;
            assert_eq!(tree.insert(key, key + 1), None);
        }
        assert_eq!(tree.len(), n);
        let items = tree.iter();
        assert_eq!(items.size(), n);
        for i in 0..n {
            assert_eq!(*items.get(i).0, i);
            assert_eq!(*items.get(i).1, i + 1);
        }
        for key in 0..n {
            assert_eq!(tree.get(&key), Some(&(key + 1)));
            assert!(tree.contains_key(&key));
        }
        assert!(!tree.contains_key(&n));
    }
}

#[test]
fn replacing_a_promoted_key_keeps_the_length() {
    let mut tree = CroBTree::with_order(3);
    for key in 0..50 {
        tree.insert(key, 0);
    }
    for key in 0..50 {
        assert_eq!(tree.insert(key, key), Some(0));
        assert_eq!(tree.len(), 50);
    }
    for key in 0..50 {
        assert_eq!(tree.get(&key), Some(&key));
    }
}

#[test]
fn get_mut_reaches_keys_at_every_level() {
    let mut tree = CroBTree::with_order(4);
    for key in 0..100 {
        tree.insert(key, key);
    }
    for key in 0..100 {
        if let Some(value) = tree.get_mut(&key) {
            *value = -*value;
        }
    }
    assert!(tree.get_mut(&100).is_none());
    for key in 0..100 {
        assert_eq!(tree.get(&key), Some(&-key));
    }
    assert_eq!(tree.len(), 100);
}

#[test]
fn drain_hands_out_the_pairs_in_key_order() {
    let mut tree = CroBTree::with_order(5);
    for key in [9, 3, 7, 1, 5, 8, 2, 6, 4, 0] {
        tree.insert(key, key.to_string());
    }
    let pairs = tree.drain();
    assert!(tree.is_empty());
    assert_eq!(tree.order(), 5);
    assert_eq!(pairs.size(), 10);
    for i in 0..10 {
        assert_eq!(pairs.get(i).0, i as i32);
        assert_eq!(pairs.get(i).1, i.to_string());
    }
    assert_eq!(tree.insert(3, String::from("three")), None);
    assert_eq!(tree.len(), 1);
}
