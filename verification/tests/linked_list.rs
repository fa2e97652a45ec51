use cro_collections::sequences::CroLList;

#[test]
fn test_new_crollist() {
    let list: CroLList<i32> = CroLList::new();
    assert!(list.is_empty());
    assert_eq!(list.size(), 0);
}

#[test]
fn test_push_pop_front_ll() {
    let mut list = CroLList::new();

    list.push_front(1);
    list.push_front(2);
    list.push_front(3);

    assert_eq!(list.size(), 3);
    assert_eq!(list.pop_front(), Some(3));
    assert_eq!(list.pop_front(), Some(2));
    assert_eq!(list.pop_front(), Some(1));
    assert_eq!(list.pop_front(), None);
    assert!(list.is_empty());
}

#[test]
fn test_push_pop_back_ll() {
    let mut list = CroLList::new();

    list.push_back(1);
    list.push_back(2);
    list.push_back(3);

    assert_eq!(list.size(), 3);
    assert_eq!(list.pop_back(), Some(3));
    assert_eq!(list.pop_back(), Some(2));
    assert_eq!(list.pop_back(), Some(1));
    assert_eq!(list.pop_back(), None);
    assert!(list.is_empty());
}

#[test]
fn test_mixed_operations_ll() {
    let mut list = CroLList::new();

    list.push_back(1);
    list.push_front(2);
    list.push_back(3);
    list.push_front(4);

    assert_eq!(list.size(), 4);
    assert_eq!(list.pop_front(), Some(4));
    assert_eq!(list.pop_back(), Some(3));
    assert_eq!(list.pop_front(), Some(2));
    assert_eq!(list.pop_back(), Some(1));
}

#[test]
fn test_wipe_crollist() {
    let mut list = CroLList::new();

    list.push_back(1);
    list.push_back(2);
    list.push_back(3);

    list.wipe();
    assert!(list.is_empty());
    assert_eq!(list.pop_front(), None);
    assert_eq!(list.pop_back(), None);
}

#[test]
fn test_iterator_ll() {
    let mut list = CroLList::new();
    list.push_back(1);
    list.push_back(2);
    list.push_back(3);

    let mut iter_values = Vec::new();
    let mut cursor = list.into_iter();
    while let Some(value) = cursor.next() {
        iter_values.push(value);
    }

    assert_eq!(iter_values, vec![1, 2, 3]);
}

#[test]
fn list_front_and_back_follow_the_ends() {
    let mut list = CroLList::new();
    assert_eq!(list.front(), None);
    assert_eq!(list.back(), None);
    list.push_back(String::from("b"));
    list.push_front(String::from("a"));
    list.push_back(String::from("c"));
    assert_eq!(list.front(), Some(&String::from("a")));
    assert_eq!(list.back(), Some(&String::from("c")));
    assert_eq!(list.pop_front(), Some(String::from("a")));
    assert_eq!(list.front(), Some(&String::from("b")));
}

#[test]
fn list_reuses_nodes_through_churn() {
    let mut list = CroLList::new();
    let mut model = std::collections::VecDeque::new();
    for round in 0..50 {
        for i in 0..20 {
            if i % 2 == 0 {
                list.push_back(round * 100 + i);
                model.push_back(round * 100 + i);
            } else {
                list.push_front(round * 100 + i);
                model.push_front(round * 100 + i);
            }
        }
        for step in 0..15 {
            if step % 3 == 0 {
                assert_eq!(list.pop_back(), model.pop_back());
            } else {
                assert_eq!(list.pop_front(), model.pop_front());
            }
        }
        assert_eq!(list.size(), model.len());
        assert_eq!(list.front(), model.front());
        assert_eq!(list.back(), model.back());
    }
    assert_eq!(list.size(), 250);
    while let Some(v) = list.pop_back() {
        assert_eq!(Some(v), model.pop_back());
    }
    assert!(model.is_empty());
}
