use cro_collections::sequences::CroQue;

#[test]
fn test_croque_basic() {
    let mut deque = CroQue::new();
    assert!(deque.is_empty());

    deque.push_back(1);
    deque.push_back(2);
    deque.push_front(0);

    assert_eq!(deque.size(), 3);
    assert_eq!(deque.pop_front(), Some(0));
    assert_eq!(deque.pop_back(), Some(2));
    assert_eq!(deque.pop_front(), Some(1));
    assert!(deque.is_empty());
}

#[test]
fn test_croque_cap() {
    let mut deque = CroQue::with_cap(2);
    assert_eq!(deque.cap(), 2);

    deque.push_back(1);
    deque.push_back(2);
    deque.push_back(3);

    assert!(deque.cap() > 2);
    assert_eq!(deque.size(), 3);
}

#[test]
fn test_croque_wipe() {
    let mut deque = CroQue::new();
    deque.push_back(1);
    deque.push_back(2);
    deque.wipe();

    assert!(deque.is_empty());
    assert_eq!(deque.pop_front(), None);
    assert_eq!(deque.pop_back(), None);
}

#[test]
fn croque_front_pushes_keep_order() {
    let mut deque = CroQue::with_cap(1);
    deque.push_front(3);
    deque.push_front(2);
    deque.push_front(1);
    deque.push_back(4);
    assert_eq!(deque.cap(), 4);
    assert_eq!(*deque.get(0), 1);
    assert_eq!(*deque.get(3), 4);
    assert_eq!(deque.set(1, 20), 2);
    assert_eq!(deque.pop_front(), Some(1));
    assert_eq!(deque.pop_front(), Some(20));
    assert_eq!(deque.pop_back(), Some(4));
    assert_eq!(deque.pop_back(), Some(3));
    assert_eq!(deque.pop_back(), None);
    assert_eq!(deque.cap(), 4);
}
