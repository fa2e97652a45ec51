use cro_collections::sequences::CroVec;

#[test]
fn test_new_crovec() {
    let vec: CroVec<i32> = CroVec::new();
    assert_eq!(vec.size(), 0);
    assert_eq!(vec.cap(), 0);
    assert!(vec.is_empty());
}

#[test]
fn test_with_cap_vec() {
    let vec: CroVec<i32> = CroVec::with_cap(5);
    assert_eq!(vec.size(), 0);
    assert_eq!(vec.cap(), 5);
    assert!(vec.is_empty());
}

#[test]
fn test_push_pop_vec() {
    let mut vec: CroVec<i32> = CroVec::new();

    vec.push(1);
    vec.push(2);
    vec.push(3);

    assert_eq!(vec.size(), 3);
    assert!(!vec.is_empty());

    assert_eq!(vec.pop(), Some(3));
    assert_eq!(vec.pop(), Some(2));
    assert_eq!(vec.pop(), Some(1));
    assert_eq!(vec.pop(), None);

    assert!(vec.is_empty());
}

#[test]
fn test_cap_growth_vec() {
    let mut vec: CroVec<i32> = CroVec::with_cap(2);

    vec.push(1);
    vec.push(2);
    assert_eq!(vec.cap(), 2);

    vec.push(3);
    assert_eq!(vec.cap(), 4);
}

#[test]
fn test_reserve_crovec() {
    let mut vec: CroVec<i32> = CroVec::new();

    vec.reserve(5);
    assert_eq!(vec.cap(), 5);

    vec.reserve(3);
    assert_eq!(vec.cap(), 5);

    vec.reserve(10);
    assert_eq!(vec.cap(), 10);
}

#[test]
fn test_wipe_crovec() {
    let mut vec: CroVec<i32> = CroVec::new();

    vec.push(1);
    vec.push(2);
    vec.push(3);

    vec.wipe();
    assert_eq!(vec.size(), 0);
    assert!(vec.is_empty());
}

#[test]
fn test_drop_cleanup_vec() {
    let mut vec: CroVec<String> = CroVec::new();

    vec.push(String::from("test1"));
    vec.push(String::from("test2"));

    drop(vec);
}

#[test]
fn sort_orders_pairs() {
    let mut vec: CroVec<(i32, char)> = CroVec::new();
    for item in [(3, 'a'), (1, 'b'), (2, 'c'), (1, 'd'), (3, 'e'), (0, 'f')] {
        vec.push(item);
    }
    vec.sort();
    let mut seen = Vec::new();
    for i in 0..vec.size() {
        seen.push(*vec.get(i));
    }
    assert_eq!(seen, vec![(0, 'f'), (1, 'b'), (1, 'd'), (2, 'c'), (3, 'a'), (3, 'e')]);
}

fn contents(vec: &CroVec<i32>) -> Vec<i32> {
    let mut out = Vec::new();
    for i in 0..vec.size() {
        out.push(*vec.get(i));
    }
    out
}

fn filled(items: &[i32]) -> CroVec<i32> {
    let mut vec = CroVec::new();
    for item in items {
        vec.push(*item);
    }
    vec
}

#[test]
fn count_is_appends_minus_removals() {
    let mut vec: CroVec<u8> = CroVec::new();
    assert_eq!(vec.pop(), None);
    assert_eq!(vec.pop(), None);
    assert_eq!(vec.size(), 0);
    vec.push(1);
    vec.push(2);
    assert_eq!(vec.pop(), Some(2));
    vec.push(3);
    vec.push(4);
    assert_eq!(vec.size(), 3);
    assert_eq!(vec.pop(), Some(4));
    assert_eq!(vec.pop(), Some(3));
    assert_eq!(vec.pop(), Some(1));
    assert_eq!(vec.pop(), None);
    assert_eq!(vec.size(), 0);
}

#[test]
fn capacity_doubles_and_never_shrinks() {
    let mut vec: CroVec<i32> = CroVec::new();
    let mut caps = Vec::new();
    for i in 0..9 {
        vec.push(i);
        caps.push(vec.cap());
    }
    assert_eq!(caps, vec![1, 2, 4, 4, 8, 8, 8, 8, 16]);
    while vec.pop().is_some() {
        assert_eq!(vec.cap(), 16);
    }
    vec.truncate(0);
    vec.wipe();
    assert_eq!(vec.cap(), 16);
}

#[test]
fn reserve_doubles_and_reserve_exact_does_not() {
    let mut vec = filled(&[1, 2, 3]);
    assert_eq!(vec.cap(), 4);
    vec.reserve(1);
    assert_eq!(vec.cap(), 4);
    vec.reserve(6);
    assert_eq!(vec.cap(), 16);
    vec.reserve_exact(20);
    assert_eq!(vec.cap(), 23);
    vec.reserve_exact(2);
    assert_eq!(vec.cap(), 23);
    assert_eq!(contents(&vec), vec![1, 2, 3]);
}

#[test]
fn insert_and_remove_shift_the_rest() {
    let mut vec = filled(&[10, 20, 30]);
    vec.insert(0, 5);
    vec.insert(2, 15);
    vec.insert(5, 35);
    assert_eq!(contents(&vec), vec![5, 10, 15, 20, 30, 35]);
    assert_eq!(vec.cap(), 8);
    assert_eq!(vec.remove(0), 5);
    assert_eq!(vec.remove(4), 35);
    assert_eq!(vec.remove(1), 15);
    assert_eq!(contents(&vec), vec![10, 20, 30]);
    assert_eq!(vec.cap(), 8);
}

#[test]
fn swap_and_swap_remove() {
    let mut vec = filled(&[1, 2, 3, 4, 5]);
    vec.swap(0, 4);
    assert_eq!(contents(&vec), vec![5, 2, 3, 4, 1]);
    vec.swap(3, 1);
    assert_eq!(contents(&vec), vec![5, 4, 3, 2, 1]);
    vec.swap(2, 2);
    vec.swap(3, 4);
    assert_eq!(contents(&vec), vec![5, 4, 3, 1, 2]);
    assert_eq!(vec.swap_remove(0), 5);
    assert_eq!(contents(&vec), vec![2, 4, 3, 1]);
    assert_eq!(vec.swap_remove(3), 1);
    assert_eq!(contents(&vec), vec![2, 4, 3]);
}

#[test]
fn truncate_keeps_the_front() {
    let mut vec = filled(&[1, 2, 3, 4]);
    vec.truncate(9);
    assert_eq!(contents(&vec), vec![1, 2, 3, 4]);
    vec.truncate(4);
    assert_eq!(contents(&vec), vec![1, 2, 3, 4]);
    vec.truncate(1);
    assert_eq!(contents(&vec), vec![1]);
    assert_eq!(vec.cap(), 4);
}

#[test]
fn retain_keeps_the_order_of_what_stays() {
    let mut vec = filled(&[1, 2, 3, 4, 5, 6, 7, 8]);
    vec.retain(|x: &i32| *x % 3 != 0);
    assert_eq!(contents(&vec), vec![1, 2, 4, 5, 7, 8]);
    vec.retain(|x: &i32| *x > 4);
    assert_eq!(contents(&vec), vec![5, 7, 8]);
    vec.retain(|_x: &i32| false);
    assert!(vec.is_empty());
    assert_eq!(vec.cap(), 8);
}

#[test]
fn sort_orders_numbers() {
    let mut vec = filled(&[5, -1, 3, 3, 0, 9, -7, 2]);
    vec.sort();
    assert_eq!(contents(&vec), vec![-7, -1, 0, 2, 3, 3, 5, 9]);
    assert_eq!(vec.cap(), 8);
    let mut one = filled(&[4]);
    one.sort();
    assert_eq!(contents(&one), vec![4]);
    let mut none = filled(&[]);
    none.sort();
    assert!(none.is_empty());
}

#[derive(Debug, Clone, Copy)]
struct Tagged {
    rank: u8,
    tag: char,
}

impl PartialEq for Tagged {
    fn eq(&self, other: &Self) -> bool {
        self.rank == other.rank
    }
}

impl PartialOrd for Tagged {
    fn partial_cmp(&self, other: &Self) -> Option<std::cmp::Ordering> {
        self.rank.partial_cmp(&other.rank)
    }
}

#[test]
fn sort_keeps_equal_elements_in_their_order() {
    let mut vec = CroVec::new();
    let input = [(2, 'a'), (1, 'b'), (2, 'c'), (1, 'd'), (0, 'e'), (2, 'f'), (1, 'g')];
    for (rank, tag) in input {
        vec.push(Tagged { rank, tag });
    }
    vec.sort();
    let mut tags = String::new();
    for i in 0..vec.size() {
        tags.push(vec.get(i).tag);
    }
    assert_eq!(tags, "ebdgacf");
}

#[test]
fn split_off_and_append_move_elements() {
    let mut vec = filled(&[1, 2, 3, 4, 5]);
    let mut tail = vec.split_off(2);
    assert_eq!(contents(&vec), vec![1, 2]);
    assert_eq!(contents(&tail), vec![3, 4, 5]);
    assert_eq!(vec.cap(), 8);
    assert_eq!(tail.cap(), 3);
    vec.append(&mut tail);
    assert_eq!(contents(&vec), vec![1, 2, 3, 4, 5]);
    assert!(tail.is_empty());
    assert_eq!(tail.cap(), 3);
}

#[test]
fn cursor_walks_front_to_back() {
    let vec = filled(&[7, 8, 9]);
    let mut it = vec.iter();
    assert_eq!(it.size_hint(), (3, Some(3)));
    assert_eq!(it.next(), Some(&7));
    assert_eq!(it.next(), Some(&8));
    assert_eq!(it.size_hint(), (1, Some(1)));
    assert_eq!(it.next(), Some(&9));
    assert_eq!(it.next(), None);
    assert_eq!(it.next(), None);
}

#[test]
fn get_mut_and_replace_change_one_element() {
    let mut vec = filled(&[1, 2, 3]);
    *vec.get_mut(1) = 20;
    assert_eq!(vec.replace(2, 30), 3);
    assert_eq!(contents(&vec), vec![1, 20, 30]);
}

#[test]
fn mutable_cursor_changes_elements_in_place() {
    let mut vec = filled(&[1, 2, 3]);
    {
        let mut it = vec.iter_mut();
        assert_eq!(it.size_hint(), (3, Some(3)));
        let mut factor = 10;
        while let Some(item) = it.next() {
            *item *= factor;
            factor *= 10;
        }
        assert_eq!(it.size_hint(), (0, Some(0)));
        assert!(it.next().is_none());
    }
    assert_eq!(contents(&vec), vec![10, 200, 3000]);
    assert_eq!(vec.cap(), 4);
}
