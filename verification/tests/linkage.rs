use intrusive_list::{Arena, ListHead};

#[test]
fn test_new() {
    let mut arena = Arena::new();
    let list = ListHead::new(&mut arena, 1);

    assert_eq!(arena.item(list), 1);
    assert!(ListHead::list_empty(&arena, list));
}

#[test]
fn test_init_list_head() {
    let mut arena = Arena::new();
    let list = ListHead::new(&mut arena, 1);

    ListHead::init_list_head(&mut arena, list);

    assert_eq!(arena.item(list), 1);
    assert!(ListHead::list_empty(&arena, list));
}

#[test]
fn test_list_empty() {
    let mut arena = Arena::new();
    let list1 = ListHead::new(&mut arena, 1);
    let list2 = ListHead::new(&mut arena, 2);

    let list3 = ListHead::new(&mut arena, 3);
    ListHead::list_add_tail(&mut arena, list2, list3);

    assert!(ListHead::list_empty(&arena, list1));
    assert!(!ListHead::list_empty(&arena, list2));
}

#[test]
fn test_list_add() {
    let mut arena = Arena::new();
    let a = ListHead::new(&mut arena, 0);
    let b = ListHead::new(&mut arena, 0);
    let list = ListHead::new(&mut arena, 0);

    ListHead::list_add(&mut arena, a, list);
    ListHead::list_add(&mut arena, b, list);

    assert!(arena.next(list) == b);
    assert!(arena.prev(b) == list);
    assert!(arena.next(b) == a);
}

#[test]
fn test_list_add_tail() {
    let mut arena = Arena::new();
    let a = ListHead::new(&mut arena, 0);
    let b = ListHead::new(&mut arena, 0);
    let list = ListHead::new(&mut arena, 0);

    ListHead::list_add_tail(&mut arena, a, list);
    ListHead::list_add_tail(&mut arena, b, list);

    assert!(arena.next(list) == a);
    assert!(arena.prev(a) == list);
    assert!(arena.next(a) == b);
}

#[test]
fn test_list_del_init() {
    let mut arena = Arena::new();
    let a = ListHead::new(&mut arena, 0);
    let b = ListHead::new(&mut arena, 0);
    let list = ListHead::new(&mut arena, 0);

    ListHead::list_add_tail(&mut arena, a, list);
    ListHead::list_add_tail(&mut arena, b, list);

    ListHead::list_del_init(&mut arena, a);

    assert!(arena.next(list) == b);
    assert!(arena.prev(b) == list);
    assert!(ListHead::list_empty(&arena, a));
}

#[test]
fn test_list_replace() {
    let mut arena = Arena::new();
    let a_old = ListHead::new(&mut arena, 0);
    let a_new = ListHead::new(&mut arena, 0);
    let b = ListHead::new(&mut arena, 0);
    let list = ListHead::new(&mut arena, 0);

    ListHead::list_add_tail(&mut arena, a_old, list);
    ListHead::list_add_tail(&mut arena, b, list);

    ListHead::list_replace(&mut arena, a_old, a_new);

    assert!(arena.next(list) == a_new);
    assert!(arena.prev(b) == a_new);
    assert!(arena.next(a_new) == b);
    assert!(arena.prev(a_new) == list);
}

#[test]
fn test_list_replace_init() {
    let mut arena = Arena::new();
    let a_old = ListHead::new(&mut arena, 0);
    let a_new = ListHead::new(&mut arena, 0);
    let b = ListHead::new(&mut arena, 0);
    let list = ListHead::new(&mut arena, 0);

    ListHead::list_add_tail(&mut arena, a_old, list);
    ListHead::list_add_tail(&mut arena, b, list);

    ListHead::list_replace_init(&mut arena, a_old, a_new);

    assert!(arena.next(list) == a_new);
    assert!(arena.prev(b) == a_new);
    assert!(arena.next(a_new) == b);
    assert!(arena.prev(a_new) == list);

    assert!(ListHead::list_empty(&arena, a_old));
}

#[test]
fn test_list_swap() {
    let mut arena = Arena::new();
    let a = ListHead::new(&mut arena, 0);
    let b = ListHead::new(&mut arena, 0);
    let list = ListHead::new(&mut arena, 0);

    ListHead::list_add_tail(&mut arena, a, list);
    ListHead::list_add_tail(&mut arena, b, list);

    ListHead::list_swap(&mut arena, a, b);

    assert!(b == arena.next(list));
    assert!(a == arena.prev(list));

    assert!(a == arena.next(b));
    assert!(list == arena.prev(b));

    assert!(list == arena.next(a));
    assert!(b == arena.prev(a));
}

#[test]
fn test_list_move() {
    let mut arena = Arena::new();
    let a = ListHead::new(&mut arena, 0);
    let b = ListHead::new(&mut arena, 0);
    let list1 = ListHead::new(&mut arena, 0);
    let list2 = ListHead::new(&mut arena, 0);

    ListHead::list_add_tail(&mut arena, a, list1);
    ListHead::list_add_tail(&mut arena, b, list2);

    ListHead::list_move(&mut arena, a, list2);

    assert!(ListHead::list_empty(&arena, list1));

    assert!(a == arena.next(list2));
    assert!(b == arena.next(a));
}

#[test]
fn test_list_move_tail() {
    let mut arena = Arena::new();
    let a = ListHead::new(&mut arena, 0);
    let b = ListHead::new(&mut arena, 0);
    let list1 = ListHead::new(&mut arena, 0);
    let list2 = ListHead::new(&mut arena, 0);

    ListHead::list_add_tail(&mut arena, a, list1);
    ListHead::list_add_tail(&mut arena, b, list2);

    ListHead::list_move_tail(&mut arena, a, list2);

    assert!(ListHead::list_empty(&arena, list1));
    assert!(b == arena.next(list2));
    assert!(a == arena.next(b));
}
