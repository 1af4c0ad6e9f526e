use intrusive_list::{cmp_func, Arena, ListHead};
use std::cmp::Ordering;

fn list(arena: &mut Arena, values: &[i32]) -> (usize, Vec<usize>) {
    let head = ListHead::new(arena, -1);
    let mut nodes = Vec::new();
    for v in values {
        let n = ListHead::new(arena, *v);
        ListHead::list_add_tail(arena, n, head);
        nodes.push(n);
    }
    (head, nodes)
}

fn descending(a: &ListHead, b: &ListHead) -> Ordering {
    b.item.cmp(&a.item)
}

#[test]
fn cmp_func_orders_by_payload() {
    let lo = ListHead { next: 0, prev: 0, item: -3 };
    let hi = ListHead { next: 5, prev: 9, item: 4 };
    assert_eq!(cmp_func(&lo, &hi), Ordering::Less);
    assert_eq!(cmp_func(&hi, &lo), Ordering::Greater);
    assert_eq!(cmp_func(&lo, &lo), Ordering::Equal);
    let same = ListHead { next: 1, prev: 2, item: 4 };
    assert_eq!(cmp_func(&hi, &same), Ordering::Equal);
}

#[test]
fn merge_of_two_sorted_lists() {
    let mut arena = Arena::new();
    let (a, _) = list(&mut arena, &[1, 2, 3]);
    let (b, _) = list(&mut arena, &[10, 11, 12]);
    let merged = ListHead::merge(&mut arena, cmp_func, a, b);
    assert_eq!(
        ListHead::list_items(&arena, merged),
        vec![1, 2, 3, 10, 11, 12]
    );
}

#[test]
fn merge_interleaves() {
    let mut arena = Arena::new();
    let (a, _) = list(&mut arena, &[1, 4, 5, 9]);
    let (b, _) = list(&mut arena, &[2, 3, 6, 10, 11]);
    let merged = ListHead::merge(&mut arena, cmp_func, a, b);
    assert_eq!(
        ListHead::list_items(&arena, merged),
        vec![1, 2, 3, 4, 5, 6, 9, 10, 11]
    );
    let mut cur = merged;
    loop {
        assert_eq!(arena.prev(arena.next(cur)), cur);
        assert_eq!(arena.next(arena.prev(cur)), cur);
        cur = arena.next(cur);
        if cur == merged {
            break;
        }
    }
}

#[test]
fn merge_of_an_empty_list_with_one_member() {
    let mut arena = Arena::new();
    let (a, _) = list(&mut arena, &[]);
    let (b, nb) = list(&mut arena, &[5]);
    let merged = ListHead::merge(&mut arena, cmp_func, a, b);
    assert_eq!(ListHead::list_items(&arena, merged), vec![5]);
    assert_eq!(ListHead::list_nodes(&arena, merged), nb);

    let (c, nc) = list(&mut arena, &[5]);
    let (d, _) = list(&mut arena, &[]);
    let merged = ListHead::merge(&mut arena, cmp_func, c, d);
    assert_eq!(ListHead::list_nodes(&arena, merged), nc);
}

#[test]
fn merge_of_two_empty_lists() {
    let mut arena = Arena::new();
    let a = ListHead::new(&mut arena, -1);
    let b = ListHead::new(&mut arena, -1);
    let merged = ListHead::merge(&mut arena, cmp_func, a, b);
    assert!(ListHead::list_empty(&arena, merged));
    assert_eq!(arena.prev(merged), merged);
}

#[test]
fn merge_takes_equal_members_from_the_first_list_first() {
    let mut arena = Arena::new();
    let (a, na) = list(&mut arena, &[1, 2, 2]);
    let (b, nb) = list(&mut arena, &[2, 2, 3]);
    let merged = ListHead::merge(&mut arena, cmp_func, a, b);
    assert_eq!(
        ListHead::list_nodes(&arena, merged),
        vec![na[0], na[1], na[2], nb[0], nb[1], nb[2]]
    );
}

#[test]
fn merge_makes_a_new_sentinel_and_isolates_the_old_ones() {
    let mut arena = Arena::new();
    let (a, _) = list(&mut arena, &[1, 3]);
    let (b, _) = list(&mut arena, &[2]);
    let bystander = ListHead::new(&mut arena, 77);
    let before = arena.len();
    let merged = ListHead::merge(&mut arena, cmp_func, a, b);
    assert_eq!(merged, before);
    assert_eq!(arena.len(), before + 1);
    assert!(ListHead::list_empty(&arena, a));
    assert_eq!(arena.prev(a), a);
    assert!(ListHead::list_empty(&arena, b));
    assert_eq!(arena.prev(b), b);
    assert!(ListHead::list_empty(&arena, bystander));
    assert_eq!(arena.item(bystander), 77);
    assert!(arena.is_consistent());
    assert_eq!(ListHead::list_items(&arena, merged), vec![1, 2, 3]);
}

#[test]
fn merge_by_another_order() {
    let mut arena = Arena::new();
    let (a, _) = list(&mut arena, &[9, 4, 1]);
    let (b, _) = list(&mut arena, &[8, 5, 5, 0]);
    let merged = ListHead::merge(&mut arena, descending, a, b);
    assert_eq!(
        ListHead::list_items(&arena, merged),
        vec![9, 8, 5, 5, 4, 1, 0]
    );
}

#[test]
fn merge_of_unsorted_lists_follows_the_fronts() {
    let mut arena = Arena::new();
    let (a, _) = list(&mut arena, &[3, 1]);
    let (b, _) = list(&mut arena, &[2, 0]);
    let merged = ListHead::merge(&mut arena, cmp_func, a, b);
    assert_eq!(ListHead::list_items(&arena, merged), vec![2, 0, 3, 1]);
}
