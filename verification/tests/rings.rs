use intrusive_list::{Arena, ListHead};

fn build(arena: &mut Arena, values: &[i32]) -> (usize, Vec<usize>) {
    let head = ListHead::new(arena, -1);
    let mut nodes = Vec::new();
    for v in values {
        let n = ListHead::new(arena, *v);
        ListHead::list_add_tail(arena, n, head);
        nodes.push(n);
    }
    (head, nodes)
}

fn assert_circular(arena: &Arena, head: usize) {
    assert!(arena.is_consistent());
    assert!(arena.is_linked(head));
    let mut cur = head;
    loop {
        assert_eq!(arena.prev(arena.next(cur)), cur);
        assert_eq!(arena.next(arena.prev(cur)), cur);
        cur = arena.next(cur);
        if cur == head {
            break;
        }
    }
}

#[test]
fn new_node_is_self_looped_and_empty() {
    let mut arena = Arena::new();
    assert_eq!(arena.len(), 0);
    let n = ListHead::new(&mut arena, 7);
    assert_eq!(n, 0);
    assert_eq!(arena.len(), 1);
    assert_eq!(arena.next(n), n);
    assert_eq!(arena.prev(n), n);
    assert_eq!(arena.node(n).item, 7);
    assert!(ListHead::list_empty(&arena, n));
    assert_eq!(ListHead::list_nodes(&arena, n), Vec::<usize>::new());
}

#[test]
fn init_after_replace_gives_an_empty_list() {
    let mut arena = Arena::new();
    let (head, nodes) = build(&mut arena, &[1, 2]);
    let fresh = ListHead::new(&mut arena, 9);
    ListHead::list_replace(&mut arena, nodes[0], fresh);
    assert_eq!(arena.next(nodes[0]), nodes[1]);
    assert!(!ListHead::list_empty(&arena, nodes[0]));
    ListHead::init_list_head(&mut arena, nodes[0]);
    assert!(ListHead::list_empty(&arena, nodes[0]));
    assert_eq!(arena.prev(nodes[0]), nodes[0]);
    assert_eq!(ListHead::list_nodes(&arena, head), vec![fresh, nodes[1]]);
    assert_circular(&arena, head);
}

#[test]
fn init_is_idempotent() {
    let mut arena = Arena::new();
    let n = ListHead::new(&mut arena, 3);
    ListHead::init_list_head(&mut arena, n);
    ListHead::init_list_head(&mut arena, n);
    assert!(ListHead::list_empty(&arena, n));
    assert_eq!(arena.item(n), 3);
}

#[test]
fn add_goes_to_the_front_and_add_tail_to_the_back() {
    let mut arena = Arena::new();
    let (head, nodes) = build(&mut arena, &[5, 6]);
    let x = ListHead::new(&mut arena, 1);
    let y = ListHead::new(&mut arena, 2);
    ListHead::list_add(&mut arena, x, head);
    ListHead::list_add_tail(&mut arena, y, head);
    assert_eq!(arena.next(head), x);
    assert_eq!(arena.prev(head), y);
    assert_eq!(
        ListHead::list_nodes(&arena, head),
        vec![x, nodes[0], nodes[1], y]
    );
    assert_eq!(ListHead::list_items(&arena, head), vec![1, 5, 6, 2]);
    assert_circular(&arena, head);
}

#[test]
fn add_and_add_tail_on_an_empty_head() {
    let mut arena = Arena::new();
    let head = ListHead::new(&mut arena, -1);
    let x = ListHead::new(&mut arena, 1);
    let y = ListHead::new(&mut arena, 2);
    ListHead::list_add(&mut arena, x, head);
    assert_eq!(arena.next(head), x);
    assert_eq!(arena.prev(head), x);
    ListHead::list_add_tail(&mut arena, y, head);
    assert_eq!(arena.next(head), x);
    assert_eq!(arena.prev(head), y);
    assert_eq!(arena.next(x), y);
    assert_eq!(arena.prev(y), x);
}

#[test]
fn del_init_closes_the_gap_and_shortens_the_list() {
    let mut arena = Arena::new();
    let (head, nodes) = build(&mut arena, &[1, 2, 3, 4]);
    ListHead::list_del_init(&mut arena, nodes[2]);
    assert_eq!(
        ListHead::list_nodes(&arena, head),
        vec![nodes[0], nodes[1], nodes[3]]
    );
    assert_eq!(arena.next(nodes[1]), nodes[3]);
    assert_eq!(arena.prev(nodes[3]), nodes[1]);
    assert_eq!(arena.next(nodes[2]), nodes[2]);
    assert_eq!(arena.prev(nodes[2]), nodes[2]);
    assert_circular(&arena, head);
}

#[test]
fn del_init_of_an_isolated_node_changes_nothing() {
    let mut arena = Arena::new();
    let (head, nodes) = build(&mut arena, &[1, 2]);
    let lone = ListHead::new(&mut arena, 8);
    ListHead::list_del_init(&mut arena, lone);
    assert!(ListHead::list_empty(&arena, lone));
    assert_eq!(ListHead::list_nodes(&arena, head), nodes);
}

#[test]
fn del_init_of_the_only_member_empties_the_list() {
    let mut arena = Arena::new();
    let (head, nodes) = build(&mut arena, &[1]);
    ListHead::list_del_init(&mut arena, nodes[0]);
    assert!(ListHead::list_empty(&arena, head));
    assert_eq!(arena.prev(head), head);
    assert!(ListHead::list_empty(&arena, nodes[0]));
}

#[test]
fn replace_of_an_isolated_node_gives_an_isolated_node() {
    let mut arena = Arena::new();
    let old = ListHead::new(&mut arena, 1);
    let new = ListHead::new(&mut arena, 2);
    ListHead::list_replace(&mut arena, old, new);
    assert_eq!(arena.next(new), new);
    assert_eq!(arena.prev(new), new);
    assert_eq!(arena.next(old), old);
    assert_eq!(arena.prev(old), new);
}

#[test]
fn replace_in_a_ring_of_two() {
    let mut arena = Arena::new();
    let (head, nodes) = build(&mut arena, &[1]);
    let new = ListHead::new(&mut arena, 2);
    ListHead::list_replace_init(&mut arena, nodes[0], new);
    assert_eq!(ListHead::list_nodes(&arena, head), vec![new]);
    assert_eq!(arena.prev(head), new);
    assert!(ListHead::list_empty(&arena, nodes[0]));
    assert_circular(&arena, head);
}

#[test]
fn swap_of_members_that_are_not_neighbours() {
    let mut arena = Arena::new();
    let (head, n) = build(&mut arena, &[1, 2, 3, 4, 5]);
    ListHead::list_swap(&mut arena, n[1], n[3]);
    assert_eq!(
        ListHead::list_nodes(&arena, head),
        vec![n[0], n[3], n[2], n[1], n[4]]
    );
    assert_circular(&arena, head);
}

#[test]
fn swap_of_neighbours_in_either_order() {
    let mut arena = Arena::new();
    let (head, n) = build(&mut arena, &[1, 2, 3, 4]);
    ListHead::list_swap(&mut arena, n[1], n[2]);
    assert_eq!(
        ListHead::list_nodes(&arena, head),
        vec![n[0], n[2], n[1], n[3]]
    );
    ListHead::list_swap(&mut arena, n[1], n[2]);
    assert_eq!(
        ListHead::list_nodes(&arena, head),
        vec![n[0], n[1], n[2], n[3]]
    );
    assert_circular(&arena, head);
}

#[test]
fn swap_of_first_and_last_member() {
    let mut arena = Arena::new();
    let (head, n) = build(&mut arena, &[1, 2, 3]);
    ListHead::list_swap(&mut arena, n[0], n[2]);
    assert_eq!(ListHead::list_nodes(&arena, head), vec![n[2], n[1], n[0]]);
    ListHead::list_swap(&mut arena, n[0], n[2]);
    assert_eq!(ListHead::list_nodes(&arena, head), vec![n[0], n[1], n[2]]);
    assert_circular(&arena, head);
}

#[test]
fn swap_across_two_lists() {
    let mut arena = Arena::new();
    let (h1, a) = build(&mut arena, &[1, 2, 3]);
    let (h2, b) = build(&mut arena, &[7, 8]);
    ListHead::list_swap(&mut arena, a[1], b[0]);
    assert_eq!(ListHead::list_nodes(&arena, h1), vec![a[0], b[0], a[2]]);
    assert_eq!(ListHead::list_nodes(&arena, h2), vec![a[1], b[1]]);
    assert_circular(&arena, h1);
    assert_circular(&arena, h2);
}

#[test]
fn swap_with_an_isolated_node() {
    let mut arena = Arena::new();
    let (head, n) = build(&mut arena, &[1, 2, 3]);
    let lone = ListHead::new(&mut arena, 9);
    ListHead::list_swap(&mut arena, n[1], lone);
    assert_eq!(ListHead::list_nodes(&arena, head), vec![n[0], lone, n[2]]);
    assert!(ListHead::list_empty(&arena, n[1]));
    assert_eq!(arena.prev(n[1]), n[1]);
    ListHead::list_swap(&mut arena, n[1], lone);
    assert_eq!(ListHead::list_nodes(&arena, head), vec![n[0], n[1], n[2]]);
    assert!(ListHead::list_empty(&arena, lone));
    assert_circular(&arena, head);
}

#[test]
fn swap_of_a_node_with_itself() {
    let mut arena = Arena::new();
    let (head, n) = build(&mut arena, &[1, 2, 3]);
    ListHead::list_swap(&mut arena, n[1], n[1]);
    assert_eq!(ListHead::list_nodes(&arena, head), n);
    let lone = ListHead::new(&mut arena, 9);
    ListHead::list_swap(&mut arena, lone, lone);
    assert!(ListHead::list_empty(&arena, lone));
}

#[test]
fn swap_in_a_ring_of_two() {
    let mut arena = Arena::new();
    let (head, n) = build(&mut arena, &[1]);
    ListHead::list_swap(&mut arena, head, n[0]);
    assert_eq!(arena.next(head), n[0]);
    assert_eq!(arena.next(n[0]), head);
    assert_eq!(arena.prev(head), n[0]);
    assert_eq!(arena.prev(n[0]), head);
}

#[test]
fn move_within_one_list() {
    let mut arena = Arena::new();
    let (head, n) = build(&mut arena, &[1, 2, 3]);
    ListHead::list_move(&mut arena, n[2], head);
    assert_eq!(ListHead::list_nodes(&arena, head), vec![n[2], n[0], n[1]]);
    ListHead::list_move_tail(&mut arena, n[2], head);
    assert_eq!(ListHead::list_nodes(&arena, head), vec![n[0], n[1], n[2]]);
    ListHead::list_move_tail(&mut arena, n[2], head);
    assert_eq!(ListHead::list_nodes(&arena, head), vec![n[0], n[1], n[2]]);
    ListHead::list_move(&mut arena, n[0], head);
    assert_eq!(ListHead::list_nodes(&arena, head), vec![n[0], n[1], n[2]]);
    assert_circular(&arena, head);
}

#[test]
fn move_of_an_isolated_node() {
    let mut arena = Arena::new();
    let (head, n) = build(&mut arena, &[1]);
    let lone = ListHead::new(&mut arena, 5);
    ListHead::list_move(&mut arena, lone, head);
    assert_eq!(ListHead::list_nodes(&arena, head), vec![lone, n[0]]);
    let alone = ListHead::new(&mut arena, 6);
    ListHead::list_move(&mut arena, alone, alone);
    assert!(ListHead::list_empty(&arena, alone));
    ListHead::list_move_tail(&mut arena, alone, alone);
    assert!(ListHead::list_empty(&arena, alone));
    assert_eq!(ListHead::list_nodes(&arena, head), vec![lone, n[0]]);
}

#[test]
fn splice_puts_a_list_at_the_front() {
    let mut arena = Arena::new();
    let (h1, a) = build(&mut arena, &[1, 2]);
    let (h2, b) = build(&mut arena, &[7, 8, 9]);
    ListHead::list_splice(&mut arena, h2, h1);
    assert_eq!(
        ListHead::list_nodes(&arena, h1),
        vec![b[0], b[1], b[2], a[0], a[1]]
    );
    assert_eq!(ListHead::list_items(&arena, h1), vec![7, 8, 9, 1, 2]);
    assert_circular(&arena, h1);
    assert_eq!(arena.next(h2), b[0]);
    assert_eq!(arena.prev(h2), b[2]);
    ListHead::init_list_head(&mut arena, h2);
    assert!(ListHead::list_empty(&arena, h2));
}

#[test]
fn splice_tail_puts_a_list_at_the_back() {
    let mut arena = Arena::new();
    let (h1, a) = build(&mut arena, &[1, 2]);
    let (h2, b) = build(&mut arena, &[7, 8, 9]);
    ListHead::list_splice_tail(&mut arena, h2, h1);
    assert_eq!(
        ListHead::list_nodes(&arena, h1),
        vec![a[0], a[1], b[0], b[1], b[2]]
    );
    assert_circular(&arena, h1);
}

#[test]
fn splice_of_an_empty_list_changes_nothing() {
    let mut arena = Arena::new();
    let (h1, a) = build(&mut arena, &[1, 2]);
    let empty = ListHead::new(&mut arena, -1);
    ListHead::list_splice(&mut arena, empty, h1);
    assert_eq!(ListHead::list_nodes(&arena, h1), a);
    ListHead::list_splice_tail(&mut arena, empty, h1);
    assert_eq!(ListHead::list_nodes(&arena, h1), a);
    assert!(ListHead::list_empty(&arena, empty));
}

#[test]
fn splice_into_an_empty_list() {
    let mut arena = Arena::new();
    let (h2, b) = build(&mut arena, &[7, 8]);
    let h1 = ListHead::new(&mut arena, -1);
    ListHead::list_splice(&mut arena, h2, h1);
    assert_eq!(ListHead::list_nodes(&arena, h1), b);
    assert_circular(&arena, h1);
    let (h3, c) = build(&mut arena, &[4]);
    let h4 = ListHead::new(&mut arena, -1);
    ListHead::list_splice_tail(&mut arena, h3, h4);
    assert_eq!(ListHead::list_nodes(&arena, h4), c);
    assert_circular(&arena, h4);
}

#[test]
fn any_node_may_head_a_list() {
    let mut arena = Arena::new();
    let (head, n) = build(&mut arena, &[1, 2, 3]);
    assert_eq!(ListHead::list_nodes(&arena, n[1]), vec![n[2], head, n[0]]);
    assert_eq!(ListHead::list_items(&arena, n[1]), vec![3, -1, 1]);
}

#[test]
fn linked_and_detached_nodes_are_told_apart() {
    let mut arena = Arena::new();
    let (head, n) = build(&mut arena, &[1, 2]);
    let fresh = ListHead::new(&mut arena, 3);
    assert!(arena.is_linked(head));
    assert!(arena.is_linked(n[0]));
    assert!(!arena.is_detached(n[0]));
    assert!(arena.is_linked(fresh));
    assert!(arena.is_detached(fresh));
    assert!(!arena.is_linked(arena.len()));
    assert!(!arena.is_detached(arena.len()));

    ListHead::list_replace(&mut arena, n[0], fresh);
    assert!(!arena.is_linked(n[0]));
    assert!(arena.is_detached(n[0]));
    assert!(arena.is_linked(fresh));
    assert!(!arena.is_detached(fresh));
    assert!(arena.is_consistent());

    ListHead::list_add(&mut arena, n[0], head);
    assert!(arena.is_linked(n[0]));
    assert_eq!(ListHead::list_nodes(&arena, head), vec![n[0], fresh, n[1]]);
    assert!(arena.is_consistent());
}

#[test]
fn a_stale_sentinel_after_splice_is_detached() {
    let mut arena = Arena::new();
    let (h1, _) = build(&mut arena, &[1]);
    let (h2, _) = build(&mut arena, &[2, 3]);
    ListHead::list_splice_tail(&mut arena, h2, h1);
    assert!(arena.is_detached(h2));
    assert!(!arena.is_linked(h2));
    assert!(arena.is_consistent());
}

#[test]
fn nodes_of_one_ring_and_of_two() {
    let mut arena = Arena::new();
    let (h1, a) = build(&mut arena, &[1, 2]);
    let (h2, b) = build(&mut arena, &[3]);
    assert!(ListHead::in_same_ring(&arena, h1, h1));
    assert!(ListHead::in_same_ring(&arena, h1, a[1]));
    assert!(ListHead::in_same_ring(&arena, a[0], h1));
    assert!(!ListHead::in_same_ring(&arena, h1, h2));
    assert!(!ListHead::in_same_ring(&arena, a[0], b[0]));
    ListHead::list_splice(&mut arena, h2, h1);
    assert!(ListHead::in_same_ring(&arena, a[0], b[0]));
}

#[test]
fn every_operation_keeps_the_store_consistent() {
    let mut arena = Arena::new();
    assert!(arena.is_consistent());
    let (h1, a) = build(&mut arena, &[1, 2, 3]);
    assert!(arena.is_consistent());
    let (h2, b) = build(&mut arena, &[4, 5]);
    ListHead::list_move(&mut arena, a[1], h2);
    assert!(arena.is_consistent());
    ListHead::list_move_tail(&mut arena, b[0], h1);
    assert!(arena.is_consistent());
    ListHead::list_swap(&mut arena, a[0], b[1]);
    assert!(arena.is_consistent());
    ListHead::list_del_init(&mut arena, a[2]);
    assert!(arena.is_consistent());
    let fresh = ListHead::new(&mut arena, 9);
    ListHead::list_replace_init(&mut arena, b[1], fresh);
    assert!(arena.is_consistent());
    ListHead::list_splice(&mut arena, h2, h1);
    assert!(arena.is_consistent());
    ListHead::init_list_head(&mut arena, h2);
    assert!(arena.is_consistent());
    assert_eq!(
        ListHead::list_nodes(&arena, h1),
        vec![a[1], a[0], fresh, b[0]]
    );
    assert_eq!(ListHead::list_items(&arena, h1), vec![2, 1, 9, 4]);
}

#[test]
fn a_member_is_not_detached_and_must_not_be_inserted() {
    let mut arena = Arena::new();
    let (h1, a) = build(&mut arena, &[1, 2]);
    let (h2, b) = build(&mut arena, &[3]);
    assert!(arena.is_linked(h1));
    assert!(!arena.is_detached(a[0]));
    // Inserting a node that is still a member elsewhere breaks the ring
    // that it was in: its old neighbours are left pointing at it.
    ListHead::list_add(&mut arena, a[0], h2);
    assert_eq!(ListHead::list_nodes(&arena, h2), vec![a[0], b[0]]);
    assert!(!arena.is_linked(h1));
    assert!(!arena.is_linked(a[1]));
}
