use intrusive_list::{cmp_func, Arena, ListHead};
use rand::Rng;
use sorted_vec::SortedVec;
use std::cell::Cell;

#[test]
fn test_list_sort() {
    let mut rng = rand::thread_rng();
    let mut map = SortedVec::new();
    let mut arena = Arena::new();
    let list = ListHead::new(&mut arena, -1);

    for _ in 0..100 {
        let num: i32 = rng.gen();
        map.insert(num);
        let node = ListHead::new(&mut arena, num);
        ListHead::list_add_tail(&mut arena, node, list);
    }

    let sorted_list = ListHead::list_sort(&mut arena, list, cmp_func);
    let sorted = sorted_list.unwrap();

    let mut i: usize = 0;
    let mut current = arena.next(sorted);
    loop {
        assert_eq!(map[i], arena.item(current));

        current = arena.next(current);
        i += 1;
        if current == sorted {
            break;
        }
    }

    assert_eq!(i, 100);

    i = 99;
    current = arena.prev(sorted);
    loop {
        assert_eq!(map[i], arena.item(current));

        current = arena.prev(current);

        if i != 0 {
            i -= 1;
        }
        if current == sorted {
            break;
        }
    }

    assert_eq!(i, 0);
}

fn list(arena: &mut Arena, values: &[i32]) -> (usize, Vec<usize>) {
    let head = ListHead::new(arena, -1);
    let mut nodes = Vec::new();
    for v in values {
        let n = ListHead::new(arena, *v);
        ListHead::list_add_tail(arena, n, head);
        nodes.push(n);
    }
    (head, nodes)
}

fn sorted_items(values: &[i32]) -> Vec<i32> {
    let mut arena = Arena::new();
    let (head, _) = list(&mut arena, values);
    let sorted = ListHead::list_sort(&mut arena, head, cmp_func).unwrap();
    ListHead::list_items(&arena, sorted)
}

#[test]
fn sort_of_three() {
    assert_eq!(sorted_items(&[10, 1, 22]), vec![1, 10, 22]);
}

#[test]
fn sort_of_an_empty_list_gives_an_empty_list() {
    let mut arena = Arena::new();
    let bystander = ListHead::new(&mut arena, 5);
    let head = ListHead::new(&mut arena, -1);
    let before = arena.len();
    let sorted = ListHead::list_sort(&mut arena, head, cmp_func).unwrap();
    assert_eq!(sorted, before);
    assert_eq!(arena.len(), before + 1);
    assert!(ListHead::list_empty(&arena, sorted));
    assert_eq!(arena.prev(sorted), sorted);
    assert_eq!(ListHead::list_items(&arena, sorted), Vec::<i32>::new());
    assert!(sorted != head);
    assert!(ListHead::list_empty(&arena, head));
    assert_eq!(arena.prev(head), head);
    assert!(ListHead::list_empty(&arena, bystander));
    assert_eq!(arena.item(bystander), 5);
    assert!(arena.is_consistent());
}

#[test]
fn sort_of_one_member() {
    let mut arena = Arena::new();
    let (head, nodes) = list(&mut arena, &[4]);
    let sorted = ListHead::list_sort(&mut arena, head, cmp_func).unwrap();
    assert_eq!(ListHead::list_nodes(&arena, sorted), nodes);
    assert!(ListHead::list_empty(&arena, head));
    assert_eq!(arena.prev(head), head);
    assert!(sorted != head);
}

#[test]
fn sort_is_idempotent() {
    let once = sorted_items(&[5, -2, 9, 9, 0, 3, -7]);
    assert_eq!(once, vec![-7, -2, 0, 3, 5, 9, 9]);
    assert_eq!(sorted_items(&once), once);

    let mut arena = Arena::new();
    let (head, nodes) = list(&mut arena, &[1, 2, 2, 3, 8]);
    let sorted = ListHead::list_sort(&mut arena, head, cmp_func).unwrap();
    assert_eq!(ListHead::list_nodes(&arena, sorted), nodes);
    let again = ListHead::list_sort(&mut arena, sorted, cmp_func).unwrap();
    assert_eq!(ListHead::list_nodes(&arena, again), nodes);
}

#[test]
fn sort_of_every_permutation_of_one_multiset() {
    let base = [3, 1, 2, 2, 5];
    let expected = vec![1, 2, 2, 3, 5];
    let mut perm = [0usize, 1, 2, 3, 4];
    let mut count = 0;
    loop {
        let values: Vec<i32> = perm.iter().map(|i| base[*i]).collect();
        let got = sorted_items(&values);
        assert_eq!(got.len(), 5);
        assert_eq!(got, expected);
        count += 1;
        let mut i = perm.len() - 1;
        while i > 0 && perm[i - 1] >= perm[i] {
            i -= 1;
        }
        if i == 0 {
            break;
        }
        let mut j = perm.len() - 1;
        while perm[j] <= perm[i - 1] {
            j -= 1;
        }
        perm.swap(i - 1, j);
        perm[i..].reverse();
    }
    assert_eq!(count, 120);
}

#[test]
fn sort_agrees_with_a_reference_sort_for_every_length() {
    let mut seed: u32 = 12345;
    for len in 0..70usize {
        let mut values = Vec::new();
        for _ in 0..len {
            seed = seed.wrapping_mul(1664525).wrapping_add(1013904223);
            values.push(((seed >> 16) % 50) as i32 - 25);
        }
        let mut expected = values.clone();
        expected.sort();
        let got = sorted_items(&values);
        assert_eq!(got.len(), len);
        assert_eq!(got, expected);
    }
}

#[test]
fn sort_is_stable() {
    let mut arena = Arena::new();
    let values = [2, 1, 2, 1, 2, 1, 3, 1, 2, 3, 1];
    let (head, nodes) = list(&mut arena, &values);
    let sorted = ListHead::list_sort(&mut arena, head, cmp_func).unwrap();
    let out = ListHead::list_nodes(&arena, sorted);
    let mut expected: Vec<usize> = Vec::new();
    for key in 1..=3 {
        for (i, v) in values.iter().enumerate() {
            if *v == key {
                expected.push(nodes[i]);
            }
        }
    }
    assert_eq!(out, expected);
    for w in out.windows(2) {
        if arena.item(w[0]) == arena.item(w[1]) {
            assert!(w[0] < w[1]);
        }
    }
}

#[test]
fn sort_keeps_the_ring_circular_and_other_nodes_as_they_were() {
    let mut arena = Arena::new();
    let (other, other_nodes) = list(&mut arena, &[9, 8, 7]);
    let (head, _) = list(&mut arena, &[4, 3, 2, 1, 0, 5, 6]);
    let before = arena.len();
    let sorted = ListHead::list_sort(&mut arena, head, cmp_func).unwrap();
    assert!(sorted >= before);
    assert_eq!(
        ListHead::list_items(&arena, sorted),
        vec![0, 1, 2, 3, 4, 5, 6]
    );
    let mut cur = sorted;
    let mut steps = 0;
    loop {
        assert_eq!(arena.prev(arena.next(cur)), cur);
        assert_eq!(arena.next(arena.prev(cur)), cur);
        cur = arena.next(cur);
        steps += 1;
        if cur == sorted {
            break;
        }
    }
    assert_eq!(steps, 8);
    assert!(arena.is_consistent());
    assert_eq!(ListHead::list_nodes(&arena, other), other_nodes);
    assert_eq!(ListHead::list_items(&arena, other), vec![9, 8, 7]);
    assert!(ListHead::list_empty(&arena, head));
    for n in before..arena.len() {
        if n != sorted {
            assert_eq!(arena.next(n), n);
            assert_eq!(arena.prev(n), n);
        }
    }
}

#[test]
fn sort_by_another_order() {
    let mut arena = Arena::new();
    let (head, _) = list(&mut arena, &[3, 9, -1, 9, 4]);
    let sorted = ListHead::list_sort(
        &mut arena,
        head,
        |a: &ListHead, b: &ListHead| b.item.cmp(&a.item),
    )
    .unwrap();
    assert_eq!(ListHead::list_items(&arena, sorted), vec![9, 9, 4, 3, -1]);
}

#[test]
fn sort_of_equal_members_keeps_them_in_order() {
    let mut arena = Arena::new();
    let (head, nodes) = list(&mut arena, &[7, 7, 7, 7, 7, 7]);
    let sorted = ListHead::list_sort(&mut arena, head, cmp_func).unwrap();
    assert_eq!(ListHead::list_nodes(&arena, sorted), nodes);
}

#[test]
fn sort_of_a_descending_list() {
    let values: Vec<i32> = (0..33).rev().collect();
    let expected: Vec<i32> = (0..33).collect();
    assert_eq!(sorted_items(&values), expected);
}

#[test]
fn sort_of_random_lists_is_the_stable_reference_sort() {
    let mut rng = rand::thread_rng();
    for _ in 0..50 {
        let len: usize = rng.gen_range(0..200);
        let mut arena = Arena::new();
        let head = ListHead::new(&mut arena, -1);
        let mut tagged: Vec<(i32, usize)> = Vec::new();
        for _ in 0..len {
            let key: i32 = rng.gen_range(-8..8);
            let node = ListHead::new(&mut arena, key);
            ListHead::list_add_tail(&mut arena, node, head);
            tagged.push((key, node));
        }
        tagged.sort_by_key(|t| t.0);
        let expected: Vec<usize> = tagged.iter().map(|t| t.1).collect();
        let sorted = ListHead::list_sort(&mut arena, head, cmp_func).unwrap();
        let got = ListHead::list_nodes(&arena, sorted);
        assert_eq!(got.len(), len);
        assert_eq!(got, expected);
        assert!(arena.is_consistent());
    }
}

#[test]
fn sort_merges_once_for_every_carry_of_the_count() {
    // An ascending list of n members is sorted with no more comparisons
    // than a balanced merge sort makes: about n times the number of bits
    // of n, far fewer than n squared.
    let n: i32 = 1024;
    let calls = Cell::new(0usize);
    let mut arena = Arena::new();
    let values: Vec<i32> = (0..n).collect();
    let (head, nodes) = list(&mut arena, &values);
    let sorted = ListHead::list_sort(&mut arena, head, |a: &ListHead, b: &ListHead| {
        calls.set(calls.get() + 1);
        a.item.cmp(&b.item)
    })
    .unwrap();
    assert_eq!(ListHead::list_nodes(&arena, sorted), nodes);
    assert_eq!(calls.get(), 5120);
    // One sentinel for every member and one for every merge.
    assert_eq!(arena.len(), 1 + 1024 + 1024 + 1023);
}
