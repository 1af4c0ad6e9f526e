//! What holds of the operations taken together: general facts that follow
//! from their contracts, each proved from the definitions that the
//! contracts use.

use crate::effects::{lemma_list_inserted, lemma_list_removed};
use crate::links::{
    closed_at, detached, inserted, isolated, item_of, items, lemma_inserted, lemma_removed,
    lemma_with_new, linked, next_of, prev_of, removed, reset, wf, with_new, ListHead,
};
use crate::merge::merge_frame;
use crate::order::ascending;
use crate::ring::{
    adjacent, at, keys, lemma_detached_not_member, lemma_empty, lemma_list_exists, lemma_list_kept,
    lemma_list_members, lemma_list_unique, lemma_rings_disjoint, lemma_same_ring_symmetric, list_of,
    payloads, same_links, same_node, same_ring,
};
use crate::sort::sort_frame;
use crate::sorting::{
    by_payload, lemma_merged_multiset, merged, sorted_stably, stable_order, total_preorder,
};
use vstd::prelude::*;
use vstd::relations::sorted_by;
use vstd::seq_lib::{lemma_sorted_unique, to_multiset_contains, to_multiset_remove};

verus! {

/// The rings of a consistent store are circular: the sentinel of a list and
/// every member of it is the predecessor of its successor and the successor
/// of its predecessor.
pub proof fn lemma_ring_circular(s: Seq<ListHead>, h: usize, k: int)
    requires
        wf(s),
        linked(s, h),
        -1 <= k < list_of(s, h).len(),
    ensures
        ({
            let n = at(h, list_of(s, h), k);
            &&& n < s.len()
            &&& prev_of(s, next_of(s, n)) == n
            &&& next_of(s, prev_of(s, n)) == n
        }),
{
    lemma_list_exists(s, h);
    lemma_list_members(s, h, list_of(s, h));
}

/// A node that was just created is its own successor, so the test for
/// emptiness holds of it, and its list is empty.
pub proof fn lemma_new_is_empty(s: Seq<ListHead>, item: i32, node: usize)
    requires
        wf(s),
        node == s.len(),
        s.len() < usize::MAX,
    ensures
        next_of(with_new(s, item), node) == node,
        list_of(with_new(s, item), node) == Seq::<usize>::empty(),
{
    let t = with_new(s, item);
    let none = Seq::<usize>::empty();
    lemma_with_new(s, item);
    lemma_list_unique(t, node, none);
}

/// Whatever node is initialised, and whatever its links were, it is then
/// its own successor and predecessor, so the test for emptiness holds of it
/// and its list is empty; its payload is what it was; and to initialise it
/// once more changes nothing.
pub proof fn lemma_init_is_empty(s: Seq<ListHead>, node: usize)
    requires
        node < s.len(),
    ensures
        next_of(reset(s, node), node) == node,
        prev_of(reset(s, node), node) == node,
        item_of(reset(s, node), node) == item_of(s, node),
        list_of(reset(s, node), node) == Seq::<usize>::empty(),
        reset(reset(s, node), node) == reset(s, node),
{
    lemma_empty(reset(s, node), node);
    assert(reset(reset(s, node), node) =~= reset(s, node));
}

/// After a node is added at the front of a list and another at the back,
/// the first is the successor of the sentinel and the second its
/// predecessor, with the members that the list had between them.
pub proof fn lemma_add_then_add_tail(s: Seq<ListHead>, head: usize, x: usize, y: usize)
    requires
        wf(s),
        linked(s, head),
        detached(s, x),
        detached(s, y),
        x != y,
        x != head,
        y != head,
    ensures
        ({
            let s1 = inserted(s, x, head, next_of(s, head));
            let s2 = inserted(s1, y, prev_of(s1, head), head);
            &&& wf(s1) && linked(s1, head) && detached(s1, y)
            &&& wf(s2)
            &&& next_of(s2, head) == x
            &&& prev_of(s2, head) == y
            &&& list_of(s2, head) == (seq![x] + list_of(s, head)).push(y)
        }),
{
    let l = list_of(s, head);
    let s1 = inserted(s, x, head, next_of(s, head));
    let s2 = inserted(s1, y, prev_of(s1, head), head);
    lemma_list_exists(s, head);
    lemma_inserted(s, x, head, next_of(s, head));
    lemma_list_inserted(s, head, l, -1, x);
    let l1 = l.insert(0, x);
    assert(adjacent(s1, head, l1, l1.len() - 1));
    assert(closed_at(s1, head));
    lemma_inserted(s1, y, prev_of(s1, head), head);
    lemma_list_inserted(s1, head, l1, l1.len() - 1, y);
    assert(l1.insert(l1.len() as int, y) =~= l1.push(y));
    lemma_list_unique(s2, head, l1.push(y));
}

/// Removing a member from a list takes it out of the list and leaves the
/// others in their order, so the list is one shorter; the two neighbours
/// of the member become neighbours of each other, and the member is
/// isolated.
pub proof fn lemma_del_init(s: Seq<ListHead>, head: usize, x: usize)
    requires
        wf(s),
        linked(s, head),
        list_of(s, head).contains(x),
    ensures
        ({
            let l = list_of(s, head);
            let t = removed(s, x);
            &&& wf(t)
            &&& list_of(t, head) == l.remove(l.index_of(x))
            &&& list_of(t, head).len() == l.len() - 1
            &&& !list_of(t, head).contains(x)
            &&& isolated(t, x)
            &&& next_of(t, prev_of(s, x)) == next_of(s, x)
            &&& prev_of(t, next_of(s, x)) == prev_of(s, x)
        }),
{
    let l = list_of(s, head);
    let p = l.index_of(x);
    let t = removed(s, x);
    lemma_list_exists(s, head);
    lemma_list_members(s, head, l);
    assert(linked(s, at(head, l, p)));
    lemma_removed(s, x);
    lemma_list_removed(s, head, l, p);
    lemma_list_unique(t, head, l.remove(p));
    lemma_detached_not_member(t, head, l.remove(p), x);
}

/// A merge changes no list of another ring.
pub proof fn lemma_merge_keeps(
    s: Seq<ListHead>,
    t: Seq<ListHead>,
    a: usize,
    b: usize,
    head: usize,
    h: usize,
)
    requires
        wf(s),
        linked(s, a),
        linked(s, b),
        linked(s, h),
        merge_frame(s, t, a, b, head),
        !same_ring(s, a, h),
        !same_ring(s, b, h),
    ensures
        list_of(t, h) == list_of(s, h),
{
    let l = list_of(s, h);
    lemma_list_exists(s, h);
    lemma_list_exists(s, a);
    lemma_list_exists(s, b);
    lemma_same_ring_symmetric(s, a, h);
    lemma_same_ring_symmetric(s, b, h);
    lemma_rings_disjoint(s, h, l, a, list_of(s, a));
    lemma_rings_disjoint(s, h, l, b, list_of(s, b));
    assert(same_node(s, t, h));
    assert forall|k: int| 0 <= k < l.len() implies same_links(s, t, #[trigger] l[k]) by {
        let n = l[k];
        if list_of(s, a).contains(n) {
            let q = choose|q: int| 0 <= q < list_of(s, a).len() && list_of(s, a)[q] == n;
            assert(l[k] != list_of(s, a)[q]);
        }
        if list_of(s, b).contains(n) {
            let q = choose|q: int| 0 <= q < list_of(s, b).len() && list_of(s, b)[q] == n;
            assert(l[k] != list_of(s, b)[q]);
        }
        assert(l.contains(n));
        assert(same_node(s, t, n));
    }
    lemma_list_kept(s, t, h);
}

/// A sort changes no list of another ring.
pub proof fn lemma_sort_keeps(
    s: Seq<ListHead>,
    t: Seq<ListHead>,
    head: usize,
    sorted: Option<usize>,
    h: usize,
)
    requires
        wf(s),
        linked(s, head),
        linked(s, h),
        sort_frame(s, t, head, sorted),
        !same_ring(s, head, h),
    ensures
        list_of(t, h) == list_of(s, h),
{
    let l = list_of(s, h);
    lemma_list_exists(s, h);
    lemma_list_exists(s, head);
    lemma_same_ring_symmetric(s, head, h);
    lemma_rings_disjoint(s, h, l, head, list_of(s, head));
    assert(same_node(s, t, h));
    assert forall|k: int| 0 <= k < l.len() implies same_links(s, t, #[trigger] l[k]) by {
        let n = l[k];
        if list_of(s, head).contains(n) {
            let q = choose|q: int| 0 <= q < list_of(s, head).len() && list_of(s, head)[q] == n;
            assert(l[k] != list_of(s, head)[q]);
        }
        assert(l.contains(n));
        assert(same_node(s, t, n));
    }
    lemma_list_kept(s, t, h);
}

/// A merge holds what the two sequences hold, each entry as often, and is
/// as long as the two together.
pub proof fn lemma_merge_permutes<T>(le: spec_fn(T, T) -> bool, a: Seq<T>, b: Seq<T>)
    ensures
        merged(le, a, b).to_multiset() == a.to_multiset().add(b.to_multiset()),
        merged(le, a, b).len() == a.len() + b.len(),
{
    lemma_merged_multiset(le, a, b);
}

/// The ascending order of the integers is a total preorder.
pub proof fn lemma_ascending_total()
    ensures
        total_preorder(ascending()),
{
    let up = ascending();
    assert forall|x: i32, y: i32| #[trigger] up(x, y) || #[trigger] up(y, x) by {}
    assert forall|x: i32, y: i32, z: i32| #[trigger] up(x, y) && #[trigger] up(y, z) implies up(
        x,
        z,
    ) by {}
}

/// A stably sorted sequence is sorted: of any two entries the earlier is
/// before or equal to the later.
pub proof fn lemma_sort_sorted<T>(r: spec_fn(T, T) -> bool, input: Seq<T>, output: Seq<T>)
    requires
        sorted_stably(r, input, output),
    ensures
        sorted_by(output, r),
        output.len() == input.len(),
{
    let o = stable_order(r, input);
    assert forall|i: int, j: int| 0 <= i < j < output.len() implies #[trigger] r(
        output[i],
        output[j],
    ) by {
        assert(o(output[i], output[j]));
    }
    vstd::seq_lib::to_multiset_len(input);
    vstd::seq_lib::to_multiset_len(output);
}

/// Sorting is stable: two entries that are equal in the order stand in
/// the output as they stood in the input.
pub proof fn lemma_sort_stable<T>(
    r: spec_fn(T, T) -> bool,
    input: Seq<T>,
    output: Seq<T>,
    i: int,
    j: int,
)
    requires
        sorted_stably(r, input, output),
        0 <= i < j < output.len(),
        r(output[j], output[i]),
    ensures
        r(output[i], output[j]),
        input.index_of(output[i]) < input.index_of(output[j]),
        input[input.index_of(output[i])] == output[i],
        input[input.index_of(output[j])] == output[j],
{
    let o = stable_order(r, input);
    assert(o(output[i], output[j]));
    to_multiset_contains(output, output[i]);
    to_multiset_contains(input, output[i]);
    to_multiset_contains(output, output[j]);
    to_multiset_contains(input, output[j]);
}

/// Two sequences that hold the same entries and are ordered as the stable
/// sort of one input orders are the same sequence.
proof fn lemma_stable_unique<T>(r: spec_fn(T, T) -> bool, input: Seq<T>, x: Seq<T>, y: Seq<T>)
    requires
        x.to_multiset() == y.to_multiset(),
        sorted_by(x, stable_order(r, input)),
        sorted_by(y, stable_order(r, input)),
    ensures
        x == y,
    decreases x.len(),
{
    let o = stable_order(r, input);
    vstd::seq_lib::to_multiset_len(x);
    vstd::seq_lib::to_multiset_len(y);
    if x.len() > 0 {
        to_multiset_contains(x, x[0]);
        to_multiset_contains(y, x[0]);
        to_multiset_contains(x, y[0]);
        to_multiset_contains(y, y[0]);
        if x[0] != y[0] {
            let i = choose|i: int| 0 <= i < x.len() && x[i] == y[0];
            let j = choose|j: int| 0 <= j < y.len() && y[j] == x[0];
            assert(o(x[0], x[i]));
            assert(o(y[0], y[j]));
        }
        let x1 = x.remove(0);
        let y1 = y.remove(0);
        to_multiset_remove(x, 0);
        to_multiset_remove(y, 0);
        lemma_stable_unique(r, input, x1, y1);
        assert(x =~= seq![x[0]] + x1);
    }
}

/// A sort has one result: two sequences that are both an input sorted by
/// one order, stably, are the same.
pub proof fn lemma_sort_unique<T>(r: spec_fn(T, T) -> bool, input: Seq<T>, x: Seq<T>, y: Seq<T>)
    requires
        sorted_stably(r, input, x),
        sorted_stably(r, input, y),
    ensures
        x == y,
{
    lemma_stable_unique(r, input, x, y);
}

/// Sorting what is sorted changes nothing: an input without repetitions
/// that is sorted by the order is its own stable sort.
pub proof fn lemma_sort_idempotent<T>(r: spec_fn(T, T) -> bool, input: Seq<T>, output: Seq<T>)
    requires
        input.no_duplicates(),
        sorted_by(input, r),
        sorted_stably(r, input, output),
    ensures
        output == input,
{
    lemma_stable_unique(r, input, output, input);
}

/// Sequences that hold the same entries have images that hold the same
/// entries.
proof fn lemma_map_multiset<A, B>(f: spec_fn(A) -> B, x: Seq<A>, y: Seq<A>)
    requires
        x.to_multiset() == y.to_multiset(),
    ensures
        x.map_values(f).to_multiset() == y.map_values(f).to_multiset(),
    decreases x.len(),
{
    broadcast use vstd::multiset::group_multiset_axioms;

    vstd::seq_lib::to_multiset_len(x);
    vstd::seq_lib::to_multiset_len(y);
    if x.len() == 0 {
        assert(x.map_values(f) =~= y.map_values(f));
    } else {
        to_multiset_contains(x, x[0]);
        to_multiset_contains(y, x[0]);
        let j = choose|j: int| 0 <= j < y.len() && y[j] == x[0];
        let x1 = x.remove(0);
        let y1 = y.remove(j);
        to_multiset_remove(x, 0);
        to_multiset_remove(y, j);
        lemma_map_multiset(f, x1, y1);
        let mx = x.map_values(f);
        let my = y.map_values(f);
        to_multiset_remove(mx, 0);
        to_multiset_remove(my, j);
        assert(mx.remove(0) =~= x1.map_values(f));
        assert(my.remove(j) =~= y1.map_values(f));
        to_multiset_contains(mx, mx[0]);
        to_multiset_contains(my, my[j]);
        assert(mx.to_multiset() =~= mx.to_multiset().remove(mx[0]).insert(mx[0]));
    }
}

/// Sorted by ascending payload, every list with the same payloads reads
/// the same: the payloads of the output are those of the input in ascending
/// order, as many as there were, and so equal to any sequence that holds
/// the same numbers in ascending order.
pub proof fn lemma_sort_ascending(
    its: Seq<i32>,
    input: Seq<usize>,
    output: Seq<usize>,
    reference: Seq<i32>,
)
    requires
        sorted_stably(by_payload(ascending(), its), input, output),
        sorted_by(reference, ascending()),
        reference.to_multiset() == keys(its, input).to_multiset(),
    ensures
        keys(its, output) == reference,
        output.len() == input.len(),
{
    let r = by_payload(ascending(), its);
    let f = |x: usize| its[x as int];
    let ko = keys(its, output);
    lemma_sort_sorted(r, input, output);
    lemma_map_multiset(f, output, input);
    assert forall|i: int, j: int| 0 <= i < j < ko.len() implies #[trigger] ascending()(
        ko[i],
        ko[j],
    ) by {
        assert(r(output[i], output[j]));
    }
    let up = ascending();
    assert(vstd::relations::total_ordering(up)) by {
        assert forall|x: i32, y: i32| #[trigger] up(x, y) || #[trigger] up(y, x) by {}
        assert forall|x: i32, y: i32| #[trigger] up(x, y) && #[trigger] up(y, x) implies x
            == y by {}
        assert forall|x: i32, y: i32, z: i32| #[trigger] up(x, y) && #[trigger] up(y, z) implies up(
            x,
            z,
        ) by {}
        assert forall|x: i32| #[trigger] up(x, x) by {}
    }
    lemma_sorted_unique(ko, reference, up);
}

/// What a sort by ascending payload gives to read: the payloads of the
/// sorted list are those of the list before in ascending order, and so equal
/// to any sequence that holds the same numbers in ascending order.
pub proof fn lemma_sorted_payloads(
    s: Seq<ListHead>,
    t: Seq<ListHead>,
    head: usize,
    h: usize,
    reference: Seq<i32>,
)
    requires
        wf(s),
        linked(s, head),
        sort_frame(s, t, head, Some(h)),
        sorted_stably(by_payload(ascending(), items(s)), list_of(s, head), list_of(t, h)),
        sorted_by(reference, ascending()),
        reference.to_multiset() == payloads(s, list_of(s, head)).to_multiset(),
    ensures
        payloads(t, list_of(t, h)) == reference,
        list_of(t, h).len() == list_of(s, head).len(),
{
    let input = list_of(s, head);
    let output = list_of(t, h);
    lemma_list_exists(s, head);
    lemma_sort_ascending(items(s), input, output, reference);
    assert forall|k: int| 0 <= k < output.len() implies (#[trigger] output[k]) < s.len() by {
        assert(output.contains(output[k]));
        to_multiset_contains(output, output[k]);
        to_multiset_contains(input, output[k]);
        let q = choose|q: int| 0 <= q < input.len() && input[q] == output[k];
        assert(input[q] < s.len());
    }
    assert(payloads(t, output) =~= keys(items(s), output));
}

} // verus!
