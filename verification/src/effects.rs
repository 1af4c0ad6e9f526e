//! What the linkage operations do to lists: how the list at a sentinel reads
//! after a node was inserted, removed, moved, replaced or swapped, or a
//! list spliced in.

use crate::links::{
    closed_at, detached, exchange, inserted, isolated, lemma_inserted, lemma_removed, lemma_reset,
    lemma_unlinked, linked, moved, moved_tail, next_of, prev_of, removed, replaced, reset, spliced,
    swapped, unlinked, wf, with_new, ListHead,
};
use crate::ring::{
    adjacent, at, is_list, lemma_detached_not_member, lemma_list_exists, lemma_list_frame,
    lemma_list_kept, lemma_list_members, lemma_list_unique, lemma_outside_neighbours,
    lemma_rings_disjoint, lemma_same_ring_symmetric, lemma_tail_ring, list_of, outside, same_items,
    same_node, same_ring,
};
use vstd::prelude::*;

verus! {

/// Inserting a detached node after place `p` of the ring of a list puts it
/// at place `p + 1` of the list and moves the members behind it one place on.
pub proof fn lemma_list_inserted(s: Seq<ListHead>, h: usize, l: Seq<usize>, p: int, new: usize)
    requires
        wf(s),
        is_list(s, h, l),
        -1 <= p < l.len(),
        detached(s, new),
        new != h,
    ensures
        !l.contains(new),
        is_list(inserted(s, new, at(h, l, p), at(h, l, p + 1)), h, l.insert(p + 1, new)),
{
    let before = at(h, l, p);
    let after = at(h, l, p + 1);
    let t = inserted(s, new, before, after);
    let m = l.insert(p + 1, new);
    lemma_list_members(s, h, l);
    lemma_detached_not_member(s, h, l, new);
    assert forall|k: int| 0 <= k < m.len() implies (#[trigger] m[k]) < t.len() && m[k] != h by {
        if k <= p {
            assert(m[k] == l[k]);
        } else if k > p + 1 {
            assert(m[k] == l[k - 1]);
        }
    }
    assert forall|i: int, j: int| 0 <= i < m.len() && 0 <= j < m.len() && i != j implies m[i]
        != m[j] by {
        let i2 = if i <= p { i } else { i - 1 };
        let j2 = if j <= p { j } else { j - 1 };
        if i != p + 1 {
            assert(m[i] == l[i2]);
        }
        if j != p + 1 {
            assert(m[j] == l[j2]);
        }
    }
    assert forall|k: int| -1 <= k < m.len() implies #[trigger] adjacent(t, h, m, k) by {
        if k < p {
            assert(at(h, m, k) == at(h, l, k));
            assert(at(h, m, k + 1) == at(h, l, k + 1));
            assert(adjacent(s, h, l, k));
            assert(at(h, l, k) != at(h, l, p));
        } else if k == p {
            assert(at(h, m, k) == before);
            assert(at(h, m, k + 1) == new);
        } else if k == p + 1 {
            assert(at(h, m, k) == new);
            assert(at(h, m, k + 1) == after);
        } else {
            assert(at(h, m, k) == at(h, l, k - 1));
            assert(at(h, m, k + 1) == at(h, l, k));
            assert(adjacent(s, h, l, k - 1));
            assert(at(h, l, k - 1) != at(h, l, p));
            if k < l.len() {
                assert(at(h, l, k) != at(h, l, p + 1));
            }
        }
    }
}

/// Taking the member at place `p` out of a list closes the gap: the
/// members behind it move one place up. This holds whether the node that
/// left keeps its links or is isolated.
pub proof fn lemma_list_removed(s: Seq<ListHead>, h: usize, l: Seq<usize>, p: int)
    requires
        wf(s),
        is_list(s, h, l),
        0 <= p < l.len(),
    ensures
        is_list(unlinked(s, l[p]), h, l.remove(p)),
        is_list(removed(s, l[p]), h, l.remove(p)),
{
    let x = l[p];
    let t = unlinked(s, x);
    let m = l.remove(p);
    lemma_list_members(s, h, l);
    assert(adjacent(s, h, l, p));
    assert(adjacent(s, h, l, p - 1));
    assert forall|k: int| -1 <= k < m.len() implies #[trigger] adjacent(t, h, m, k) by {
        if k < p - 1 {
            assert(adjacent(s, h, l, k));
            assert(at(h, l, k + 1) != at(h, l, p + 1));
        } else if k != p - 1 {
            assert(adjacent(s, h, l, k + 1));
        }
    }
    let u = removed(s, x);
    lemma_list_frame(t, u, h, m);
}

/// The list of `h` after the members of the list at `g` have gone to stand
/// behind place `p` of its ring.
pub open spec fn spliced_list(l: Seq<usize>, m: Seq<usize>, p: int) -> Seq<usize> {
    l.subrange(0, p + 1) + m + l.subrange(p + 1, l.len() as int)
}

/// Splicing the list at `g` into another ring, behind place `p`, keeps the
/// store consistent and puts the members of that list, in their order,
/// between the members before and behind that place. The sentinel `g` is
/// then detached.
pub proof fn lemma_list_spliced(
    s: Seq<ListHead>,
    h: usize,
    l: Seq<usize>,
    g: usize,
    m: Seq<usize>,
    p: int,
)
    requires
        wf(s),
        is_list(s, h, l),
        is_list(s, g, m),
        g != h,
        !l.contains(g),
        -1 <= p < l.len(),
    ensures
        wf(spliced(s, g, at(h, l, p), at(h, l, p + 1))),
        is_list(spliced(s, g, at(h, l, p), at(h, l, p + 1)), h, spliced_list(l, m, p)),
        detached(spliced(s, g, at(h, l, p), at(h, l, p + 1)), g),
        forall|i: usize|
            i != g ==> (linked(spliced(s, g, at(h, l, p), at(h, l, p + 1)), i) <==> linked(s, i)),
        m.len() > 0 ==> at(h, l, p) != prev_of(s, g) && at(h, l, p + 1) != next_of(s, g),
{
    let before = at(h, l, p);
    let after = at(h, l, p + 1);
    let t = spliced(s, g, before, after);
    let r = spliced_list(l, m, p);
    let n = m.len() as int;
    lemma_list_members(s, h, l);
    lemma_list_members(s, g, m);
    lemma_rings_disjoint(s, h, l, g, m);
    assert(adjacent(s, g, m, -1));
    assert(adjacent(s, g, m, n - 1));
    assert(linked(s, at(g, m, -1)));
    if n == 0 {
        assert(r =~= l);
        assert(isolated(s, g));
    } else {
        let first = m[0];
        let last = m[n - 1];
        assert(next_of(s, g) == first && prev_of(s, g) == last);
        assert(adjacent(s, h, l, p));
        assert(linked(s, at(h, l, p)));
        assert(linked(s, at(h, l, p + 1)));
        assert(before != g && after != g);
        assert(before != last && before != first) by {
            if p >= 0 {
                assert(l[p] != m[n - 1] && l[p] != m[0]);
            }
        }
        assert(after != last && after != first) by {
            if p + 1 < l.len() {
                assert(l[p + 1] != m[n - 1] && l[p + 1] != m[0]);
            }
        }
        assert forall|i: usize| i != g implies (linked(t, i) <==> linked(s, i)) by {
            if i < s.len() {
                assert(closed_at(s, i));
                assert(closed_at(s, g));
            }
        }
        assert(!linked(t, g));
        assert forall|i: usize| i < t.len() implies #[trigger] closed_at(t, i) by {
            assert(closed_at(s, i));
            assert(closed_at(s, g));
        }
        assert forall|k: int| 0 <= k < r.len() implies (#[trigger] r[k]) < t.len() && r[k]
            != h by {
            if k <= p {
                assert(r[k] == l[k]);
            } else if k <= p + n {
                assert(r[k] == m[k - p - 1]);
            } else {
                assert(r[k] == l[k - n]);
            }
        }
        assert forall|i: int, j: int| 0 <= i < r.len() && 0 <= j < r.len() && i != j implies r[i]
            != r[j] by {
            if i <= p {
                assert(r[i] == l[i]);
            } else if i <= p + n {
                assert(r[i] == m[i - p - 1]);
            } else {
                assert(r[i] == l[i - n]);
            }
            if j <= p {
                assert(r[j] == l[j]);
            } else if j <= p + n {
                assert(r[j] == m[j - p - 1]);
            } else {
                assert(r[j] == l[j - n]);
            }
        }
        assert forall|k: int| -1 <= k < r.len() implies #[trigger] adjacent(t, h, r, k) by {
            if k < p {
                assert(at(h, r, k) == at(h, l, k));
                assert(at(h, r, k + 1) == at(h, l, k + 1));
                assert(adjacent(s, h, l, k));
                assert(at(h, l, k) != at(h, l, p));
                assert(l[k + 1] != m[0]);
                if k >= 0 {
                    assert(l[k] != m[n - 1]);
                }
            } else if k == p {
                assert(at(h, r, k) == before);
                assert(at(h, r, k + 1) == first);
            } else if k < p + n {
                assert(at(h, r, k) == m[k - p - 1]);
                assert(at(h, r, k + 1) == m[k - p]);
                assert(adjacent(s, g, m, k - p - 1));
                assert(at(g, m, k - p - 1) != at(g, m, n - 1));
                assert(at(g, m, k - p) != at(g, m, 0));
                if p >= 0 {
                    assert(l[p] != m[k - p - 1]);
                }
                if p + 1 < l.len() {
                    assert(l[p + 1] != m[k - p]);
                }
            } else if k == p + n {
                assert(at(h, r, k) == last);
                assert(at(h, r, k + 1) == after);
            } else {
                assert(at(h, r, k) == at(h, l, k - n));
                assert(at(h, r, k + 1) == at(h, l, k - n + 1));
                assert(adjacent(s, h, l, k - n));
                assert(l[k - n] != m[n - 1]);
                assert(at(h, l, k - n) != at(h, l, p));
                if k - n + 1 < l.len() {
                    assert(l[k - n + 1] != m[0]);
                    assert(at(h, l, k - n + 1) != at(h, l, p + 1));
                }
            }
        }
    }
}

/// Splicing the list at `list` in behind `head` puts its members before
/// those of the list at `head`.
pub proof fn lemma_splice(s: Seq<ListHead>, list: usize, head: usize)
    requires
        wf(s),
        linked(s, list),
        linked(s, head),
        !same_ring(s, list, head),
    ensures
        wf(spliced(s, list, head, next_of(s, head))),
        list_of(spliced(s, list, head, next_of(s, head)), head) == list_of(s, list) + list_of(
            s,
            head,
        ),
        detached(spliced(s, list, head, next_of(s, head)), list),
        !isolated(s, list) ==> head != prev_of(s, list) && next_of(s, head) != next_of(s, list),
{
    let l = list_of(s, head);
    let m = list_of(s, list);
    lemma_list_exists(s, head);
    lemma_list_exists(s, list);
    lemma_rings_disjoint(s, list, m, head, l);
    lemma_list_spliced(s, head, l, list, m, -1);
    assert(spliced_list(l, m, -1) =~= m + l);
    lemma_list_unique(spliced(s, list, head, next_of(s, head)), head, m + l);
}

/// Splicing the list at `list` in before `head` puts its members behind
/// those of the list at `head`.
pub proof fn lemma_splice_tail(s: Seq<ListHead>, list: usize, head: usize)
    requires
        wf(s),
        linked(s, list),
        linked(s, head),
        !same_ring(s, list, head),
    ensures
        wf(spliced(s, list, prev_of(s, head), head)),
        list_of(spliced(s, list, prev_of(s, head), head), head) == list_of(s, head) + list_of(
            s,
            list,
        ),
        detached(spliced(s, list, prev_of(s, head), head), list),
        linked(s, prev_of(s, head)),
        !isolated(s, list) ==> prev_of(s, head) != prev_of(s, list) && head != next_of(s, list),
{
    let l = list_of(s, head);
    let m = list_of(s, list);
    lemma_list_exists(s, head);
    lemma_list_exists(s, list);
    lemma_rings_disjoint(s, list, m, head, l);
    assert(closed_at(s, head));
    lemma_list_spliced(s, head, l, list, m, l.len() - 1);
    assert(spliced_list(l, m, l.len() - 1) =~= l + m);
    lemma_list_unique(spliced(s, list, prev_of(s, head), head), head, l + m);
}

/// A new node changes no list.
pub proof fn lemma_new_keeps(s: Seq<ListHead>, item: i32, h: usize)
    requires
        wf(s),
        linked(s, h),
    ensures
        list_of(with_new(s, item), h) == list_of(s, h),
{
    lemma_list_exists(s, h);
    lemma_list_kept(s, with_new(s, item), h);
}

/// A node inserted into one ring changes no list of another ring.
pub proof fn lemma_insert_keeps(s: Seq<ListHead>, new: usize, before: usize, h: usize)
    requires
        wf(s),
        linked(s, before),
        detached(s, new),
        linked(s, h),
        h != new,
        !same_ring(s, before, h),
    ensures
        list_of(inserted(s, new, before, next_of(s, before)), h) == list_of(s, h),
{
    let l = list_of(s, h);
    let t = inserted(s, new, before, next_of(s, before));
    lemma_list_exists(s, h);
    lemma_same_ring_symmetric(s, before, h);
    lemma_outside_neighbours(s, h, l, before);
    lemma_detached_not_member(s, h, l, new);
    lemma_list_kept(s, t, h);
}

/// Isolating a detached node changes no list of another node.
pub proof fn lemma_reset_keeps(s: Seq<ListHead>, x: usize, h: usize)
    requires
        wf(s),
        detached(s, x),
        linked(s, h),
        h != x,
    ensures
        list_of(reset(s, x), h) == list_of(s, h),
{
    let l = list_of(s, h);
    lemma_list_exists(s, h);
    lemma_detached_not_member(s, h, l, x);
    lemma_list_kept(s, reset(s, x), h);
}

/// A node added behind a sentinel is the first member of its list.
pub proof fn lemma_add(s: Seq<ListHead>, new: usize, head: usize)
    requires
        wf(s),
        linked(s, head),
        detached(s, new),
        new != head,
    ensures
        list_of(inserted(s, new, head, next_of(s, head)), head) == seq![new] + list_of(s, head),
{
    let l = list_of(s, head);
    lemma_list_exists(s, head);
    lemma_list_inserted(s, head, l, -1, new);
    assert(l.insert(0, new) =~= seq![new] + l);
    lemma_list_unique(inserted(s, new, head, next_of(s, head)), head, seq![new] + l);
}

/// A node added before a sentinel is the last member of its list.
pub proof fn lemma_add_tail(s: Seq<ListHead>, new: usize, head: usize)
    requires
        wf(s),
        linked(s, head),
        detached(s, new),
        new != head,
    ensures
        list_of(inserted(s, new, prev_of(s, head), head), head) == list_of(s, head).push(new),
{
    let l = list_of(s, head);
    lemma_list_exists(s, head);
    assert(adjacent(s, head, l, l.len() - 1));
    lemma_list_inserted(s, head, l, l.len() - 1, new);
    assert(l.insert(l.len() as int, new) =~= l.push(new));
    lemma_list_unique(inserted(s, new, prev_of(s, head), head), head, l.push(new));
}

/// Removing a node from its ring takes it out of every list of which it
/// is a member and changes no other list.
pub proof fn lemma_del(s: Seq<ListHead>, x: usize, h: usize)
    requires
        wf(s),
        linked(s, x),
        linked(s, h),
        h != x,
    ensures
        list_of(removed(s, x), h) == list_of(s, h).remove_value(x),
{
    let l = list_of(s, h);
    let t = removed(s, x);
    lemma_list_exists(s, h);
    l.index_of_first_ensures(x);
    match l.index_of_first(x) {
        Some(p) => {
            lemma_list_removed(s, h, l, p);
            lemma_list_unique(t, h, l.remove(p));
        },
        None => {
            lemma_outside_neighbours(s, h, l, x);
            lemma_list_frame(s, t, h, l);
            lemma_list_unique(t, h, l);
        },
    }
}

/// A list without one of its entries holds only entries that it held.
pub(crate) proof fn lemma_remove_value_subset(l: Seq<usize>, x: usize, y: usize)
    requires
        l.remove_value(x).contains(y),
    ensures
        l.contains(y),
{
    l.index_of_first_ensures(x);
    match l.index_of_first(x) {
        Some(p) => {
            let m = l.remove(p);
            let k = choose|k: int| 0 <= k < m.len() && m[k] == y;
            assert(l[if k < p { k } else { k + 1 }] == y);
        },
        None => {},
    }
}

/// A node that moves behind a sentinel is then the first member of its
/// list, and no more where it was.
pub proof fn lemma_move(s: Seq<ListHead>, x: usize, head: usize)
    requires
        wf(s),
        linked(s, x),
        linked(s, head),
        x != head,
    ensures
        list_of(moved(s, x, head), head) == seq![x] + list_of(s, head).remove_value(x),
{
    let r = removed(s, x);
    lemma_removed(s, x);
    lemma_del(s, x, head);
    lemma_add(r, x, head);
    assert(moved(s, x, head) =~= inserted(r, x, head, next_of(r, head)));
}

/// A node that moves before a sentinel is then the last member of its
/// list, and no more where it was.
pub proof fn lemma_move_tail(s: Seq<ListHead>, x: usize, head: usize)
    requires
        wf(s),
        linked(s, x),
        linked(s, head),
        x != head,
    ensures
        list_of(moved_tail(s, x, head), head) == list_of(s, head).remove_value(x).push(x),
{
    let r = removed(s, x);
    lemma_removed(s, x);
    lemma_del(s, x, head);
    lemma_add_tail(r, x, head);
    assert(moved_tail(s, x, head) =~= inserted(r, x, prev_of(r, head), head));
}

/// A node that moves to the front or the back of a list leaves the lists
/// of other rings, and changes nothing else in them.
pub proof fn lemma_move_keeps(s: Seq<ListHead>, x: usize, head: usize, h: usize)
    requires
        wf(s),
        linked(s, x),
        linked(s, head),
        linked(s, h),
        x != head,
        h != x,
        !same_ring(s, head, h),
    ensures
        list_of(moved(s, x, head), h) == list_of(s, h).remove_value(x),
        list_of(moved_tail(s, x, head), h) == list_of(s, h).remove_value(x),
{
    let r = removed(s, x);
    lemma_removed(s, x);
    lemma_del(s, x, h);
    lemma_del(s, x, head);
    if list_of(r, head).contains(h) {
        lemma_remove_value_subset(list_of(s, head), x, h);
    }
    lemma_insert_keeps(r, x, head, h);
    assert(moved(s, x, head) =~= inserted(r, x, head, next_of(r, head)));
    lemma_tail_ring(r, head, h);
    lemma_insert_keeps(r, x, prev_of(r, head), h);
    assert(moved_tail(s, x, head) =~= inserted(r, x, prev_of(r, head), head));
}

/// The sequence `l` with `a` for `b` and `b` for `a`.
pub open spec fn exchanged(a: usize, b: usize, l: Seq<usize>) -> Seq<usize> {
    l.map_values(|x: usize| exchange(a, b, x))
}

/// In the store where `a` and `b` have changed places, the list at a
/// sentinel reads as it did with `a` for `b` and `b` for `a`, the sentinel
/// too.
pub proof fn lemma_swapped_list(s: Seq<ListHead>, a: usize, b: usize, h: usize)
    requires
        wf(s),
        linked(s, a),
        linked(s, b),
        linked(s, h),
    ensures
        list_of(swapped(s, a, b), exchange(a, b, h)) == exchanged(a, b, list_of(s, h)),
{
    let l = list_of(s, h);
    let t = swapped(s, a, b);
    let g = exchange(a, b, h);
    let m = exchanged(a, b, l);
    lemma_list_exists(s, h);
    lemma_list_members(s, h, l);
    assert forall|k: int| -1 <= k < m.len() implies #[trigger] adjacent(t, g, m, k) by {
        assert(adjacent(s, h, l, k));
    }
    lemma_list_unique(t, g, m);
}

/// `new` for `old`, and every other node for itself.
pub open spec fn substitute(old: usize, new: usize, x: usize) -> usize {
    if x == old {
        new
    } else {
        x
    }
}

/// The sequence `l` with `new` for `old`.
pub open spec fn substituted(old: usize, new: usize, l: Seq<usize>) -> Seq<usize> {
    l.map_values(|x: usize| substitute(old, new, x))
}

/// In the store where `new` stands in the place of `old`, the list at a
/// sentinel reads as it did with `new` for `old`, the sentinel too.
pub proof fn lemma_replaced_list(s: Seq<ListHead>, old: usize, new: usize, h: usize)
    requires
        wf(s),
        linked(s, old),
        detached(s, new),
        linked(s, h),
        h != new,
    ensures
        list_of(replaced(s, old, new), substitute(old, new, h)) == substituted(
            old,
            new,
            list_of(s, h),
        ),
{
    let l = list_of(s, h);
    let t = replaced(s, old, new);
    let g = substitute(old, new, h);
    let m = substituted(old, new, l);
    lemma_list_exists(s, h);
    lemma_list_members(s, h, l);
    lemma_detached_not_member(s, h, l, new);
    assert forall|k: int| -1 <= k < m.len() implies #[trigger] adjacent(t, g, m, k) by {
        assert(adjacent(s, h, l, k));
    }
    lemma_list_unique(t, g, m);
}

/// Moving the first member of one list to the back of another, with a
/// third list standing by: the first loses its front, the second gains it
/// at the back, the third stays. No node outside the first two rings
/// changes, and no payload.
pub(crate) proof fn lemma_move_tail_front(
    s: Seq<ListHead>,
    src: usize,
    l: Seq<usize>,
    head: usize,
    out: Seq<usize>,
    other: usize,
    lo: Seq<usize>,
)
    requires
        wf(s),
        is_list(s, src, l),
        l.len() > 0,
        is_list(s, head, out),
        is_list(s, other, lo),
        outside(head, out, src),
        outside(head, out, other),
        outside(src, l, other),
    ensures
        wf(moved_tail(s, l[0], head)),
        is_list(moved_tail(s, l[0], head), src, l.skip(1)),
        is_list(moved_tail(s, l[0], head), head, out.push(l[0])),
        is_list(moved_tail(s, l[0], head), other, lo),
        same_items(s, moved_tail(s, l[0], head)),
        moved_tail(s, l[0], head).len() == s.len(),
        forall|n: usize|
            n < s.len() && outside(src, l, n) && outside(head, out, n) ==> same_node(
                s,
                moved_tail(s, l[0], head),
                n,
            ),
{
    let x = l[0];
    let u = unlinked(s, x);
    let t = moved_tail(s, x, head);
    lemma_list_members(s, src, l);
    lemma_list_members(s, head, out);
    lemma_list_members(s, other, lo);
    assert(linked(s, at(src, l, 0)));
    lemma_rings_disjoint(s, head, out, src, l);
    lemma_rings_disjoint(s, head, out, other, lo);
    lemma_rings_disjoint(s, src, l, other, lo);
    assert(outside(other, lo, x)) by {
        if lo.contains(x) {
            let k = choose|k: int| 0 <= k < lo.len() && lo[k] == x;
            assert(l[0] != lo[k]);
        }
    }
    // Taking `x` out of its ring.
    lemma_unlinked(s, x);
    lemma_list_removed(s, src, l, 0);
    lemma_outside_neighbours(s, head, out, x);
    lemma_outside_neighbours(s, other, lo, x);
    lemma_list_frame(s, u, head, out);
    lemma_list_frame(s, u, other, lo);
    // Putting it in before `head`.
    let tail = prev_of(u, head);
    assert(adjacent(u, head, out, out.len() - 1));
    lemma_list_inserted(u, head, out, out.len() - 1, x);
    assert(out.insert(out.len() as int, x) =~= out.push(x));
    lemma_inserted(u, x, tail, head);
    let l1 = l.skip(1);
    assert(outside(src, l1, head)) by {
        if l1.contains(head) {
            let k = choose|k: int| 0 <= k < l1.len() && l1[k] == head;
            assert(l[k + 1] == head);
        }
    }
    lemma_outside_neighbours(u, src, l1, head);
    lemma_outside_neighbours(u, other, lo, head);
    assert(outside(src, l1, x));
    lemma_list_frame(u, t, src, l1);
    lemma_list_frame(u, t, other, lo);
    assert forall|n: usize|
        n < s.len() && outside(src, l, n) && outside(head, out, n) implies same_node(s, t, n) by {
        assert(adjacent(s, src, l, 0));
        assert(adjacent(s, src, l, -1));
    }
}

/// Splicing what is left of one list in at the back of another and
/// isolating its sentinel, with an empty list standing by: the second list
/// gains the members of the first, in their order; both other sentinels are
/// isolated. No node outside the first two rings changes, and no payload.
pub(crate) proof fn lemma_splice_tail_rest(
    s: Seq<ListHead>,
    src: usize,
    l: Seq<usize>,
    head: usize,
    out: Seq<usize>,
    other: usize,
)
    requires
        wf(s),
        is_list(s, src, l),
        is_list(s, head, out),
        isolated(s, other),
        outside(head, out, src),
        outside(head, out, other),
        outside(src, l, other),
    ensures
        ({
            let t1 = spliced(s, src, prev_of(s, head), head);
            let t = reset(t1, src);
            &&& linked(s, src) && linked(s, head) && !same_ring(s, src, head)
            &&& wf(t1) && detached(t1, src) && wf(t)
            &&& is_list(t, head, out + l)
            &&& isolated(t, src)
            &&& isolated(t, other)
            &&& same_items(s, t)
            &&& t.len() == s.len()
            &&& forall|n: usize|
                n < s.len() && outside(src, l, n) && outside(head, out, n) ==> same_node(s, t, n)
        }),
{
    let t1 = spliced(s, src, prev_of(s, head), head);
    let t = reset(t1, src);
    lemma_list_members(s, src, l);
    lemma_list_members(s, head, out);
    assert(linked(s, at(head, out, -1)));
    assert(linked(s, at(src, l, -1)));
    lemma_list_unique(s, src, l);
    lemma_list_unique(s, head, out);
    lemma_rings_disjoint(s, head, out, src, l);
    lemma_splice_tail(s, src, head);
    lemma_list_exists(t1, head);
    lemma_detached_not_member(t1, head, out + l, src);
    lemma_reset(t1, src);
    lemma_list_frame(t1, t, head, out + l);
    assert(adjacent(s, src, l, -1));
    assert(adjacent(s, src, l, l.len() - 1));
    assert(adjacent(s, head, out, out.len() - 1));
    assert(isolated(t, other));
}

} // verus!
