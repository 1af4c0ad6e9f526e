//! The state of a two-way merge under way, and why each of its steps keeps
//! it in order.

use crate::effects::{lemma_move_tail_front, lemma_splice_tail_rest};
use crate::links::{
    detached, isolated, lemma_with_new, linked, moved_tail, next_of, prev_of, reset, spliced, wf,
    with_new, ListHead,
};
use crate::merge::merge_frame;
use crate::ring::{
    adjacent, at, is_list, lemma_list_exists, lemma_list_frame, lemma_list_members,
    lemma_list_unique, lemma_rings_disjoint, list_of, outside, same_items, same_node, same_ring,
};
use crate::sorting::lemma_front_to_back;
use vstd::prelude::*;

verus! {

/// Two lists are being merged. `s0` is the store before, where `a` had the
/// list `la` and `b` the list `lb`; `s` is the store now. The first `i`
/// members of `la` and the first `j` of `lb` have gone to the list `out` at
/// the new sentinel `head`; the others are where they were.
pub(crate) open spec fn merging(
    s0: Seq<ListHead>,
    s: Seq<ListHead>,
    a: usize,
    b: usize,
    head: usize,
    la: Seq<usize>,
    lb: Seq<usize>,
    i: int,
    j: int,
    out: Seq<usize>,
) -> bool {
    &&& wf(s0)
    &&& wf(s)
    &&& s.len() == s0.len() + 1
    &&& head == s0.len()
    &&& is_list(s0, a, la)
    &&& is_list(s0, b, lb)
    &&& outside(a, la, b)
    &&& 0 <= i <= la.len()
    &&& 0 <= j <= lb.len()
    &&& is_list(s, a, la.skip(i))
    &&& is_list(s, b, lb.skip(j))
    &&& is_list(s, head, out)
    &&& forall|k: int| 0 <= k < out.len() ==> la.contains(#[trigger] out[k]) || lb.contains(out[k])
    &&& out.to_multiset().add(la.skip(i).to_multiset()).add(lb.skip(j).to_multiset())
        == la.to_multiset().add(lb.to_multiset())
    &&& same_items(s0, s)
    &&& forall|n: usize|
        n < s0.len() && outside(a, la, n) && outside(b, lb, n) ==> same_node(s0, s, n)
}

/// Where merging stands, the three rings share no node.
pub(crate) proof fn lemma_merging_apart(
    s0: Seq<ListHead>,
    s: Seq<ListHead>,
    a: usize,
    b: usize,
    head: usize,
    la: Seq<usize>,
    lb: Seq<usize>,
    i: int,
    j: int,
    out: Seq<usize>,
)
    requires
        merging(s0, s, a, b, head, la, lb, i, j, out),
    ensures
        outside(b, lb, a),
        outside(a, la.skip(i), b),
        outside(b, lb.skip(j), a),
        outside(head, out, a),
        outside(head, out, b),
        forall|n: usize| la.skip(i).contains(n) ==> la.contains(n),
        forall|n: usize| lb.skip(j).contains(n) ==> lb.contains(n),
        forall|n: usize| la.contains(n) || lb.contains(n) ==> n < s0.len(),
{
    lemma_rings_disjoint(s0, a, la, b, lb);
    assert forall|n: usize| la.skip(i).contains(n) implies la.contains(n) by {
        let k = choose|k: int| 0 <= k < la.skip(i).len() && la.skip(i)[k] == n;
        assert(la[k + i] == n);
    }
    assert forall|n: usize| lb.skip(j).contains(n) implies lb.contains(n) by {
        let k = choose|k: int| 0 <= k < lb.skip(j).len() && lb.skip(j)[k] == n;
        assert(lb[k + j] == n);
    }
    assert forall|n: usize| la.contains(n) || lb.contains(n) implies n < s0.len() by {
        if la.contains(n) {
            let k = choose|k: int| 0 <= k < la.len() && la[k] == n;
            assert(la[k] < s0.len());
        } else {
            let k = choose|k: int| 0 <= k < lb.len() && lb[k] == n;
            assert(lb[k] < s0.len());
        }
    }
    if out.contains(a) {
        let k = choose|k: int| 0 <= k < out.len() && out[k] == a;
        assert(la.contains(out[k]) || lb.contains(out[k]));
        if la.contains(a) {
            let q = choose|q: int| 0 <= q < la.len() && la[q] == a;
            assert(la[q] != a);
        }
    }
    if out.contains(b) {
        let k = choose|k: int| 0 <= k < out.len() && out[k] == b;
        assert(la.contains(out[k]) || lb.contains(out[k]));
        if lb.contains(b) {
            let q = choose|q: int| 0 <= q < lb.len() && lb[q] == b;
            assert(lb[q] != b);
        }
    }
}

/// Merging starts with a new, isolated sentinel and nothing moved.
pub(crate) proof fn lemma_merging_start(
    s0: Seq<ListHead>,
    a: usize,
    b: usize,
    head: usize,
    item: i32,
)
    requires
        wf(s0),
        linked(s0, a),
        linked(s0, b),
        !same_ring(s0, a, b),
        head == s0.len(),
        s0.len() < usize::MAX,
    ensures
        merging(
            s0,
            with_new(s0, item),
            a,
            b,
            head,
            list_of(s0, a),
            list_of(s0, b),
            0,
            0,
            Seq::empty(),
        ),
{
    let s = with_new(s0, item);
    let la = list_of(s0, a);
    let lb = list_of(s0, b);
    let out = Seq::<usize>::empty();
    lemma_list_exists(s0, a);
    lemma_list_exists(s0, b);
    lemma_with_new(s0, item);
    lemma_list_frame(s0, s, a, la);
    lemma_list_frame(s0, s, b, lb);
    assert(la.skip(0) =~= la);
    assert(lb.skip(0) =~= lb);
    assert(out.to_multiset().add(la.to_multiset()).add(lb.to_multiset()) =~= la.to_multiset().add(
        lb.to_multiset(),
    )) by {
        broadcast use vstd::multiset::group_multiset_axioms;

        out.to_multiset_ensures();
    }
}

/// While neither list is used up, their successors are the members due
/// next, and either may move to the back of the new list.
pub(crate) proof fn lemma_merging_fronts(
    s0: Seq<ListHead>,
    s: Seq<ListHead>,
    a: usize,
    b: usize,
    head: usize,
    la: Seq<usize>,
    lb: Seq<usize>,
    i: int,
    j: int,
    out: Seq<usize>,
)
    requires
        merging(s0, s, a, b, head, la, lb, i, j, out),
    ensures
        a < s.len() && b < s.len() && head < s.len(),
        linked(s, head),
        next_of(s, a) != a ==> i < la.len() && next_of(s, a) == la[i] && linked(s, la[i]) && la[i]
            != head && la[i] < s0.len(),
        next_of(s, b) != b ==> j < lb.len() && next_of(s, b) == lb[j] && linked(s, lb[j]) && lb[j]
            != head && lb[j] < s0.len(),
        next_of(s, a) == a ==> i == la.len(),
        next_of(s, b) == b ==> j == lb.len(),
{
    let ra = la.skip(i);
    let rb = lb.skip(j);
    assert(adjacent(s, a, ra, -1));
    assert(adjacent(s, b, rb, -1));
    lemma_list_members(s, a, ra);
    lemma_list_members(s, b, rb);
    lemma_list_members(s, head, out);
    assert(linked(s, at(head, out, -1)));
}

/// Merging goes on when the member of `la` that is due moves to the back
/// of the new list.
pub(crate) proof fn lemma_merging_left(
    s0: Seq<ListHead>,
    s: Seq<ListHead>,
    a: usize,
    b: usize,
    head: usize,
    la: Seq<usize>,
    lb: Seq<usize>,
    i: int,
    j: int,
    out: Seq<usize>,
)
    requires
        merging(s0, s, a, b, head, la, lb, i, j, out),
        i < la.len(),
    ensures
        merging(s0, moved_tail(s, la[i], head), a, b, head, la, lb, i + 1, j, out.push(la[i])),
{
    let ra = la.skip(i);
    let rb = lb.skip(j);
    let x = la[i];
    let t = moved_tail(s, x, head);
    lemma_merging_apart(s0, s, a, b, head, la, lb, i, j, out);
    lemma_move_tail_front(s, a, ra, head, out, b, rb);
    assert(ra.skip(1) =~= la.skip(i + 1));
    lemma_front_to_back(out, ra);
    let out2 = out.push(x);
    assert(out2.to_multiset().add(la.skip(i + 1).to_multiset()).add(rb.to_multiset())
        =~= la.to_multiset().add(lb.to_multiset()));
    assert forall|n: usize|
        n < s0.len() && outside(a, la, n) && outside(b, lb, n) implies same_node(s0, t, n) by {
        assert(outside(a, ra, n));
    }
}

/// Merging goes on when the member of `lb` that is due moves to the back
/// of the new list.
pub(crate) proof fn lemma_merging_right(
    s0: Seq<ListHead>,
    s: Seq<ListHead>,
    a: usize,
    b: usize,
    head: usize,
    la: Seq<usize>,
    lb: Seq<usize>,
    i: int,
    j: int,
    out: Seq<usize>,
)
    requires
        merging(s0, s, a, b, head, la, lb, i, j, out),
        j < lb.len(),
    ensures
        merging(s0, moved_tail(s, lb[j], head), a, b, head, la, lb, i, j + 1, out.push(lb[j])),
{
    let ra = la.skip(i);
    let rb = lb.skip(j);
    let y = lb[j];
    let t = moved_tail(s, y, head);
    lemma_merging_apart(s0, s, a, b, head, la, lb, i, j, out);
    lemma_move_tail_front(s, b, rb, head, out, a, ra);
    assert(rb.skip(1) =~= lb.skip(j + 1));
    lemma_front_to_back(out, rb);
    let out2 = out.push(y);
    assert(out2.to_multiset().add(ra.to_multiset()).add(lb.skip(j + 1).to_multiset())
        =~= la.to_multiset().add(lb.to_multiset())) by {
        broadcast use vstd::multiset::group_multiset_axioms;

        assert(out2.to_multiset().add(ra.to_multiset()).add(lb.skip(j + 1).to_multiset())
            =~= out2.to_multiset().add(lb.skip(j + 1).to_multiset()).add(ra.to_multiset()));
        assert(out.to_multiset().add(ra.to_multiset()).add(rb.to_multiset())
            =~= out.to_multiset().add(rb.to_multiset()).add(ra.to_multiset()));
    }
    assert forall|n: usize|
        n < s0.len() && outside(a, la, n) && outside(b, lb, n) implies same_node(s0, t, n) by {
        assert(outside(b, rb, n));
    }
}

/// Merging ends when one list is used up: what is left of the other goes to
/// the back of the new list, and its sentinel is isolated. `src` is the
/// sentinel of the list that may have members left, and `spent` the
/// sentinel of the list that is used up.
pub(crate) proof fn lemma_merging_end(
    s0: Seq<ListHead>,
    s: Seq<ListHead>,
    a: usize,
    b: usize,
    head: usize,
    la: Seq<usize>,
    lb: Seq<usize>,
    i: int,
    j: int,
    out: Seq<usize>,
    src: usize,
    spent: usize,
)
    requires
        merging(s0, s, a, b, head, la, lb, i, j, out),
        (src == b && spent == a && next_of(s, a) == a) || (src == a && spent == b && next_of(s, b)
            == b),
    ensures
        ({
            let t1 = spliced(s, src, prev_of(s, head), head);
            let t = reset(t1, src);
            let rest = if src == a {
                la.skip(i)
            } else {
                lb.skip(j)
            };
            &&& linked(s, src) && linked(s, head) && !same_ring(s, src, head)
            &&& detached(t1, src)
            &&& merge_frame(s0, t, a, b, head)
            &&& list_of(t, head) == out + rest
            &&& list_of(s0, a) == la
            &&& list_of(s0, b) == lb
            &&& src == b ==> i == la.len()
            &&& src == a ==> j == lb.len()
        }),
{
    let t1 = spliced(s, src, prev_of(s, head), head);
    let t = reset(t1, src);
    let ra = la.skip(i);
    let rb = lb.skip(j);
    let rest = if src == a {
        ra
    } else {
        rb
    };
    let gone = if src == a {
        rb
    } else {
        ra
    };
    lemma_merging_apart(s0, s, a, b, head, la, lb, i, j, out);
    lemma_merging_fronts(s0, s, a, b, head, la, lb, i, j, out);
    lemma_list_unique(s0, a, la);
    lemma_list_unique(s0, b, lb);
    assert(adjacent(s, spent, gone, -1));
    lemma_splice_tail_rest(s, src, rest, head, out, spent);
    lemma_list_unique(t, head, out + rest);
    assert((out + rest).to_multiset() =~= la.to_multiset().add(lb.to_multiset())) by {
        broadcast use vstd::multiset::group_multiset_axioms;

        vstd::seq_lib::lemma_multiset_commutative(out, rest);
        gone.to_multiset_ensures();
    }
    assert forall|n: usize|
        n < s0.len() && outside(a, la, n) && outside(b, lb, n) implies same_node(s0, t, n) by {
        assert(outside(src, rest, n));
    }
}

} // verus!
