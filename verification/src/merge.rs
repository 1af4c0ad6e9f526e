//! The two-way merge of two lists into a new one.

use crate::arena::Arena;
use crate::links::{isolated, items, linked, wf, ListHead};
use crate::merging::{
    lemma_merging_end, lemma_merging_fronts, lemma_merging_left, lemma_merging_right,
    lemma_merging_start, merging,
};
use crate::order::{callable, decides, not_greater};
use crate::ring::{is_list, list_of, outside, same_items, same_node, same_ring};
use crate::sorting::{
    by_payload, lemma_by_payload_total, lemma_merged_sorted_total, lemma_merged_takes_left,
    lemma_merged_takes_right, merged, total_preorder,
};
use std::cmp::Ordering;
use vstd::prelude::*;
use vstd::relations::sorted_by;

verus! {

/// What a merge leaves behind, whatever the comparator says. `t` is `s`
/// with one more node, `head`, whose list holds the members of the lists
/// that `a` and `b` had in `s`, each once. `a` and `b` are isolated. No
/// payload has changed, and no node outside the rings of `a` and `b`.
pub open spec fn merge_frame(
    s: Seq<ListHead>,
    t: Seq<ListHead>,
    a: usize,
    b: usize,
    head: usize,
) -> bool {
    let la = list_of(s, a);
    let lb = list_of(s, b);
    &&& wf(t)
    &&& head == s.len()
    &&& t.len() == s.len() + 1
    &&& linked(t, head)
    &&& is_list(t, head, list_of(t, head))
    &&& list_of(t, head).to_multiset() == la.to_multiset().add(lb.to_multiset())
    &&& isolated(t, a)
    &&& isolated(t, b)
    &&& same_items(s, t)
    &&& forall|n: usize|
        n < s.len() && outside(a, la, n) && outside(b, lb, n) ==> same_node(s, t, n)
}

impl ListHead {
    /// Merges the lists at `a` and `b`, two sentinels in different rings,
    /// into one list at a new sentinel, and returns that sentinel. The
    /// members of both lists move to the new list; `a` and `b` are left
    /// isolated.
    ///
    /// Of the two front members the one of `a` goes first unless the
    /// comparator finds it greater than the one of `b`: so members that
    /// compare equal stay in the order `a`, `b`. Where `compare` decides a
    /// relation `le`, the new list is the merge of the two by `le`; where
    /// `le` is a total preorder and both lists are sorted by it, so is the
    /// new one. Where one list is empty the new list is the other, whatever
    /// the comparator says.
    pub fn merge<F: Fn(&ListHead, &ListHead) -> Ordering>(
        arena: &mut Arena,
        compare: F,
        a: usize,
        b: usize,
    ) -> (head: usize)
        requires
            old(arena).wf(),
            linked(old(arena)@, a),
            linked(old(arena)@, b),
            !same_ring(old(arena)@, a, b),
            callable(compare),
        ensures
            merge_frame(old(arena)@, final(arena)@, a, b, head),
            list_of(old(arena)@, a).len() == 0 ==> list_of(final(arena)@, head) == list_of(
                old(arena)@,
                b,
            ),
            list_of(old(arena)@, b).len() == 0 ==> list_of(final(arena)@, head) == list_of(
                old(arena)@,
                a,
            ),
            forall|le: spec_fn(i32, i32) -> bool| #[trigger]
                decides(compare, le) ==> list_of(final(arena)@, head) == merged(
                    by_payload(le, items(old(arena)@)),
                    list_of(old(arena)@, a),
                    list_of(old(arena)@, b),
                ),
            forall|le: spec_fn(i32, i32) -> bool| #[trigger]
                decides(compare, le) && total_preorder(le) && sorted_by(
                    list_of(old(arena)@, a),
                    by_payload(le, items(old(arena)@)),
                ) && sorted_by(list_of(old(arena)@, b), by_payload(le, items(old(arena)@)))
                    ==> sorted_by(
                    list_of(final(arena)@, head),
                    by_payload(le, items(old(arena)@)),
                ),
    {
        let head: usize = Self::merge_by(arena, &compare, a, b);
        proof {
            let s = old(arena)@;
            assert forall|le: spec_fn(i32, i32) -> bool| #[trigger]
                decides(compare, le) && total_preorder(le) && sorted_by(
                    list_of(s, a),
                    by_payload(le, items(s)),
                ) && sorted_by(list_of(s, b), by_payload(le, items(s))) implies sorted_by(
                list_of(arena@, head),
                by_payload(le, items(s)),
            ) by {
                lemma_by_payload_total(le, items(s));
                lemma_merged_sorted_total(by_payload(le, items(s)), list_of(s, a), list_of(s, b));
            }
        }
        head
    }

    /// `merge`, with the comparator borrowed.
    pub(crate) fn merge_by<F: Fn(&ListHead, &ListHead) -> Ordering>(
        arena: &mut Arena,
        compare: &F,
        a: usize,
        b: usize,
    ) -> (head: usize)
        requires
            old(arena).wf(),
            linked(old(arena)@, a),
            linked(old(arena)@, b),
            !same_ring(old(arena)@, a, b),
            callable(*compare),
        ensures
            merge_frame(old(arena)@, final(arena)@, a, b, head),
            list_of(old(arena)@, a).len() == 0 ==> list_of(final(arena)@, head) == list_of(
                old(arena)@,
                b,
            ),
            list_of(old(arena)@, b).len() == 0 ==> list_of(final(arena)@, head) == list_of(
                old(arena)@,
                a,
            ),
            forall|le: spec_fn(i32, i32) -> bool| #[trigger]
                decides(*compare, le) ==> list_of(final(arena)@, head) == merged(
                    by_payload(le, items(old(arena)@)),
                    list_of(old(arena)@, a),
                    list_of(old(arena)@, b),
                ),
    {
        let ghost s0 = arena@;
        let ghost la = list_of(s0, a);
        let ghost lb = list_of(s0, b);
        let ghost its = items(s0);
        let head: usize = Self::new(arena, 0);
        let ghost mut out: Seq<usize> = Seq::empty();
        let ghost mut i: int = 0;
        let ghost mut j: int = 0;
        proof {
            lemma_merging_start(s0, a, b, head, 0);
            assert forall|le: spec_fn(i32, i32) -> bool| #[trigger]
                decides(*compare, le) implies out + merged(
                by_payload(le, its),
                la.skip(i),
                lb.skip(j),
            ) == merged(by_payload(le, its), la, lb) by {
                assert(la.skip(0) =~= la);
                assert(lb.skip(0) =~= lb);
                assert(out + merged(by_payload(le, its), la, lb) =~= merged(
                    by_payload(le, its),
                    la,
                    lb,
                ));
            }
            lemma_merging_fronts(s0, arena@, a, b, head, la, lb, i, j, out);
        }
        while !Self::list_empty(arena, a) && !Self::list_empty(arena, b)
            invariant
                merging(s0, arena@, a, b, head, la, lb, i, j, out),
                a < arena@.len() && b < arena@.len(),
                its == items(s0),
                la.len() == 0 ==> out + lb.skip(j) == lb,
                lb.len() == 0 ==> out + la.skip(i) == la,
                forall|le: spec_fn(i32, i32) -> bool| #[trigger]
                    decides(*compare, le) ==> out + merged(
                        by_payload(le, its),
                        la.skip(i),
                        lb.skip(j),
                    ) == merged(by_payload(le, its), la, lb),
                callable(*compare),
            decreases la.len() - i + lb.len() - j,
        {
            let ghost s = arena@;
            let ghost ra = la.skip(i);
            let ghost rb = lb.skip(j);
            proof {
                lemma_merging_fronts(s0, s, a, b, head, la, lb, i, j, out);
                lemma_merging_left(s0, s, a, b, head, la, lb, i, j, out);
                lemma_merging_right(s0, s, a, b, head, la, lb, i, j, out);
            }
            let x: usize = arena.next(a);
            let y: usize = arena.next(b);
            if not_greater(compare, arena.node(x), arena.node(y)) {
                Self::list_move_tail(arena, x, head);
                proof {
                    assert forall|le: spec_fn(i32, i32) -> bool| #[trigger]
                        decides(*compare, le) implies out.push(x) + merged(
                        by_payload(le, its),
                        la.skip(i + 1),
                        lb.skip(j),
                    ) == merged(by_payload(le, its), la, lb) by {
                        let r = by_payload(le, its);
                        lemma_merged_takes_left(r, ra, rb, out);
                        assert(ra.skip(1) =~= la.skip(i + 1));
                    }
                    out = out.push(x);
                    i = i + 1;
                }
            } else {
                Self::list_move_tail(arena, y, head);
                proof {
                    assert forall|le: spec_fn(i32, i32) -> bool| #[trigger]
                        decides(*compare, le) implies out.push(y) + merged(
                        by_payload(le, its),
                        la.skip(i),
                        lb.skip(j + 1),
                    ) == merged(by_payload(le, its), la, lb) by {
                        let r = by_payload(le, its);
                        lemma_merged_takes_right(r, ra, rb, out);
                        assert(rb.skip(1) =~= lb.skip(j + 1));
                    }
                    out = out.push(y);
                    j = j + 1;
                }
            }
            proof {
                lemma_merging_fronts(s0, arena@, a, b, head, la, lb, i, j, out);
            }
        }
        let ghost s = arena@;
        if Self::list_empty(arena, a) {
            proof {
                lemma_merging_end(s0, s, a, b, head, la, lb, i, j, out, b, a);
            }
            Self::list_splice_tail(arena, b, head);
            Self::init_list_head(arena, b);
        } else {
            proof {
                lemma_merging_end(s0, s, a, b, head, la, lb, i, j, out, a, b);
            }
            Self::list_splice_tail(arena, a, head);
            Self::init_list_head(arena, a);
        }
        head
    }
}

} // verus!
