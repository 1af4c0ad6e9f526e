//! Sorting a list: a bottom-up merge sort that keeps a stack of pending
//! runs and merges them by the carries of a counter.

use crate::arena::Arena;
use crate::links::{isolated, items, linked, wf, ListHead};
use crate::order::{callable, decides};
use crate::ring::{is_list, list_of, outside, same_items, same_node};
use crate::runs::{
    lemma_ones_next, lemma_runs_sorted_merged, lemma_sorting_done, lemma_sorting_front,
    lemma_sorting_merged, lemma_sorting_none, lemma_sorting_start, lemma_sorting_taken,
    lemma_sorting_top, ones, sorting, stripped,
};
use crate::sorting::{
    by_payload, lemma_runs_sorted_taken, runs_sorted, sorted_stably, total_preorder,
};
use std::cmp::Ordering;
use vstd::prelude::*;

verus! {

/// What a sort leaves behind, whatever the comparator says. The result is
/// a node that `s` did not have, whose list holds the members of the list
/// that `head` had in `s`, each once; `head` is isolated, and so is every
/// other node that `s` did not have. No payload has changed, and no node of
/// `s` outside the ring of `head`. Where the list that `head` had is empty,
/// the result is the one new node, and no node of `s` has changed. Else
/// `t` has one new node for every member and one for every merge.
pub open spec fn sort_frame(
    s: Seq<ListHead>,
    t: Seq<ListHead>,
    head: usize,
    sorted: Option<usize>,
) -> bool {
    let input = list_of(s, head);
    &&& wf(t)
    &&& same_items(s, t)
    &&& sorted matches Some(h) && {
        &&& s.len() <= h < t.len()
        &&& linked(t, h)
        &&& is_list(t, h, list_of(t, h))
        &&& list_of(t, h).to_multiset() == input.to_multiset()
        &&& list_of(t, h).len() == input.len()
        &&& isolated(t, head)
        &&& forall|n: usize| s.len() <= n < t.len() && n != h ==> isolated(t, n)
    }
    &&& forall|n: usize| n < s.len() && outside(head, input, n) ==> same_node(s, t, n)
    &&& if input.len() == 0 {
        &&& t.len() == s.len() + 1
        &&& forall|n: int| 0 <= n < s.len() ==> #[trigger] t[n] == s[n]
    } else {
        t.len() == s.len() + 2 * input.len() - 1
    }
}

impl ListHead {
    /// Sorts the list at `head` into a list at a new sentinel and returns
    /// that sentinel, always `Some`. The members move to the new list;
    /// `head` is left isolated. An empty list gives an empty list at a new
    /// sentinel.
    ///
    /// The members are taken from the front one by one, each as a run of
    /// its own on a stack of pending runs. After one is taken the count of
    /// members goes up by one, and the two runs on top are merged once for
    /// every carry of that count: for every trailing one-bit of the count
    /// before. So the pending runs are as many as the count has one-bits.
    /// At the end the runs are merged from the top down. Where `compare`
    /// decides a total preorder, the new list is the old one sorted by it,
    /// stably.
    pub fn list_sort<F: Fn(&ListHead, &ListHead) -> Ordering>(
        arena: &mut Arena,
        head: usize,
        compare: F,
    ) -> (sorted: Option<usize>)
        requires
            old(arena).wf(),
            linked(old(arena)@, head),
            callable(compare),
        ensures
            sort_frame(old(arena)@, final(arena)@, head, sorted),
            forall|le: spec_fn(i32, i32) -> bool| #[trigger]
                decides(compare, le) && total_preorder(le) ==> (sorted matches Some(h)
                    && sorted_stably(
                    by_payload(le, items(old(arena)@)),
                    list_of(old(arena)@, head),
                    list_of(final(arena)@, h),
                )),
    {
        let ghost s0 = arena@;
        let ghost input = list_of(s0, head);
        let ghost its = items(s0);
        let mut pending: Vec<usize> = Vec::new();
        let mut count: usize = 0;
        let ghost mut c: int = 0;
        let ghost mut runs: Seq<Seq<usize>> = Seq::empty();
        let ghost mut bounds: Seq<int> = seq![0int];
        proof {
            lemma_sorting_start(s0, head);
            lemma_sorting_front(s0, s0, head, input, c, pending@, runs, bounds);
        }
        if Self::list_empty(arena, head) {
            let fresh: usize = Self::new(arena, -1);
            proof {
                lemma_sorting_none(s0, head, fresh, -1i32);
            }
            return Some(fresh);
        }
        while !Self::list_empty(arena, head)
            invariant
                sorting(s0, arena@, head, input, c, pending@, runs, bounds),
                c == count,
                head < arena@.len(),
                runs.len() == ones(c),
                input == list_of(s0, head),
                input.len() > 0,
                its == items(s0),
                callable(compare),
                forall|le: spec_fn(i32, i32) -> bool| #[trigger]
                    decides(compare, le) && total_preorder(le) ==> runs_sorted(
                        by_payload(le, its),
                        input,
                        runs,
                    ),
            decreases input.len() - c,
        {
            proof {
                lemma_sorting_front(s0, arena@, head, input, c, pending@, runs, bounds);
            }
            let ghost s = arena@;
            let x: usize = arena.next(head);
            Self::list_del_init(arena, x);
            let tmp_head: usize = Self::new(arena, -1);
            Self::list_add_tail(arena, x, tmp_head);
            proof {
                lemma_sorting_taken(s0, s, head, input, c, pending@, runs, bounds, tmp_head, -1i32);
            }
            pending.push(tmp_head);
            proof {
                assert forall|le: spec_fn(i32, i32) -> bool| #[trigger]
                    decides(compare, le) && total_preorder(le) implies runs_sorted(
                    by_payload(le, its),
                    input,
                    runs.push(seq![x]),
                ) by {
                    lemma_runs_sorted_taken(by_payload(le, its), input, runs, x);
                }
                runs = runs.push(seq![x]);
                bounds = bounds.push(c + 1);
            }
            let mut bits: usize = count;
            let ghost mut rest: int = c;
            while bits & 1 == 1
                invariant
                    sorting(s0, arena@, head, input, c + 1, pending@, runs, bounds),
                    rest == bits,
                    runs.len() == ones(rest) + 1,
                    stripped(rest) == stripped(c),
                    its == items(s0),
                    callable(compare),
                    forall|le: spec_fn(i32, i32) -> bool| #[trigger]
                        decides(compare, le) && total_preorder(le) ==> runs_sorted(
                            by_payload(le, its),
                            input,
                            runs,
                        ),
                decreases bits,
            {
                assert(bits & 1 == 1 ==> bits % 2 == 1 && bits >> 1 == bits / 2) by (bit_vector);
                let g = Self::merge_top(
                    arena,
                    &compare,
                    &mut pending,
                    Ghost(s0),
                    Ghost(head),
                    Ghost(input),
                    Ghost(c + 1),
                    Ghost(runs),
                    Ghost(bounds),
                );
                bits = bits >> 1;
                proof {
                    runs = g@.0;
                    bounds = g@.1;
                    rest = rest / 2;
                }
            }
            proof {
                assert(bits & 1 != 1 ==> bits % 2 == 0) by (bit_vector);
                lemma_ones_next(c);
                lemma_sorting_front(s0, arena@, head, input, c + 1, pending@, runs, bounds);
                c = c + 1;
            }
            count += 1;
        }
        proof {
            lemma_sorting_front(s0, arena@, head, input, c, pending@, runs, bounds);
            lemma_ones_next(c);
        }
        while pending.len() > 1
            invariant
                sorting(s0, arena@, head, input, c, pending@, runs, bounds),
                c == input.len(),
                runs.len() >= 1,
                input == list_of(s0, head),
                its == items(s0),
                callable(compare),
                forall|le: spec_fn(i32, i32) -> bool| #[trigger]
                    decides(compare, le) && total_preorder(le) ==> runs_sorted(
                        by_payload(le, its),
                        input,
                        runs,
                    ),
            decreases pending.len(),
        {
            let g = Self::merge_top(
                arena,
                &compare,
                &mut pending,
                Ghost(s0),
                Ghost(head),
                Ghost(input),
                Ghost(c),
                Ghost(runs),
                Ghost(bounds),
            );
            proof {
                runs = g@.0;
                bounds = g@.1;
            }
        }
        proof {
            lemma_sorting_done(s0, arena@, head, input, c, pending@, runs, bounds);
        }
        pending.pop()
    }

    /// Merges the two runs on top of the stack into one.
    fn merge_top<F: Fn(&ListHead, &ListHead) -> Ordering>(
        arena: &mut Arena,
        compare: &F,
        pending: &mut Vec<usize>,
        Ghost(s0): Ghost<Seq<ListHead>>,
        Ghost(head): Ghost<usize>,
        Ghost(input): Ghost<Seq<usize>>,
        Ghost(c): Ghost<int>,
        Ghost(runs): Ghost<Seq<Seq<usize>>>,
        Ghost(bounds): Ghost<Seq<int>>,
    ) -> (g: Ghost<(Seq<Seq<usize>>, Seq<int>)>)
        requires
            sorting(s0, old(arena)@, head, input, c, old(pending)@, runs, bounds),
            runs.len() >= 2,
            callable(*compare),
        ensures
            sorting(s0, final(arena)@, head, input, c, final(pending)@, g@.0, g@.1),
            g@.0.len() == runs.len() - 1,
            forall|le: spec_fn(i32, i32) -> bool| #[trigger]
                decides(*compare, le) && total_preorder(le) && runs_sorted(
                    by_payload(le, items(s0)),
                    input,
                    runs,
                ) ==> runs_sorted(by_payload(le, items(s0)), input, g@.0),
    {
        let ghost s = arena@;
        let ghost stack = pending@;
        proof {
            lemma_sorting_top(s0, s, head, input, c, stack, runs, bounds);
        }
        let a: usize = pending.pop().unwrap();
        let b: usize = pending.pop().unwrap();
        let top: usize = Self::merge_by(arena, compare, b, a);
        pending.push(top);
        let ghost run = list_of(arena@, top);
        let ghost runs2 = runs.subrange(0, runs.len() - 2).push(run);
        let ghost bounds2 = bounds.subrange(0, runs.len() - 1).push(c);
        proof {
            lemma_sorting_merged(s0, s, head, input, c, stack, runs, bounds, arena@, top);
            assert(pending@ =~= stack.subrange(0, runs.len() - 2).push(top));
            assert forall|le: spec_fn(i32, i32) -> bool| #[trigger]
                decides(*compare, le) && total_preorder(le) && runs_sorted(
                    by_payload(le, items(s0)),
                    input,
                    runs,
                ) implies runs_sorted(by_payload(le, items(s0)), input, runs2) by {
                lemma_runs_sorted_merged(le, s0, s, head, input, c, stack, runs, bounds, run);
            }
        }
        Ghost((runs2, bounds2))
    }
}

} // verus!
