//! The state of a sort under way: the input list as far as it is not yet
//! taken, and the pending runs, each a list of its own.

use crate::effects::lemma_list_removed;
use crate::links::{
    inserted, isolated, items, lemma_inserted, lemma_removed, lemma_with_new, linked, next_of,
    removed, wf, with_new, ListHead,
};
use crate::merge::merge_frame;
use crate::ring::{
    adjacent, at, is_list, lemma_empty, lemma_list_exists, lemma_list_frame, lemma_list_len,
    lemma_list_members, lemma_list_unique, list_of, outside, same_items, same_links, same_node,
    same_ring,
};
use crate::sort::sort_frame;
use crate::sorting::{
    by_payload, lemma_by_payload_total, lemma_merged_agree, lemma_merged_runs, lemma_run_places,
    lemma_stretches_join, merged, runs_sorted, total_preorder,
};
use vstd::prelude::*;

verus! {

/// The pending run `k`: its sentinel is a node that `s0` did not have, and
/// its list holds what the places `bounds[k]` to `bounds[k + 1]` of the
/// input hold.
pub(crate) open spec fn run_at(
    s0: Seq<ListHead>,
    s: Seq<ListHead>,
    input: Seq<usize>,
    pending: Seq<usize>,
    runs: Seq<Seq<usize>>,
    bounds: Seq<int>,
    k: int,
) -> bool {
    &&& s0.len() <= pending[k] < s.len()
    &&& is_list(s, pending[k], runs[k])
    &&& runs[k].to_multiset() == input.subrange(bounds[k], bounds[k + 1]).to_multiset()
}

/// A list is being sorted. `s0` is the store before, where `head` had the
/// list `input`; `s` is the store now. The first `c` members of `input`
/// have gone to the pending runs, whose sentinels are `pending` and whose
/// lists are `runs`, in the order of the input: run `k` holds what the
/// places `bounds[k]` to `bounds[k + 1]` of the input held. The other
/// members are where they were.
pub(crate) open spec fn sorting(
    s0: Seq<ListHead>,
    s: Seq<ListHead>,
    head: usize,
    input: Seq<usize>,
    c: int,
    pending: Seq<usize>,
    runs: Seq<Seq<usize>>,
    bounds: Seq<int>,
) -> bool {
    &&& wf(s0)
    &&& wf(s)
    &&& same_items(s0, s)
    &&& s.len() == s0.len() + 2 * c - runs.len()
    &&& is_list(s0, head, input)
    &&& 0 <= c <= input.len()
    &&& is_list(s, head, input.skip(c))
    &&& pending.len() == runs.len()
    &&& bounds.len() == runs.len() + 1
    &&& bounds[0] == 0
    &&& bounds.last() == c
    &&& forall|k1: int, k2: int| 0 <= k1 < k2 < bounds.len() ==> bounds[k1] < bounds[k2]
    &&& forall|k: int|
        0 <= k < runs.len() ==> #[trigger] run_at(s0, s, input, pending, runs, bounds, k)
    &&& forall|k1: int, k2: int| 0 <= k1 < k2 < pending.len() ==> pending[k1] != pending[k2]
    &&& forall|n: usize| n < s0.len() && outside(head, input, n) ==> same_node(s0, s, n)
    &&& forall|n: usize| s0.len() <= n < s.len() ==> isolated(s, n) || pending.contains(n)
}

/// Sorting starts with nothing taken and no run.
pub(crate) proof fn lemma_sorting_start(s0: Seq<ListHead>, head: usize)
    requires
        wf(s0),
        linked(s0, head),
    ensures
        sorting(
            s0,
            s0,
            head,
            list_of(s0, head),
            0,
            Seq::empty(),
            Seq::empty(),
            seq![0int],
        ),
{
    lemma_list_exists(s0, head);
    assert(list_of(s0, head).skip(0) =~= list_of(s0, head));
}

/// The members of run `k` are nodes of `s0`, members of the input at the
/// places of the run, and the run has as many as it has places.
pub(crate) proof fn lemma_run_members(
    s0: Seq<ListHead>,
    s: Seq<ListHead>,
    head: usize,
    input: Seq<usize>,
    c: int,
    pending: Seq<usize>,
    runs: Seq<Seq<usize>>,
    bounds: Seq<int>,
    k: int,
)
    requires
        sorting(s0, s, head, input, c, pending, runs, bounds),
        0 <= k < runs.len(),
    ensures
        0 <= bounds[k] < bounds[k + 1] <= c,
        runs[k].len() == bounds[k + 1] - bounds[k],
        is_list(s, pending[k], runs[k]),
        list_of(s, pending[k]) == runs[k],
        linked(s, pending[k]),
        s0.len() <= pending[k] < s.len(),
        forall|q: int|
            0 <= q < runs[k].len() ==> {
                &&& (#[trigger] runs[k][q]) < s0.len()
                &&& bounds[k] <= input.index_of(runs[k][q]) < bounds[k + 1]
                &&& input[input.index_of(runs[k][q])] == runs[k][q]
                &&& runs[k][q] != head
            },
{
    assert(run_at(s0, s, input, pending, runs, bounds, k));
    lemma_run_places(input, runs[k], bounds[k], bounds[k + 1]);
    lemma_list_unique(s, pending[k], runs[k]);
    lemma_list_members(s, pending[k], runs[k]);
    assert(linked(s, at(pending[k], runs[k], -1)));
}

/// A node that is outside the ring of run `k`: any node of `s0` that is
/// not a member of the input at the places of that run, and any other
/// sentinel.
pub(crate) proof fn lemma_outside_run(
    s0: Seq<ListHead>,
    s: Seq<ListHead>,
    head: usize,
    input: Seq<usize>,
    c: int,
    pending: Seq<usize>,
    runs: Seq<Seq<usize>>,
    bounds: Seq<int>,
    k: int,
    n: usize,
)
    requires
        sorting(s0, s, head, input, c, pending, runs, bounds),
        0 <= k < runs.len(),
        n != pending[k],
        n >= s0.len() || !input.contains(n) || !(bounds[k] <= input.index_of(n) < bounds[k + 1]),
    ensures
        outside(pending[k], runs[k], n),
{
    lemma_run_members(s0, s, head, input, c, pending, runs, bounds, k);
    if runs[k].contains(n) {
        let q = choose|q: int| 0 <= q < runs[k].len() && runs[k][q] == n;
        assert(runs[k][q] < s0.len());
        assert(input[input.index_of(runs[k][q])] == n);
    }
}

/// The two runs on top are lists of linked sentinels in different rings,
/// so they can be merged.
pub(crate) proof fn lemma_sorting_top(
    s0: Seq<ListHead>,
    s: Seq<ListHead>,
    head: usize,
    input: Seq<usize>,
    c: int,
    pending: Seq<usize>,
    runs: Seq<Seq<usize>>,
    bounds: Seq<int>,
)
    requires
        sorting(s0, s, head, input, c, pending, runs, bounds),
        runs.len() >= 2,
    ensures
        ({
            let m = runs.len() as int;
            &&& linked(s, pending[m - 2])
            &&& linked(s, pending[m - 1])
            &&& !same_ring(s, pending[m - 2], pending[m - 1])
            &&& list_of(s, pending[m - 2]) == runs[m - 2]
            &&& list_of(s, pending[m - 1]) == runs[m - 1]
        }),
{
    let m = runs.len() as int;
    lemma_run_members(s0, s, head, input, c, pending, runs, bounds, m - 2);
    lemma_run_members(s0, s, head, input, c, pending, runs, bounds, m - 1);
    lemma_outside_run(s0, s, head, input, c, pending, runs, bounds, m - 2, pending[m - 1]);
}

/// Sorting goes on when the two runs on top are merged into one: `t` is
/// the store after, `h` the sentinel of the new run.
pub(crate) proof fn lemma_sorting_merged(
    s0: Seq<ListHead>,
    s: Seq<ListHead>,
    head: usize,
    input: Seq<usize>,
    c: int,
    pending: Seq<usize>,
    runs: Seq<Seq<usize>>,
    bounds: Seq<int>,
    t: Seq<ListHead>,
    h: usize,
)
    requires
        sorting(s0, s, head, input, c, pending, runs, bounds),
        runs.len() >= 2,
        merge_frame(s, t, pending[runs.len() - 2], pending[runs.len() - 1], h),
    ensures
        sorting(
            s0,
            t,
            head,
            input,
            c,
            pending.subrange(0, runs.len() - 2).push(h),
            runs.subrange(0, runs.len() - 2).push(list_of(t, h)),
            bounds.subrange(0, runs.len() - 1).push(c),
        ),
{
    let m = runs.len() as int;
    let b = pending[m - 2];
    let a = pending[m - 1];
    let merged_run = list_of(t, h);
    let pending2 = pending.subrange(0, m - 2).push(h);
    let runs2 = runs.subrange(0, m - 2).push(merged_run);
    let bounds2 = bounds.subrange(0, m - 1).push(c);
    let rest = input.skip(c);
    lemma_sorting_top(s0, s, head, input, c, pending, runs, bounds);
    lemma_run_members(s0, s, head, input, c, pending, runs, bounds, m - 2);
    lemma_run_members(s0, s, head, input, c, pending, runs, bounds, m - 1);
    assert(run_at(s0, s, input, pending, runs, bounds, m - 2));
    assert(run_at(s0, s, input, pending, runs, bounds, m - 1));
    assert(bounds[m] == c);
    // The rest of the input is where it was.
    assert forall|n: usize| n < s0.len() && (!input.contains(n) || input.index_of(n) >= c)
        implies same_node(s, t, n) by {
        lemma_outside_run(s0, s, head, input, c, pending, runs, bounds, m - 2, n);
        lemma_outside_run(s0, s, head, input, c, pending, runs, bounds, m - 1, n);
    }
    assert forall|q: int| 0 <= q < rest.len() implies same_links(s, t, #[trigger] rest[q]) by {
        let n = rest[q];
        assert(n == input[c + q]);
        assert(input.contains(n));
        let p = input.index_of(n);
        assert(input[p] == n);
        assert(p == c + q);
        assert(same_node(s, t, n));
    }
    assert(same_links(s, t, head)) by {
        if input.contains(head) {
            let p = choose|p: int| 0 <= p < input.len() && input[p] == head;
        }
        assert(same_node(s, t, head));
    }
    lemma_list_frame(s, t, head, rest);
    // The runs below are where they were.
    assert forall|k: int| 0 <= k < runs2.len() implies #[trigger] run_at(
        s0,
        t,
        input,
        pending2,
        runs2,
        bounds2,
        k,
    ) by {
        if k < m - 2 {
            assert(run_at(s0, s, input, pending, runs, bounds, k));
            lemma_run_members(s0, s, head, input, c, pending, runs, bounds, k);
            assert(bounds[k + 1] <= bounds[m - 2]) by {
                if k + 1 < m - 2 {
                    assert(bounds[k + 1] < bounds[m - 2]);
                }
            }
            assert(bounds[m - 2] < bounds[m - 1]);
            lemma_outside_run(s0, s, head, input, c, pending, runs, bounds, m - 2, pending[k]);
            lemma_outside_run(s0, s, head, input, c, pending, runs, bounds, m - 1, pending[k]);
            assert(same_node(s, t, pending[k]));
            assert forall|q: int| 0 <= q < runs[k].len() implies same_links(
                s,
                t,
                #[trigger] runs[k][q],
            ) by {
                let n = runs[k][q];
                lemma_outside_run(s0, s, head, input, c, pending, runs, bounds, m - 2, n);
                lemma_outside_run(s0, s, head, input, c, pending, runs, bounds, m - 1, n);
                assert(same_node(s, t, n));
            }
            lemma_list_frame(s, t, pending[k], runs[k]);
            assert(pending2[k] == pending[k] && runs2[k] == runs[k]);
            assert(bounds2[k] == bounds[k] && bounds2[k + 1] == bounds[k + 1]);
        } else {
            assert(pending2[k] == h && runs2[k] == merged_run);
            assert(bounds2[k] == bounds[m - 2] && bounds2[k + 1] == c);
            lemma_stretches_join(input, bounds[m - 2], bounds[m - 1], c);
        }
    }
    assert forall|k1: int, k2: int| 0 <= k1 < k2 < bounds2.len() implies bounds2[k1]
        < bounds2[k2] by {
        assert(bounds2[k1] == bounds[k1]);
        if k2 < m - 1 {
            assert(bounds2[k2] == bounds[k2]);
        } else {
            assert(bounds[k1] < bounds[m]);
        }
    }
    assert forall|k1: int, k2: int| 0 <= k1 < k2 < pending2.len() implies pending2[k1]
        != pending2[k2] by {
        assert(pending2[k1] == pending[k1]);
        assert(run_at(s0, s, input, pending, runs, bounds, k1));
        if k2 < m - 2 {
            assert(pending2[k2] == pending[k2]);
        }
    }
    assert forall|n: usize| n < s0.len() && outside(head, input, n) implies same_node(s0, t, n) by {
        assert(same_node(s0, s, n));
        assert(same_node(s, t, n));
    }
    assert forall|n: usize| s0.len() <= n < t.len() implies isolated(t, n) || pending2.contains(
        n,
    ) by {
        if n == h {
            assert(pending2[m - 2] == h);
        } else if n == a || n == b {
        } else {
            lemma_outside_run(s0, s, head, input, c, pending, runs, bounds, m - 2, n);
            lemma_outside_run(s0, s, head, input, c, pending, runs, bounds, m - 1, n);
            assert(same_node(s, t, n));
            if pending.contains(n) {
                let k = choose|k: int| 0 <= k < pending.len() && pending[k] == n;
                assert(pending2[k] == n);
            }
        }
    }
    assert(bounds2[0] == bounds[0]);
}

/// Sorting goes on when the member of the input that is due leaves the
/// input list and becomes a run of its own at a new sentinel.
pub(crate) proof fn lemma_sorting_taken(
    s0: Seq<ListHead>,
    s: Seq<ListHead>,
    head: usize,
    input: Seq<usize>,
    c: int,
    pending: Seq<usize>,
    runs: Seq<Seq<usize>>,
    bounds: Seq<int>,
    p: usize,
    item: i32,
)
    requires
        sorting(s0, s, head, input, c, pending, runs, bounds),
        c < input.len(),
        p == s.len(),
        s.len() < usize::MAX,
    ensures
        next_of(s, head) == input[c],
        linked(s, input[c]),
        sorting(
            s0,
            inserted(with_new(removed(s, input[c]), item), input[c], p, p),
            head,
            input,
            c + 1,
            pending.push(p),
            runs.push(seq![input[c]]),
            bounds.push(c + 1),
        ),
{
    let x = input[c];
    let rest = input.skip(c);
    let s1 = removed(s, x);
    let s2 = with_new(s1, item);
    let s3 = inserted(s2, x, p, p);
    let pending2 = pending.push(p);
    let runs2 = runs.push(seq![x]);
    let bounds2 = bounds.push(c + 1);
    assert(rest[0] == x);
    assert(adjacent(s, head, rest, -1));
    assert(adjacent(s, head, rest, 0));
    lemma_list_members(s, head, rest);
    assert(linked(s, at(head, rest, 0)));
    lemma_removed(s, x);
    lemma_with_new(s1, item);
    lemma_inserted(s2, x, p, p);
    // The input list loses its front.
    lemma_list_removed(s, head, rest, 0);
    assert(rest.remove(0) =~= input.skip(c + 1));
    let rest1 = input.skip(c + 1);
    assert forall|q: int| 0 <= q < rest1.len() implies same_links(s1, s3, #[trigger] rest1[q]) by {
        assert(rest1[q] == input[c + 1 + q]);
        assert(rest1[q] < s0.len());
    }
    lemma_list_frame(s1, s3, head, rest1);
    // The runs are where they were.
    let nx = next_of(s, x);
    assert(nx == at(head, rest, 1));
    assert forall|k: int| 0 <= k < runs2.len() implies #[trigger] run_at(
        s0,
        s3,
        input,
        pending2,
        runs2,
        bounds2,
        k,
    ) by {
        if k < runs.len() {
            assert(run_at(s0, s, input, pending, runs, bounds, k));
            lemma_run_members(s0, s, head, input, c, pending, runs, bounds, k);
            assert forall|q: int| 0 <= q < runs[k].len() implies same_links(
                s,
                s3,
                #[trigger] runs[k][q],
            ) by {
                let n = runs[k][q];
                let i = input.index_of(n);
                assert(input[i] == n && i < c);
                assert(n != x);
                if rest.len() > 1 {
                    assert(rest[1] == input[c + 1]);
                    assert(n != nx);
                }
            }
            lemma_list_frame(s, s3, pending[k], runs[k]);
            assert(pending2[k] == pending[k] && runs2[k] == runs[k]);
            assert(bounds2[k] == bounds[k] && bounds2[k + 1] == bounds[k + 1]);
        } else {
            let one = seq![x];
            assert(pending2[k] == p && runs2[k] == one);
            assert(bounds2[k] == c && bounds2[k + 1] == c + 1);
            assert forall|q: int| -1 <= q < one.len() implies #[trigger] adjacent(
                s3,
                p,
                one,
                q,
            ) by {
                assert(at(p, one, 0) == x);
            }
            assert(input.subrange(c, c + 1) =~= one);
        }
    }
    assert forall|k1: int, k2: int| 0 <= k1 < k2 < bounds2.len() implies bounds2[k1]
        < bounds2[k2] by {
        if k2 < bounds.len() {
        } else {
            if k1 < bounds.len() - 1 {
                assert(bounds[k1] < bounds[bounds.len() - 1]);
            }
        }
    }
    assert forall|k1: int, k2: int| 0 <= k1 < k2 < pending2.len() implies pending2[k1]
        != pending2[k2] by {
        assert(run_at(s0, s, input, pending, runs, bounds, k1));
    }
    assert forall|n: usize| n < s0.len() && outside(head, input, n) implies same_node(
        s0,
        s3,
        n,
    ) by {
        assert(same_node(s0, s, n));
        assert(input.contains(x));
        if rest.len() > 1 {
            assert(rest[1] == input[c + 1]);
            assert(input.contains(input[c + 1]));
        }
    }
    assert forall|n: usize| s0.len() <= n < s3.len() implies isolated(s3, n) || pending2.contains(
        n,
    ) by {
        if n == p {
            assert(pending2[pending.len() as int] == p);
        } else {
            if rest.len() > 1 {
                assert(rest[1] == input[c + 1]);
            }
            assert(same_node(s, s3, n));
            if pending.contains(n) {
                let k = choose|k: int| 0 <= k < pending.len() && pending[k] == n;
                assert(pending2[k] == n);
            }
        }
    }
    assert(bounds2[0] == bounds[0]);
}

/// Sorting is done when the input is used up and one run is left: its
/// sentinel is the result.
pub(crate) proof fn lemma_sorting_done(
    s0: Seq<ListHead>,
    s: Seq<ListHead>,
    head: usize,
    input: Seq<usize>,
    c: int,
    pending: Seq<usize>,
    runs: Seq<Seq<usize>>,
    bounds: Seq<int>,
)
    requires
        sorting(s0, s, head, input, c, pending, runs, bounds),
        c == input.len(),
        runs.len() == 1,
    ensures
        sort_frame(s0, s, head, Some(pending[0])),
        list_of(s0, head) == input,
        list_of(s, pending[0]) == runs[0],
{
    lemma_list_unique(s0, head, input);
    lemma_run_members(s0, s, head, input, c, pending, runs, bounds, 0);
    assert(run_at(s0, s, input, pending, runs, bounds, 0));
    assert(bounds[1] == c);
    assert(input.subrange(0, c) =~= input);
    let rest = input.skip(c);
    assert(adjacent(s, head, rest, -1));
    assert(adjacent(s, head, rest, rest.len() - 1));
    assert forall|n: usize| s0.len() <= n < s.len() && n != pending[0] implies isolated(s, n) by {
        if pending.contains(n) {
            let k = choose|k: int| 0 <= k < pending.len() && pending[k] == n;
            assert(k == 0);
        }
    }
}

/// The input list is empty exactly when everything is taken; else its
/// front is the member that is due, and it is linked.
pub(crate) proof fn lemma_sorting_front(
    s0: Seq<ListHead>,
    s: Seq<ListHead>,
    head: usize,
    input: Seq<usize>,
    c: int,
    pending: Seq<usize>,
    runs: Seq<Seq<usize>>,
    bounds: Seq<int>,
)
    requires
        sorting(s0, s, head, input, c, pending, runs, bounds),
    ensures
        head < s.len(),
        input.len() < s0.len(),
        list_of(s0, head) == input,
        next_of(s, head) == head <==> c == input.len(),
        c < input.len() ==> next_of(s, head) == input[c] && linked(s, input[c]),
{
    let rest = input.skip(c);
    lemma_list_len(s0, head, input);
    lemma_list_unique(s0, head, input);
    assert(adjacent(s, head, rest, -1));
    lemma_list_members(s, head, rest);
}

/// Where the runs were stably sorted by the order that `le` gives the
/// nodes, they are so after the two on top were merged by that order, as
/// the payloads stand in `s`.
pub(crate) proof fn lemma_runs_sorted_merged(
    le: spec_fn(i32, i32) -> bool,
    s0: Seq<ListHead>,
    s: Seq<ListHead>,
    head: usize,
    input: Seq<usize>,
    c: int,
    pending: Seq<usize>,
    runs: Seq<Seq<usize>>,
    bounds: Seq<int>,
    top: Seq<usize>,
)
    requires
        sorting(s0, s, head, input, c, pending, runs, bounds),
        runs.len() >= 2,
        total_preorder(le),
        runs_sorted(by_payload(le, items(s0)), input, runs),
        top == merged(by_payload(le, items(s)), runs[runs.len() - 2], runs[runs.len() - 1]),
    ensures
        runs_sorted(by_payload(le, items(s0)), input, runs.subrange(0, runs.len() - 2).push(top)),
{
    let m = runs.len() as int;
    let r = by_payload(le, items(s0));
    let rs = by_payload(le, items(s));
    let a = runs[m - 2];
    let b = runs[m - 1];
    lemma_run_members(s0, s, head, input, c, pending, runs, bounds, m - 2);
    lemma_run_members(s0, s, head, input, c, pending, runs, bounds, m - 1);
    assert(run_at(s0, s, input, pending, runs, bounds, m - 2));
    assert(run_at(s0, s, input, pending, runs, bounds, m - 1));
    lemma_merged_agree(rs, r, a, b);
    lemma_by_payload_total(le, items(s0));
    lemma_merged_runs(r, input, a, b, bounds[m - 2], bounds[m - 1], bounds[m]);
}

/// The number of one-bits of `c`.
pub(crate) open spec fn ones(c: int) -> nat
    decreases c,
{
    if c <= 0 {
        0
    } else {
        (c % 2) as nat + ones(c / 2)
    }
}

/// `c` without its trailing one-bits.
pub(crate) open spec fn stripped(c: int) -> int
    decreases c,
{
    if c > 0 && c % 2 == 1 {
        stripped(c / 2)
    } else {
        c
    }
}

/// Counting one up turns the trailing one-bits to zero and the zero above
/// them to one: as many carries as there are trailing one-bits.
pub(crate) proof fn lemma_ones_next(c: int)
    requires
        0 <= c,
    ensures
        ones(c + 1) == ones(stripped(c)) + 1,
        c > 0 ==> ones(c) >= 1,
    decreases c,
{
    if c > 0 {
        lemma_ones_next(c / 2);
        if c % 2 == 1 {
            assert((c + 1) / 2 == c / 2 + 1);
        } else {
            assert((c + 1) / 2 == c / 2);
        }
    }
}

/// Sorting an empty list is done with a new, isolated sentinel.
pub(crate) proof fn lemma_sorting_none(s0: Seq<ListHead>, head: usize, h: usize, item: i32)
    requires
        wf(s0),
        linked(s0, head),
        list_of(s0, head).len() == 0,
        h == s0.len(),
        s0.len() < usize::MAX,
    ensures
        sort_frame(s0, with_new(s0, item), head, Some(h)),
        list_of(with_new(s0, item), h) == Seq::<usize>::empty(),
{
    let t = with_new(s0, item);
    lemma_with_new(s0, item);
    lemma_list_exists(s0, head);
    assert(adjacent(s0, head, list_of(s0, head), -1));
    lemma_empty(t, h);
    lemma_list_unique(t, h, Seq::<usize>::empty());
}

} // verus!
