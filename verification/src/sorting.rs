//! Merging and sorting as mathematics: what the merge of two sequences is,
//! what it means that a sequence is another one sorted, and why.

use vstd::prelude::*;
use vstd::relations::{sorted_by, strongly_connected, transitive};
use vstd::seq_lib::{lemma_multiset_commutative, to_multiset_contains, to_multiset_len};

verus! {

/// The order that `le`, a relation between payloads, gives to the nodes
/// whose payloads are `its`.
pub open spec fn by_payload(le: spec_fn(i32, i32) -> bool, its: Seq<i32>) -> spec_fn(
    usize,
    usize,
) -> bool {
    |x: usize, y: usize| le(its[x as int], its[y as int])
}

/// `le` is a total preorder: any two values are comparable, and it is
/// transitive. Values may be equal in it without being the same.
pub open spec fn total_preorder<T>(le: spec_fn(T, T) -> bool) -> bool {
    strongly_connected(le) && transitive(le)
}

/// The two-way merge of `a` and `b`: of the two first entries the one of
/// `a` goes first unless `le` fails to put it before or equal to the one of
/// `b`, and so on with what is left; when one sequence is used up, the rest
/// of the other follows.
pub open spec fn merged<T>(le: spec_fn(T, T) -> bool, a: Seq<T>, b: Seq<T>) -> Seq<T>
    decreases a.len() + b.len(),
{
    if a.len() == 0 {
        b
    } else if b.len() == 0 {
        a
    } else if le(a[0], b[0]) {
        seq![a[0]] + merged(le, a.skip(1), b)
    } else {
        seq![b[0]] + merged(le, a, b.skip(1))
    }
}

/// The order in which a stable sort by `r` puts the entries of `input`:
/// `x` before `y` where `r` puts `x` before `y`, and, where they are equal
/// in `r`, `x` stands before `y` in `input`.
pub open spec fn stable_order<T>(r: spec_fn(T, T) -> bool, input: Seq<T>) -> spec_fn(T, T) -> bool {
    |x: T, y: T| r(x, y) && (r(y, x) ==> input.index_of(x) < input.index_of(y))
}

/// `output` is `input` sorted by `r`, stably: it holds the entries of
/// `input`, each as often; of any two of its entries the earlier is before
/// or equal to the later in `r`; and entries equal in `r` are in the order
/// that they have in `input`.
pub open spec fn sorted_stably<T>(r: spec_fn(T, T) -> bool, input: Seq<T>, output: Seq<T>) -> bool {
    &&& output.to_multiset() == input.to_multiset()
    &&& sorted_by(output, stable_order(r, input))
}

/// `le`, by which the merge chooses, agrees with the order `r` on every
/// entry of `a` against every entry of `b`: where `le` holds the entry of
/// `a` is before that of `b` in `r`, and where it fails, behind.
pub open spec fn chooses_by<T>(
    le: spec_fn(T, T) -> bool,
    r: spec_fn(T, T) -> bool,
    a: Seq<T>,
    b: Seq<T>,
) -> bool {
    forall|i: int, j: int|
        0 <= i < a.len() && 0 <= j < b.len() ==> if #[trigger] le(a[i], b[j]) {
            r(a[i], b[j])
        } else {
            r(b[j], a[i])
        }
}

/// Every run is sorted as the stable sort of `input` by `r` orders.
pub(crate) open spec fn runs_sorted<T>(
    r: spec_fn(T, T) -> bool,
    input: Seq<T>,
    runs: Seq<Seq<T>>,
) -> bool {
    forall|k: int| 0 <= k < runs.len() ==> sorted_by(#[trigger] runs[k], stable_order(r, input))
}

/// A merge holds what the two sequences hold, each entry as often.
pub proof fn lemma_merged_multiset<T>(le: spec_fn(T, T) -> bool, a: Seq<T>, b: Seq<T>)
    ensures
        merged(le, a, b).to_multiset() == a.to_multiset().add(b.to_multiset()),
        merged(le, a, b).len() == a.len() + b.len(),
    decreases a.len() + b.len(),
{
    broadcast use vstd::multiset::group_multiset_axioms;

    if a.len() == 0 {
        lemma_multiset_commutative(a, b);
    } else if b.len() == 0 {
        lemma_multiset_commutative(a, b);
    } else if le(a[0], b[0]) {
        let rest = merged(le, a.skip(1), b);
        lemma_merged_multiset(le, a.skip(1), b);
        lemma_multiset_commutative(seq![a[0]], rest);
        lemma_multiset_commutative(seq![a[0]], a.skip(1));
        assert(seq![a[0]] + a.skip(1) =~= a);
    } else {
        let rest = merged(le, a, b.skip(1));
        lemma_merged_multiset(le, a, b.skip(1));
        lemma_multiset_commutative(seq![b[0]], rest);
        lemma_multiset_commutative(seq![b[0]], b.skip(1));
        assert(seq![b[0]] + b.skip(1) =~= b);
    }
}

/// Every entry of a merge is an entry of one of the two sequences.
pub(crate) proof fn lemma_merged_from<T>(le: spec_fn(T, T) -> bool, a: Seq<T>, b: Seq<T>, k: int)
    requires
        0 <= k < merged(le, a, b).len(),
    ensures
        a.contains(merged(le, a, b)[k]) || b.contains(merged(le, a, b)[k]),
    decreases a.len() + b.len(),
{
    if a.len() == 0 {
        assert(b[k] == merged(le, a, b)[k]);
    } else if b.len() == 0 {
        assert(a[k] == merged(le, a, b)[k]);
    } else if le(a[0], b[0]) {
        if k == 0 {
            assert(a[0] == merged(le, a, b)[k]);
        } else {
            let rest = merged(le, a.skip(1), b);
            lemma_merged_from(le, a.skip(1), b, k - 1);
            if a.skip(1).contains(rest[k - 1]) {
                let i = choose|i: int| 0 <= i < a.skip(1).len() && a.skip(1)[i] == rest[k - 1];
                assert(a[i + 1] == rest[k - 1]);
            }
        }
    } else {
        if k == 0 {
            assert(b[0] == merged(le, a, b)[k]);
        } else {
            let rest = merged(le, a, b.skip(1));
            lemma_merged_from(le, a, b.skip(1), k - 1);
            if b.skip(1).contains(rest[k - 1]) {
                let i = choose|i: int| 0 <= i < b.skip(1).len() && b.skip(1)[i] == rest[k - 1];
                assert(b[i + 1] == rest[k - 1]);
            }
        }
    }
}

/// Where the first entry of `a` goes first, the merge goes on with the rest
/// of `a`.
pub(crate) proof fn lemma_merged_takes_left<T>(
    le: spec_fn(T, T) -> bool,
    a: Seq<T>,
    b: Seq<T>,
    out: Seq<T>,
)
    requires
        a.len() > 0,
        b.len() > 0,
        le(a[0], b[0]),
    ensures
        out.push(a[0]) + merged(le, a.skip(1), b) == out + merged(le, a, b),
{
    assert(out.push(a[0]) + merged(le, a.skip(1), b) =~= out + (seq![a[0]] + merged(
        le,
        a.skip(1),
        b,
    )));
}

/// Where the first entry of `b` goes first, the merge goes on with the rest
/// of `b`.
pub(crate) proof fn lemma_merged_takes_right<T>(
    le: spec_fn(T, T) -> bool,
    a: Seq<T>,
    b: Seq<T>,
    out: Seq<T>,
)
    requires
        a.len() > 0,
        b.len() > 0,
        !le(a[0], b[0]),
    ensures
        out.push(b[0]) + merged(le, a, b.skip(1)) == out + merged(le, a, b),
{
    assert(out.push(b[0]) + merged(le, a, b.skip(1)) =~= out + (seq![b[0]] + merged(
        le,
        a,
        b.skip(1),
    )));
}

/// Moving the first entry of `r` to the back of `out` changes nothing in
/// what the two hold together.
pub(crate) proof fn lemma_front_to_back<T>(out: Seq<T>, r: Seq<T>)
    requires
        r.len() > 0,
    ensures
        out.push(r[0]).to_multiset().add(r.skip(1).to_multiset()) == out.to_multiset().add(
            r.to_multiset(),
        ),
{
    broadcast use vstd::multiset::group_multiset_axioms;

    vstd::seq_lib::to_multiset_build(out, r[0]);
    lemma_multiset_commutative(seq![r[0]], r.skip(1));
    assert(seq![r[0]] + r.skip(1) =~= r);
    vstd::seq_lib::to_multiset_build(Seq::<T>::empty(), r[0]);
    assert(Seq::<T>::empty().to_multiset() =~= vstd::multiset::Multiset::<T>::empty()) by {
        Seq::<T>::empty().to_multiset_ensures();
    }
    assert(out.push(r[0]).to_multiset().add(r.skip(1).to_multiset()) =~= out.to_multiset().add(
        r.to_multiset(),
    ));
}

/// The merge of two sequences sorted by a transitive order `r` is sorted
/// by `r`, if only the merge chooses in agreement with `r`.
pub proof fn lemma_merged_sorted<T>(
    le: spec_fn(T, T) -> bool,
    r: spec_fn(T, T) -> bool,
    a: Seq<T>,
    b: Seq<T>,
)
    requires
        sorted_by(a, r),
        sorted_by(b, r),
        transitive(r),
        chooses_by(le, r, a, b),
    ensures
        sorted_by(merged(le, a, b), r),
    decreases a.len() + b.len(),
{
    let m = merged(le, a, b);
    if a.len() == 0 || b.len() == 0 {
    } else if le(a[0], b[0]) {
        let a1 = a.skip(1);
        let rest = merged(le, a1, b);
        assert forall|i: int, j: int| 0 <= i < a1.len() && 0 <= j < b.len() implies if #[trigger]
        le(a1[i], b[j]) {
            r(a1[i], b[j])
        } else {
            r(b[j], a1[i])
        } by {
            assert(a1[i] == a[i + 1]);
            assert(le(a[i + 1], b[j]) == le(a1[i], b[j]));
        }
        assert forall|i: int, j: int| 0 <= i < j < a1.len() implies #[trigger] r(a1[i], a1[j]) by {
            assert(r(a[i + 1], a[j + 1]));
        }
        lemma_merged_sorted(le, r, a1, b);
        assert forall|i: int, j: int| 0 <= i < j < m.len() implies #[trigger] r(m[i], m[j]) by {
            if i == 0 {
                let y = rest[j - 1];
                assert(m[j] == y);
                lemma_merged_from(le, a1, b, j - 1);
                if a1.contains(y) {
                    let k = choose|k: int| 0 <= k < a1.len() && a1[k] == y;
                    assert(r(a[0], a[k + 1]));
                } else {
                    let k = choose|k: int| 0 <= k < b.len() && b[k] == y;
                    assert(r(a[0], b[0]));
                    if k > 0 {
                        assert(r(b[0], b[k]));
                    }
                }
            } else {
                assert(r(rest[i - 1], rest[j - 1]));
            }
        }
    } else {
        let b1 = b.skip(1);
        let rest = merged(le, a, b1);
        assert forall|i: int, j: int| 0 <= i < a.len() && 0 <= j < b1.len() implies if #[trigger]
        le(a[i], b1[j]) {
            r(a[i], b1[j])
        } else {
            r(b1[j], a[i])
        } by {
            assert(b1[j] == b[j + 1]);
            assert(le(a[i], b[j + 1]) == le(a[i], b1[j]));
        }
        assert forall|i: int, j: int| 0 <= i < j < b1.len() implies #[trigger] r(b1[i], b1[j]) by {
            assert(r(b[i + 1], b[j + 1]));
        }
        lemma_merged_sorted(le, r, a, b1);
        assert forall|i: int, j: int| 0 <= i < j < m.len() implies #[trigger] r(m[i], m[j]) by {
            if i == 0 {
                let y = rest[j - 1];
                assert(m[j] == y);
                lemma_merged_from(le, a, b1, j - 1);
                if b1.contains(y) {
                    let k = choose|k: int| 0 <= k < b1.len() && b1[k] == y;
                    assert(r(b[0], b[k + 1]));
                } else {
                    let k = choose|k: int| 0 <= k < a.len() && a[k] == y;
                    assert(!le(a[0], b[0]));
                    assert(r(b[0], a[0]));
                    if k > 0 {
                        assert(r(a[0], a[k]));
                    }
                }
            } else {
                assert(r(rest[i - 1], rest[j - 1]));
            }
        }
    }
}

/// The merge of two sequences that are sorted by a total preorder is sorted
/// by it.
pub proof fn lemma_merged_sorted_total<T>(r: spec_fn(T, T) -> bool, a: Seq<T>, b: Seq<T>)
    requires
        total_preorder(r),
        sorted_by(a, r),
        sorted_by(b, r),
    ensures
        sorted_by(merged(r, a, b), r),
{
    assert(chooses_by(r, r, a, b));
    lemma_merged_sorted(r, r, a, b);
}

/// Two relations that agree on every entry of `a` against every entry of
/// `b` give one merge.
pub(crate) proof fn lemma_merged_agree<T>(
    le: spec_fn(T, T) -> bool,
    le2: spec_fn(T, T) -> bool,
    a: Seq<T>,
    b: Seq<T>,
)
    requires
        forall|i: int, j: int|
            0 <= i < a.len() && 0 <= j < b.len() ==> le(a[i], b[j]) == le2(a[i], b[j]),
    ensures
        merged(le, a, b) == merged(le2, a, b),
    decreases a.len() + b.len(),
{
    if a.len() == 0 || b.len() == 0 {
    } else if le(a[0], b[0]) {
        let a1 = a.skip(1);
        assert forall|i: int, j: int| 0 <= i < a1.len() && 0 <= j < b.len() implies le(a1[i], b[j])
            == le2(a1[i], b[j]) by {
            assert(a1[i] == a[i + 1]);
        }
        lemma_merged_agree(le, le2, a1, b);
    } else {
        let b1 = b.skip(1);
        assert forall|i: int, j: int| 0 <= i < a.len() && 0 <= j < b1.len() implies le(a[i], b1[j])
            == le2(a[i], b1[j]) by {
            assert(b1[j] == b[j + 1]);
        }
        lemma_merged_agree(le, le2, a, b1);
    }
}

/// The order of a stable sort by a transitive relation is transitive.
pub proof fn lemma_stable_order_transitive<T>(r: spec_fn(T, T) -> bool, input: Seq<T>)
    requires
        transitive(r),
    ensures
        transitive(stable_order(r, input)),
{
}

/// A run that holds what the places `lo` to `hi` of `input` hold has its
/// entries from those places, and as many.
pub(crate) proof fn lemma_run_places<T>(input: Seq<T>, run: Seq<T>, lo: int, hi: int)
    requires
        input.no_duplicates(),
        0 <= lo <= hi <= input.len(),
        run.to_multiset() == input.subrange(lo, hi).to_multiset(),
    ensures
        run.len() == hi - lo,
        forall|q: int|
            0 <= q < run.len() ==> {
                &&& lo <= input.index_of(#[trigger] run[q]) < hi
                &&& input[input.index_of(run[q])] == run[q]
            },
{
    let seg = input.subrange(lo, hi);
    to_multiset_len(run);
    to_multiset_len(seg);
    assert forall|q: int| 0 <= q < run.len() implies lo <= input.index_of(#[trigger] run[q]) < hi
        && input[input.index_of(run[q])] == run[q] by {
        let x = run[q];
        to_multiset_contains(run, x);
        to_multiset_contains(seg, x);
    }
}

/// Of two runs that hold neighbouring stretches of `input`, the merge by a
/// total preorder `r` chooses as the stable sort by `r` orders.
pub(crate) proof fn lemma_runs_choose<T>(
    r: spec_fn(T, T) -> bool,
    input: Seq<T>,
    a: Seq<T>,
    b: Seq<T>,
    lo: int,
    mid: int,
    hi: int,
)
    requires
        total_preorder(r),
        input.no_duplicates(),
        0 <= lo <= mid <= hi <= input.len(),
        a.to_multiset() == input.subrange(lo, mid).to_multiset(),
        b.to_multiset() == input.subrange(mid, hi).to_multiset(),
    ensures
        chooses_by(r, stable_order(r, input), a, b),
{
    lemma_run_places(input, a, lo, mid);
    lemma_run_places(input, b, mid, hi);
}

/// The merge of two stably sorted runs that hold neighbouring stretches of
/// `input` is stably sorted, and holds the two stretches together.
pub(crate) proof fn lemma_merged_runs<T>(
    r: spec_fn(T, T) -> bool,
    input: Seq<T>,
    a: Seq<T>,
    b: Seq<T>,
    lo: int,
    mid: int,
    hi: int,
)
    requires
        total_preorder(r),
        input.no_duplicates(),
        0 <= lo <= mid <= hi <= input.len(),
        a.to_multiset() == input.subrange(lo, mid).to_multiset(),
        b.to_multiset() == input.subrange(mid, hi).to_multiset(),
        sorted_by(a, stable_order(r, input)),
        sorted_by(b, stable_order(r, input)),
    ensures
        sorted_by(merged(r, a, b), stable_order(r, input)),
{
    lemma_runs_choose(r, input, a, b, lo, mid, hi);
    lemma_stable_order_transitive(r, input);
    lemma_merged_sorted(r, stable_order(r, input), a, b);
}

/// Sorted runs stay sorted when a run of one entry joins them.
pub(crate) proof fn lemma_runs_sorted_taken<T>(
    r: spec_fn(T, T) -> bool,
    input: Seq<T>,
    runs: Seq<Seq<T>>,
    x: T,
)
    requires
        runs_sorted(r, input, runs),
    ensures
        runs_sorted(r, input, runs.push(seq![x])),
{
}

/// A total preorder of payloads is a total preorder of the nodes that
/// hold them.
pub proof fn lemma_by_payload_total(le: spec_fn(i32, i32) -> bool, its: Seq<i32>)
    requires
        total_preorder(le),
    ensures
        total_preorder(by_payload(le, its)),
{
}

/// Two neighbouring stretches of a sequence hold together what the stretch
/// over both holds.
pub(crate) proof fn lemma_stretches_join<T>(input: Seq<T>, lo: int, mid: int, hi: int)
    requires
        0 <= lo <= mid <= hi <= input.len(),
    ensures
        input.subrange(lo, mid).to_multiset().add(input.subrange(mid, hi).to_multiset())
            == input.subrange(lo, hi).to_multiset(),
{
    lemma_multiset_commutative(input.subrange(lo, mid), input.subrange(mid, hi));
    assert(input.subrange(lo, mid) + input.subrange(mid, hi) =~= input.subrange(lo, hi));
}

} // verus!
