//! Comparators: what a caller hands to `merge` and `list_sort`, and how
//! contracts speak of the order that a comparator decides.

use crate::links::ListHead;
use std::cmp::Ordering;
use vstd::prelude::*;

verus! {

/// Compares two nodes by payload, ascending.
pub fn cmp_func(n1: &ListHead, n2: &ListHead) -> (o: Ordering)
    ensures
        n1.item < n2.item ==> o == Ordering::Less,
        n1.item > n2.item ==> o == Ordering::Greater,
        n1.item == n2.item ==> o == Ordering::Equal,
{
    if n1.item < n2.item {
        Ordering::Less
    } else if n1.item > n2.item {
        Ordering::Greater
    } else {
        Ordering::Equal
    }
}

/// The comparator `f` may be called on every pair of nodes.
pub open spec fn callable<F: Fn(&ListHead, &ListHead) -> Ordering>(f: F) -> bool {
    forall|a: ListHead, b: ListHead| #[trigger] call_requires(f, (&a, &b))
}

/// The comparator `f` decides the relation `le` on payloads: whatever it
/// returns for two nodes, it returns `Greater` exactly when the payload of
/// the first is not `le` that of the second. What else the nodes hold has
/// no part in it.
pub open spec fn decides<F: Fn(&ListHead, &ListHead) -> Ordering>(
    f: F,
    le: spec_fn(i32, i32) -> bool,
) -> bool {
    forall|a: ListHead, b: ListHead, o: Ordering| #[trigger]
        call_ensures(f, (&a, &b), o) ==> (o != Ordering::Greater <==> le(a.item, b.item))
}

/// The order of the integers, ascending.
pub open spec fn ascending() -> spec_fn(i32, i32) -> bool {
    |x: i32, y: i32| x <= y
}

/// `cmp_func` may be called on every pair of nodes, and it decides the
/// ascending order of their payloads.
pub proof fn lemma_cmp_func_ascending()
    ensures
        callable(cmp_func),
        decides(cmp_func, ascending()),
{
}

/// Calls the comparator and tells whether it put the first node before the
/// second or found them equal.
pub(crate) fn not_greater<F: Fn(&ListHead, &ListHead) -> Ordering>(
    compare: &F,
    x: &ListHead,
    y: &ListHead,
) -> (r: bool)
    requires
        callable(*compare),
    ensures
        forall|le: spec_fn(i32, i32) -> bool| #[trigger]
            decides(*compare, le) ==> r == le(x.item, y.item),
{
    match compare(x, y) {
        Ordering::Greater => false,
        _ => true,
    }
}

} // verus!
