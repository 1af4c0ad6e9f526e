//! The mathematical model of a node store: a sequence of nodes whose links
//! are positions in that same sequence, the predicates that say when such a
//! store is consistent, and the store that each linkage operation produces.

use vstd::prelude::*;

verus! {

/// A link-bearing node: the positions of its two neighbours and a payload.
///
/// A node that serves as the sentinel of a list has the same shape; its
/// payload is unused: no operation reads it.
#[derive(Clone, Copy, Debug)]
pub struct ListHead {
    pub next: usize,
    pub prev: usize,
    pub item: i32,
}

/// The successor of node `i`.
pub open spec fn next_of(s: Seq<ListHead>, i: usize) -> usize {
    s[i as int].next
}

/// The predecessor of node `i`.
pub open spec fn prev_of(s: Seq<ListHead>, i: usize) -> usize {
    s[i as int].prev
}

/// The payload of node `i`.
pub open spec fn item_of(s: Seq<ListHead>, i: usize) -> i32 {
    s[i as int].item
}

/// Node `i` is part of a ring: its successor points back to it, and so does
/// its predecessor.
pub open spec fn linked(s: Seq<ListHead>, i: usize) -> bool {
    &&& i < s.len()
    &&& next_of(s, i) < s.len()
    &&& prev_of(s, i) < s.len()
    &&& prev_of(s, next_of(s, i)) == i
    &&& next_of(s, prev_of(s, i)) == i
}

/// Node `i` is a ring of its own: both links point to itself.
pub open spec fn isolated(s: Seq<ListHead>, i: usize) -> bool {
    &&& i < s.len()
    &&& next_of(s, i) == i
    &&& prev_of(s, i) == i
}

/// Node `i` is a member of no ring but possibly its own: either it is
/// isolated, or its links are stale, left behind by an operation that took
/// it out of a ring without resetting it.
pub open spec fn detached(s: Seq<ListHead>, i: usize) -> bool {
    &&& i < s.len()
    &&& (isolated(s, i) || !linked(s, i))
}

/// The ring through node `i`, if it is part of one, does not run into a
/// node with stale links: both neighbours of `i` are part of a ring too.
pub open spec fn closed_at(s: Seq<ListHead>, i: usize) -> bool {
    linked(s, i) ==> linked(s, next_of(s, i)) && linked(s, prev_of(s, i))
}

/// The store is consistent: every link is the position of a node, and
/// every ring is closed. A node outside every ring may hold stale links;
/// no node of a ring points to it.
pub open spec fn wf(s: Seq<ListHead>) -> bool {
    &&& s.len() <= usize::MAX
    &&& forall|i: int|
        0 <= i < s.len() ==> (#[trigger] s[i]).next < s.len() && s[i].prev < s.len()
    &&& forall|i: usize| i < s.len() ==> #[trigger] closed_at(s, i)
}

/// The payloads of all nodes, by position.
pub open spec fn items(s: Seq<ListHead>) -> Seq<i32> {
    Seq::new(s.len(), |i: int| s[i].item)
}

/// The store with one more node, isolated and holding `item`.
pub open spec fn with_new(s: Seq<ListHead>, item: i32) -> Seq<ListHead> {
    s.push(ListHead { next: s.len() as usize, prev: s.len() as usize, item })
}

/// The store in which node `x` is isolated and nothing else has changed.
pub open spec fn reset(s: Seq<ListHead>, x: usize) -> Seq<ListHead> {
    s.update(x as int, ListHead { next: x, prev: x, item: s[x as int].item })
}

/// The store in which `new` stands between `before` and `after`:
/// `before -> new -> after`, every other link as it was.
pub open spec fn inserted(s: Seq<ListHead>, new: usize, before: usize, after: usize) -> Seq<
    ListHead,
> {
    Seq::new(
        s.len(),
        |i: int|
            ListHead {
                next: if i == before {
                    new
                } else if i == new {
                    after
                } else {
                    s[i].next
                },
                prev: if i == after {
                    new
                } else if i == new {
                    before
                } else {
                    s[i].prev
                },
                item: s[i].item,
            },
    )
}

/// The store in which `before` and `after` are neighbours:
/// `before -> after`, every other link as it was.
pub open spec fn joined(s: Seq<ListHead>, before: usize, after: usize) -> Seq<ListHead> {
    Seq::new(
        s.len(),
        |i: int|
            ListHead {
                next: if i == before {
                    after
                } else {
                    s[i].next
                },
                prev: if i == after {
                    before
                } else {
                    s[i].prev
                },
                item: s[i].item,
            },
    )
}

/// The store in which the neighbours of `x` point to each other. The links
/// of `x` itself are as they were, and so are stale unless `x` was isolated.
pub open spec fn unlinked(s: Seq<ListHead>, x: usize) -> Seq<ListHead> {
    joined(s, prev_of(s, x), next_of(s, x))
}

/// The store in which `x` has left its ring and is isolated.
pub open spec fn removed(s: Seq<ListHead>, x: usize) -> Seq<ListHead> {
    reset(unlinked(s, x), x)
}

/// The store in which `new` stands where `old` stood: the neighbours of
/// `old` point to `new`, and `new` to them. Where `old` was isolated, `new`
/// is isolated in its place. The links of `old` are then stale.
pub open spec fn replaced(s: Seq<ListHead>, old: usize, new: usize) -> Seq<ListHead> {
    let n = next_of(s, old);
    let p = prev_of(s, old);
    if n == old {
        Seq::new(
            s.len(),
            |i: int|
                ListHead {
                    next: if i == new {
                        new
                    } else {
                        s[i].next
                    },
                    prev: if i == new || i == old {
                        new
                    } else {
                        s[i].prev
                    },
                    item: s[i].item,
                },
        )
    } else {
        Seq::new(
            s.len(),
            |i: int|
                ListHead {
                    next: if i == new {
                        n
                    } else if i == p {
                        new
                    } else {
                        s[i].next
                    },
                    prev: if i == new {
                        p
                    } else if i == n {
                        new
                    } else {
                        s[i].prev
                    },
                    item: s[i].item,
                },
        )
    }
}

/// `a` for `b`, `b` for `a`, and every other node for itself.
pub open spec fn exchange(a: usize, b: usize, i: usize) -> usize {
    if i == a {
        b
    } else if i == b {
        a
    } else {
        i
    }
}

/// The store in which `a` and `b` have changed places: every ring reads
/// as before with `a` for `b` and `b` for `a`. Nodes with stale links keep
/// them.
pub open spec fn swapped(s: Seq<ListHead>, a: usize, b: usize) -> Seq<ListHead> {
    Seq::new(
        s.len(),
        |i: int|
            if linked(s, i as usize) {
                ListHead {
                    next: exchange(a, b, next_of(s, exchange(a, b, i as usize))),
                    prev: exchange(a, b, prev_of(s, exchange(a, b, i as usize))),
                    item: s[i].item,
                }
            } else {
                s[i]
            },
    )
}

/// The store in which `x` has left its ring and stands after `head`.
pub open spec fn moved(s: Seq<ListHead>, x: usize, head: usize) -> Seq<ListHead> {
    let u = unlinked(s, x);
    inserted(u, x, head, next_of(u, head))
}

/// The store in which `x` has left its ring and stands before `head`.
pub open spec fn moved_tail(s: Seq<ListHead>, x: usize, head: usize) -> Seq<ListHead> {
    let u = unlinked(s, x);
    inserted(u, x, prev_of(u, head), head)
}

/// The store in which the members of the list at `list` stand between
/// `before` and `after`, in their order. Where that list is empty nothing
/// changes. Else `list` itself keeps its links, which are then stale.
pub open spec fn spliced(s: Seq<ListHead>, list: usize, before: usize, after: usize) -> Seq<
    ListHead,
> {
    let first = next_of(s, list);
    let last = prev_of(s, list);
    if first == list {
        s
    } else {
        Seq::new(
            s.len(),
            |i: int|
                ListHead {
                    next: if i == before {
                        first
                    } else if i == last {
                        after
                    } else {
                        s[i].next
                    },
                    prev: if i == first {
                        before
                    } else if i == after {
                        last
                    } else {
                        s[i].prev
                    },
                    item: s[i].item,
                },
        )
    }
}

/// A store with one more node, isolated, is consistent; every node is
/// linked as before.
pub proof fn lemma_with_new(s: Seq<ListHead>, item: i32)
    requires
        wf(s),
        s.len() < usize::MAX,
    ensures
        wf(with_new(s, item)),
        isolated(with_new(s, item), s.len() as usize),
        forall|i: usize| i < s.len() ==> (linked(with_new(s, item), i) <==> linked(s, i)),
{
    let t = with_new(s, item);
    assert forall|i: usize| i < t.len() implies #[trigger] closed_at(t, i) by {
        if i < s.len() {
            assert(closed_at(s, i));
        }
    }
}

/// Inserting a detached node next to a linked one keeps the store
/// consistent; the new node is linked, and so is every node that was.
pub proof fn lemma_inserted(s: Seq<ListHead>, new: usize, before: usize, after: usize)
    requires
        wf(s),
        linked(s, before),
        next_of(s, before) == after,
        detached(s, new),
    ensures
        wf(inserted(s, new, before, after)),
        forall|i: usize|
            linked(inserted(s, new, before, after), i) <==> (linked(s, i) || i == new),
{
    let t = inserted(s, new, before, after);
    assert(closed_at(s, before));
    assert forall|i: usize| linked(t, i) <==> (linked(s, i) || i == new) by {
        if i < s.len() {
            assert(closed_at(s, i));
        }
    }
    assert forall|i: usize| i < t.len() implies #[trigger] closed_at(t, i) by {
        assert(closed_at(s, i));
    }
}

/// Joining the two neighbours of a linked node keeps the store consistent;
/// that node is then detached, and every other node is linked as before.
pub proof fn lemma_unlinked(s: Seq<ListHead>, x: usize)
    requires
        wf(s),
        linked(s, x),
    ensures
        wf(unlinked(s, x)),
        detached(unlinked(s, x), x),
        forall|i: usize| i != x ==> (linked(unlinked(s, x), i) <==> linked(s, i)),
{
    let t = unlinked(s, x);
    assert(closed_at(s, x));
    assert forall|i: usize| i < t.len() implies #[trigger] closed_at(t, i) by {
        assert(closed_at(s, i));
    }
}

/// Isolating a detached node keeps the store consistent; every other node
/// is linked as before.
pub proof fn lemma_reset(s: Seq<ListHead>, x: usize)
    requires
        wf(s),
        detached(s, x),
    ensures
        wf(reset(s, x)),
        isolated(reset(s, x), x),
        forall|i: usize| i != x ==> (linked(reset(s, x), i) <==> linked(s, i)),
{
    let t = reset(s, x);
    assert forall|i: usize| i != x implies (linked(t, i) <==> linked(s, i)) by {
        if i < s.len() {
            assert(closed_at(s, i));
        }
    }
    assert forall|i: usize| i < t.len() implies #[trigger] closed_at(t, i) by {
        assert(closed_at(s, i));
    }
}

/// Removing a linked node from its ring keeps the store consistent; the
/// node is then isolated, and every other node is linked as before.
pub proof fn lemma_removed(s: Seq<ListHead>, x: usize)
    requires
        wf(s),
        linked(s, x),
    ensures
        wf(removed(s, x)),
        isolated(removed(s, x), x),
        forall|i: usize| i != x ==> (linked(removed(s, x), i) <==> linked(s, i)),
{
    lemma_unlinked(s, x);
    lemma_reset(unlinked(s, x), x);
}

/// Putting a detached node in the place of a linked one keeps the store
/// consistent; the new node is linked, the old one detached.
pub proof fn lemma_replaced(s: Seq<ListHead>, old: usize, new: usize)
    requires
        wf(s),
        linked(s, old),
        detached(s, new),
    ensures
        wf(replaced(s, old, new)),
        linked(replaced(s, old, new), new),
        detached(replaced(s, old, new), old),
        forall|i: usize|
            i != old && i != new ==> (linked(replaced(s, old, new), i) <==> linked(s, i)),
{
    let t = replaced(s, old, new);
    assert(closed_at(s, old));
    assert forall|i: usize| i != old && i != new implies (linked(t, i) <==> linked(s, i)) by {
        if i < s.len() {
            assert(closed_at(s, i));
        }
    }
    assert forall|i: usize| i < t.len() implies #[trigger] closed_at(t, i) by {
        assert(closed_at(s, i));
    }
}

/// The place behind which `a` goes back in when it changes places with
/// `b`: the predecessor of `b`, or `b` itself where that is `a`.
pub(crate) open spec fn swap_anchor(s: Seq<ListHead>, a: usize, b: usize) -> usize {
    if prev_of(s, b) == a {
        b
    } else {
        prev_of(s, b)
    }
}

/// The store after `b` is removed and put in the place of `a`, and `a` is
/// inserted behind the place where `b` stood, or isolated where `b` stood
/// alone.
pub(crate) open spec fn swapped_in_steps(s: Seq<ListHead>, a: usize, b: usize) -> Seq<ListHead> {
    let s2 = replaced(removed(s, b), a, b);
    let pos = swap_anchor(s, a, b);
    if prev_of(s, b) == b {
        reset(s2, a)
    } else {
        inserted(s2, a, pos, next_of(s2, pos))
    }
}

/// At node `i`, the steps of a swap give what the exchange gives.
proof fn lemma_swapped_at(s: Seq<ListHead>, a: usize, b: usize, i: usize)
    requires
        linked(s, a),
        linked(s, b),
        linked(s, next_of(s, a)),
        linked(s, prev_of(s, a)),
        linked(s, next_of(s, b)),
        linked(s, prev_of(s, b)),
        i < s.len(),
        next_of(s, i) < s.len(),
        prev_of(s, i) < s.len(),
        closed_at(s, i),
    ensures
        swapped_in_steps(s, a, b)[i as int] == swapped(s, a, b)[i as int],
{
    let s1 = removed(s, b);
    let k = i as int;
    assert(s1[k].next == if i == b {
        b
    } else if i == prev_of(s, b) {
        next_of(s, b)
    } else {
        next_of(s, i)
    });
    assert(s1[k].prev == if i == b {
        b
    } else if i == next_of(s, b) {
        prev_of(s, b)
    } else {
        prev_of(s, i)
    });
}

/// Removing `b`, putting it in the place of `a`, and putting `a` where `b`
/// stood exchanges the two.
pub(crate) proof fn lemma_swapped(s: Seq<ListHead>, a: usize, b: usize)
    requires
        wf(s),
        linked(s, a),
        linked(s, b),
    ensures
        ({
            let s1 = removed(s, b);
            let s2 = replaced(s1, a, b);
            let pos = swap_anchor(s, a, b);
            &&& wf(s1) && linked(s1, a) && detached(s1, b)
            &&& wf(s2) && linked(s2, pos) && detached(s2, a)
            &&& swapped_in_steps(s, a, b) == swapped(s, a, b)
        }),
{
    let s1 = removed(s, b);
    lemma_removed(s, b);
    lemma_replaced(s1, a, b);
    assert(closed_at(s, a));
    assert(closed_at(s, b));
    assert forall|i: int| 0 <= i < s.len() implies swapped_in_steps(s, a, b)[i] == swapped(
        s,
        a,
        b,
    )[i] by {
        lemma_swapped_at(s, a, b, i as usize);
    }
}

} // verus!
