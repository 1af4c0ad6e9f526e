//! The basic linkage operations: initialise, test for emptiness, insert,
//! unlink, replace, swap and move.

use crate::arena::Arena;
use crate::effects::{
    exchanged, lemma_add, lemma_add_tail, lemma_del, lemma_insert_keeps, lemma_move,
    lemma_move_keeps, lemma_move_tail, lemma_new_keeps, lemma_replaced_list, lemma_reset_keeps,
    lemma_splice, lemma_splice_tail, lemma_swapped_list, substitute, substituted,
};
use crate::links::{
    closed_at, detached, exchange, inserted, isolated, joined, lemma_inserted, lemma_replaced,
    lemma_reset, lemma_swapped, lemma_unlinked, lemma_with_new, linked, moved, moved_tail,
    next_of, prev_of, removed, replaced, reset, spliced, swapped, unlinked, with_new, ListHead,
};
use crate::ring::{
    adjacent, at, is_list, lemma_empty, lemma_empty_iff, lemma_list_exists, lemma_list_len,
    lemma_tail_ring, list_of, payloads, same_ring,
};
use vstd::prelude::*;

verus! {

impl ListHead {
    /// Creates a node that holds `num`, isolated: an empty list if used as
    /// a sentinel. Returns its position.
    pub fn new(arena: &mut Arena, num: i32) -> (node: usize)
        requires
            old(arena).wf(),
        ensures
            final(arena).wf(),
            node == old(arena)@.len(),
            final(arena)@ == with_new(old(arena)@, num),
            isolated(final(arena)@, node),
            list_of(final(arena)@, node) == Seq::<usize>::empty(),
            forall|h: usize|
                linked(old(arena)@, h) ==> #[trigger] list_of(final(arena)@, h) == list_of(
                    old(arena)@,
                    h,
                ),
    {
        let id: usize = arena.len();
        let node: usize = arena.push(ListHead { next: id, prev: id, item: num });
        proof {
            lemma_with_new(old(arena)@, num);
            lemma_empty(arena@, node);
            assert forall|h: usize| linked(old(arena)@, h) implies #[trigger] list_of(arena@, h)
                == list_of(old(arena)@, h) by {
                lemma_new_keeps(old(arena)@, num, h);
            }
        }
        node
    }

    /// Makes `list` point to itself. As a sentinel it then heads an empty
    /// list. `list` must not be a member of a ring of other nodes: they would
    /// be left pointing at it.
    pub fn init_list_head(arena: &mut Arena, list: usize)
        requires
            old(arena).wf(),
            detached(old(arena)@, list),
        ensures
            final(arena).wf(),
            final(arena)@ == reset(old(arena)@, list),
            isolated(final(arena)@, list),
            list_of(final(arena)@, list) == Seq::<usize>::empty(),
            forall|h: usize|
                linked(old(arena)@, h) && h != list ==> #[trigger] list_of(final(arena)@, h)
                    == list_of(old(arena)@, h),
    {
        arena.set_next(list, list);
        arena.set_prev(list, list);
        proof {
            assert(arena@ =~= reset(old(arena)@, list));
            lemma_reset(old(arena)@, list);
            lemma_empty(arena@, list);
            assert forall|h: usize| linked(old(arena)@, h) && h != list implies #[trigger] list_of(
                arena@,
                h,
            ) == list_of(old(arena)@, h) by {
                lemma_reset_keeps(old(arena)@, list, h);
            }
        }
    }

    /// Tests whether the list at `head` is empty: whether `head` is its own
    /// successor.
    pub fn list_empty(arena: &Arena, head: usize) -> (empty: bool)
        requires
            head < arena@.len(),
        ensures
            empty == (next_of(arena@, head) == head),
            arena.wf() && linked(arena@, head) ==> empty == (list_of(arena@, head).len() == 0),
    {
        proof {
            if arena.wf() && linked(arena@, head) {
                lemma_empty_iff(arena@, head);
            }
        }
        arena.next(head) == head
    }

    /// Inserts `new` between two nodes that are known to be neighbours.
    fn __list_add(arena: &mut Arena, new: usize, prev: usize, next: usize)
        requires
            old(arena).wf(),
            linked(old(arena)@, prev),
            next_of(old(arena)@, prev) == next,
            detached(old(arena)@, new),
        ensures
            final(arena).wf(),
            final(arena)@ == inserted(old(arena)@, new, prev, next),
    {
        arena.set_prev(next, new);
        arena.set_next(new, next);
        arena.set_prev(new, prev);
        arena.set_next(prev, new);
        proof {
            assert(closed_at(old(arena)@, prev));
            assert(arena@ =~= inserted(old(arena)@, new, prev, next));
            lemma_inserted(old(arena)@, new, prev, next);
        }
    }

    /// Inserts `new` immediately after `head`: at the front of the list at
    /// `head`. `head` must be part of a ring, and `new` of none.
    pub fn list_add(arena: &mut Arena, new: usize, head: usize)
        requires
            old(arena).wf(),
            linked(old(arena)@, head),
            detached(old(arena)@, new),
        ensures
            final(arena).wf(),
            final(arena)@ == inserted(old(arena)@, new, head, next_of(old(arena)@, head)),
            new != head ==> list_of(final(arena)@, head) == seq![new] + list_of(old(arena)@, head),
            forall|h: usize|
                linked(old(arena)@, h) && h != new && !same_ring(old(arena)@, head, h)
                    ==> #[trigger] list_of(final(arena)@, h) == list_of(old(arena)@, h),
    {
        let next: usize = arena.next(head);
        Self::__list_add(arena, new, head, next);
        proof {
            let s = old(arena)@;
            if new != head {
                lemma_add(s, new, head);
            }
            assert forall|h: usize|
                linked(s, h) && h != new && !same_ring(s, head, h) implies #[trigger] list_of(
                arena@,
                h,
            ) == list_of(s, h) by {
                lemma_insert_keeps(s, new, head, h);
            }
        }
    }

    /// Inserts `new` immediately before `head`: at the back of the list at
    /// `head`. `head` must be part of a ring, and `new` of none.
    pub fn list_add_tail(arena: &mut Arena, new: usize, head: usize)
        requires
            old(arena).wf(),
            linked(old(arena)@, head),
            detached(old(arena)@, new),
        ensures
            final(arena).wf(),
            final(arena)@ == inserted(old(arena)@, new, prev_of(old(arena)@, head), head),
            new != head ==> list_of(final(arena)@, head) == list_of(old(arena)@, head).push(new),
            forall|h: usize|
                linked(old(arena)@, h) && h != new && !same_ring(old(arena)@, head, h)
                    ==> #[trigger] list_of(final(arena)@, h) == list_of(old(arena)@, h),
    {
        let prev: usize = arena.prev(head);
        assert(closed_at(arena@, head));
        Self::__list_add(arena, new, prev, head);
        proof {
            let s = old(arena)@;
            if new != head {
                lemma_add_tail(s, new, head);
            }
            assert forall|h: usize|
                linked(s, h) && h != new && !same_ring(s, head, h) implies #[trigger] list_of(
                arena@,
                h,
            ) == list_of(s, h) by {
                lemma_tail_ring(s, head, h);
                lemma_insert_keeps(s, new, prev_of(s, head), h);
            }
        }
    }

    /// Makes two nodes neighbours, which drops what stood between them.
    fn __list_del(arena: &mut Arena, prev: usize, next: usize)
        requires
            prev < old(arena)@.len(),
            next < old(arena)@.len(),
        ensures
            final(arena)@ == joined(old(arena)@, prev, next),
    {
        arena.set_prev(next, prev);
        arena.set_next(prev, next);
    }

    /// Takes `entry` out of its ring and leaves its own links as they were.
    fn __list_del_entry(arena: &mut Arena, entry: usize)
        requires
            old(arena).wf(),
            linked(old(arena)@, entry),
        ensures
            final(arena).wf(),
            final(arena)@ == unlinked(old(arena)@, entry),
            detached(final(arena)@, entry),
    {
        if !Self::list_empty(arena, entry) {
            let prev: usize = arena.prev(entry);
            let next: usize = arena.next(entry);
            Self::__list_del(arena, prev, next);
        }
        proof {
            lemma_unlinked(old(arena)@, entry);
        }
    }

    /// Removes `entry` from its ring, whose gap closes, and isolates it.
    /// Nothing changes if `entry` is isolated already. A node with stale
    /// links cannot be removed: it is a member of no ring.
    pub fn list_del_init(arena: &mut Arena, entry: usize)
        requires
            old(arena).wf(),
            linked(old(arena)@, entry),
        ensures
            final(arena).wf(),
            final(arena)@ == removed(old(arena)@, entry),
            isolated(final(arena)@, entry),
            isolated(old(arena)@, entry) ==> final(arena)@ == old(arena)@,
            forall|h: usize|
                linked(old(arena)@, h) && h != entry ==> #[trigger] list_of(final(arena)@, h)
                    == list_of(old(arena)@, h).remove_value(entry),
    {
        Self::__list_del_entry(arena, entry);
        Self::init_list_head(arena, entry);
        proof {
            assert forall|h: usize| linked(old(arena)@, h) && h != entry implies #[trigger] list_of(
                arena@,
                h,
            ) == list_of(old(arena)@, h).remove_value(entry) by {
                lemma_del(old(arena)@, entry, h);
            }
        }
    }

    /// Puts `new` in the place of `old_entry`. The links of `old_entry` are
    /// left as they were and are stale from then on. Where `old_entry` was
    /// isolated, `new` becomes isolated.
    pub fn list_replace(arena: &mut Arena, old_entry: usize, new: usize)
        requires
            old(arena).wf(),
            linked(old(arena)@, old_entry),
            detached(old(arena)@, new),
        ensures
            final(arena).wf(),
            final(arena)@ == replaced(old(arena)@, old_entry, new),
            linked(final(arena)@, new),
            detached(final(arena)@, old_entry),
            forall|h: usize|
                linked(old(arena)@, h) && h != new ==> list_of(
                    final(arena)@,
                    substitute(old_entry, new, h),
                ) == substituted(old_entry, new, #[trigger] list_of(old(arena)@, h)),
    {
        let next: usize = arena.next(old_entry);
        arena.set_next(new, next);
        arena.set_prev(next, new);
        let prev: usize = arena.prev(old_entry);
        arena.set_prev(new, prev);
        arena.set_next(prev, new);
        proof {
            assert(closed_at(old(arena)@, old_entry));
            assert(arena@ =~= replaced(old(arena)@, old_entry, new));
            lemma_replaced(old(arena)@, old_entry, new);
            assert forall|h: usize| linked(old(arena)@, h) && h != new implies list_of(
                arena@,
                substitute(old_entry, new, h),
            ) == substituted(old_entry, new, #[trigger] list_of(old(arena)@, h)) by {
                lemma_replaced_list(old(arena)@, old_entry, new, h);
            }
        }
    }

    /// Puts `new` in the place of `old_entry` and isolates `old_entry`.
    pub fn list_replace_init(arena: &mut Arena, old_entry: usize, new: usize)
        requires
            old(arena).wf(),
            linked(old(arena)@, old_entry),
            detached(old(arena)@, new),
        ensures
            final(arena).wf(),
            final(arena)@ == reset(replaced(old(arena)@, old_entry, new), old_entry),
            isolated(final(arena)@, old_entry),
            linked(final(arena)@, new),
            forall|h: usize|
                linked(old(arena)@, h) && h != new ==> list_of(
                    final(arena)@,
                    substitute(old_entry, new, h),
                ) == substituted(old_entry, new, #[trigger] list_of(old(arena)@, h)),
    {
        Self::list_replace(arena, old_entry, new);
        let ghost mid = arena@;
        Self::init_list_head(arena, old_entry);
        proof {
            let s = old(arena)@;
            lemma_replaced(s, old_entry, new);
            assert forall|h: usize| linked(s, h) && h != new implies list_of(
                arena@,
                substitute(old_entry, new, h),
            ) == substituted(old_entry, new, #[trigger] list_of(s, h)) by {
                let g = substitute(old_entry, new, h);
                if g == old_entry {
                    lemma_empty(mid, g);
                    lemma_empty(arena@, g);
                }
            }
        }
    }

    /// Exchanges the places of `entry1` and `entry2`, whether or not they
    /// are neighbours or members of one ring. Where one of them is isolated,
    /// the other is isolated in its turn.
    pub fn list_swap(arena: &mut Arena, entry1: usize, entry2: usize)
        requires
            old(arena).wf(),
            linked(old(arena)@, entry1),
            linked(old(arena)@, entry2),
        ensures
            final(arena).wf(),
            final(arena)@ == swapped(old(arena)@, entry1, entry2),
            forall|h: usize|
                linked(old(arena)@, h) ==> list_of(final(arena)@, exchange(entry1, entry2, h))
                    == exchanged(entry1, entry2, #[trigger] list_of(old(arena)@, h)),
    {
        let ghost s0 = arena@;
        let mut pos: usize = arena.prev(entry2);
        proof {
            lemma_swapped(arena@, entry1, entry2);
        }
        Self::list_del_init(arena, entry2);
        Self::list_replace(arena, entry1, entry2);
        if pos == entry2 {
            Self::init_list_head(arena, entry1);
        } else {
            if pos == entry1 {
                pos = entry2;
            }
            Self::list_add(arena, entry1, pos);
        }
        proof {
            assert forall|h: usize| linked(s0, h) implies list_of(
                arena@,
                exchange(entry1, entry2, h),
            ) == exchanged(entry1, entry2, #[trigger] list_of(s0, h)) by {
                lemma_swapped_list(s0, entry1, entry2, h);
            }
        }
    }

    /// Takes `list` out of its ring and inserts it immediately after `head`,
    /// which must be another node unless `list` is isolated.
    pub fn list_move(arena: &mut Arena, list: usize, head: usize)
        requires
            old(arena).wf(),
            linked(old(arena)@, list),
            linked(old(arena)@, head),
            list != head || isolated(old(arena)@, list),
        ensures
            final(arena).wf(),
            final(arena)@ == moved(old(arena)@, list, head),
            list != head ==> list_of(final(arena)@, head) == seq![list] + list_of(
                old(arena)@,
                head,
            ).remove_value(list),
            forall|h: usize|
                linked(old(arena)@, h) && h != list && list != head && !same_ring(
                    old(arena)@,
                    head,
                    h,
                ) ==> #[trigger] list_of(final(arena)@, h) == list_of(old(arena)@, h).remove_value(
                    list,
                ),
    {
        Self::__list_del_entry(arena, list);
        Self::list_add(arena, list, head);
        proof {
            let s = old(arena)@;
            if list != head {
                lemma_move(s, list, head);
            }
            assert forall|h: usize|
                linked(s, h) && h != list && list != head && !same_ring(
                    s,
                    head,
                    h,
                ) implies #[trigger] list_of(arena@, h) == list_of(s, h).remove_value(list) by {
                lemma_move_keeps(s, list, head, h);
            }
        }
    }

    /// Takes `list` out of its ring and inserts it immediately before
    /// `head`, which must be another node unless `list` is isolated.
    pub fn list_move_tail(arena: &mut Arena, list: usize, head: usize)
        requires
            old(arena).wf(),
            linked(old(arena)@, list),
            linked(old(arena)@, head),
            list != head || isolated(old(arena)@, list),
        ensures
            final(arena).wf(),
            final(arena)@ == moved_tail(old(arena)@, list, head),
            list != head ==> list_of(final(arena)@, head) == list_of(
                old(arena)@,
                head,
            ).remove_value(list).push(list),
            forall|h: usize|
                linked(old(arena)@, h) && h != list && list != head && !same_ring(
                    old(arena)@,
                    head,
                    h,
                ) ==> #[trigger] list_of(final(arena)@, h) == list_of(old(arena)@, h).remove_value(
                    list,
                ),
    {
        Self::__list_del_entry(arena, list);
        Self::list_add_tail(arena, list, head);
        proof {
            let s = old(arena)@;
            if list != head {
                lemma_move_tail(s, list, head);
            }
            assert forall|h: usize|
                linked(s, h) && h != list && list != head && !same_ring(
                    s,
                    head,
                    h,
                ) implies #[trigger] list_of(arena@, h) == list_of(s, h).remove_value(list) by {
                lemma_move_keeps(s, list, head, h);
            }
        }
    }

    /// Puts the members of the list at `list`, which is not empty, between
    /// two nodes of another ring that are known to be neighbours.
    fn __list_splice(arena: &mut Arena, list: usize, prev: usize, next: usize)
        requires
            list < old(arena)@.len(),
            prev < old(arena)@.len(),
            next < old(arena)@.len(),
            next_of(old(arena)@, list) < old(arena)@.len(),
            prev_of(old(arena)@, list) < old(arena)@.len(),
            next_of(old(arena)@, list) != list,
            prev != prev_of(old(arena)@, list),
            next != next_of(old(arena)@, list),
        ensures
            final(arena)@ == spliced(old(arena)@, list, prev, next),
    {
        let first: usize = arena.next(list);
        let last: usize = arena.prev(list);
        arena.set_prev(first, prev);
        arena.set_next(prev, first);
        arena.set_next(last, next);
        arena.set_prev(next, last);
    }

    /// Joins the list at `list` to the front of the list at `head`, which
    /// must be in another ring: its members come to stand immediately after
    /// `head`, in their order.
    /// Nothing changes where the list at `list` is empty. Else `list` keeps
    /// its links, which are stale from then on.
    pub fn list_splice(arena: &mut Arena, list: usize, head: usize)
        requires
            old(arena).wf(),
            linked(old(arena)@, list),
            linked(old(arena)@, head),
            !same_ring(old(arena)@, list, head),
        ensures
            final(arena).wf(),
            final(arena)@ == spliced(old(arena)@, list, head, next_of(old(arena)@, head)),
            list_of(final(arena)@, head) == list_of(old(arena)@, list) + list_of(
                old(arena)@,
                head,
            ),
            detached(final(arena)@, list),
    {
        proof {
            lemma_splice(arena@, list, head);
        }
        if !Self::list_empty(arena, list) {
            let next: usize = arena.next(head);
            Self::__list_splice(arena, list, head, next);
        }
    }

    /// Joins the list at `list` to the back of the list at `head`, which
    /// must be in another ring: its members come to stand immediately before
    /// `head`, in their order.
    /// Nothing changes where the list at `list` is empty. Else `list` keeps
    /// its links, which are stale from then on.
    pub fn list_splice_tail(arena: &mut Arena, list: usize, head: usize)
        requires
            old(arena).wf(),
            linked(old(arena)@, list),
            linked(old(arena)@, head),
            !same_ring(old(arena)@, list, head),
        ensures
            final(arena).wf(),
            final(arena)@ == spliced(old(arena)@, list, prev_of(old(arena)@, head), head),
            list_of(final(arena)@, head) == list_of(old(arena)@, head) + list_of(
                old(arena)@,
                list,
            ),
            detached(final(arena)@, list),
    {
        proof {
            lemma_splice_tail(arena@, list, head);
        }
        if !Self::list_empty(arena, list) {
            let prev: usize = arena.prev(head);
            Self::__list_splice(arena, list, prev, head);
        }
    }

    /// The members of the list at `head`, from front to back.
    pub fn list_nodes(arena: &Arena, head: usize) -> (nodes: Vec<usize>)
        requires
            arena.wf(),
            linked(arena@, head),
        ensures
            nodes@ == list_of(arena@, head),
    {
        let ghost l = list_of(arena@, head);
        proof {
            lemma_list_exists(arena@, head);
            lemma_list_len(arena@, head, l);
        }
        let mut nodes: Vec<usize> = Vec::new();
        let mut cur: usize = arena.next(head);
        while cur != head
            invariant
                is_list(arena@, head, l),
                nodes.len() <= l.len(),
                cur == at(head, l, nodes.len() as int),
                nodes@ == l.take(nodes.len() as int),
            decreases l.len() - nodes.len(),
        {
            proof {
                let k = nodes.len() as int;
                assert(adjacent(arena@, head, l, k));
            }
            nodes.push(cur);
            cur = arena.next(cur);
        }
        nodes
    }

    /// The payloads of the members of the list at `head`, from front to
    /// back.
    pub fn list_items(arena: &Arena, head: usize) -> (values: Vec<i32>)
        requires
            arena.wf(),
            linked(arena@, head),
        ensures
            values@ == payloads(arena@, list_of(arena@, head)),
    {
        let nodes: Vec<usize> = Self::list_nodes(arena, head);
        let ghost l = list_of(arena@, head);
        proof {
            lemma_list_exists(arena@, head);
        }
        let mut values: Vec<i32> = Vec::new();
        let mut k: usize = 0;
        while k < nodes.len()
            invariant
                nodes@ == l,
                is_list(arena@, head, l),
                k <= nodes.len(),
                values@ == payloads(arena@, l.take(k as int)),
            decreases nodes.len() - k,
        {
            proof {
                assert(l[k as int] < arena@.len());
                assert(payloads(arena@, l.take(k as int)).push(arena@[l[k as int] as int].item)
                    =~= payloads(arena@, l.take(k + 1)));
            }
            values.push(arena.item(nodes[k]));
            k += 1;
        }
        values
    }

    /// Tests whether `a` and `b` are members of one ring.
    pub fn in_same_ring(arena: &Arena, a: usize, b: usize) -> (yes: bool)
        requires
            arena.wf(),
            linked(arena@, a),
        ensures
            yes == same_ring(arena@, a, b),
    {
        if a == b {
            return true;
        }
        let nodes: Vec<usize> = Self::list_nodes(arena, a);
        let mut k: usize = 0;
        while k < nodes.len()
            invariant
                nodes@ == list_of(arena@, a),
                k <= nodes.len(),
                forall|j: int| 0 <= j < k ==> nodes@[j] != b,
            decreases nodes.len() - k,
        {
            if nodes[k] == b {
                return true;
            }
            k += 1;
        }
        false
    }
}

} // verus!
