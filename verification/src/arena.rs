//! The node store: it owns every node, and links are positions in it.

use crate::links::{closed_at, detached, item_of, linked, next_of, prev_of, ListHead};
use vstd::prelude::*;

verus! {

/// A growable store of nodes. A node is named by its position, which never
/// changes; the store only grows.
pub struct Arena {
    nodes: Vec<ListHead>,
}

impl View for Arena {
    type V = Seq<ListHead>;

    closed spec fn view(&self) -> Seq<ListHead> {
        self.nodes@
    }
}

impl Arena {
    /// The store is consistent (see [`crate::links::wf`]).
    pub open spec fn wf(&self) -> bool {
        crate::links::wf(self@)
    }

    /// An empty store.
    pub fn new() -> (arena: Arena)
        ensures
            arena@ == Seq::<ListHead>::empty(),
            arena.wf(),
    {
        Arena { nodes: Vec::new() }
    }

    /// The number of nodes.
    pub fn len(&self) -> (n: usize)
        ensures
            n == self@.len(),
    {
        self.nodes.len()
    }

    /// The node at position `i`.
    pub fn node(&self, i: usize) -> (n: &ListHead)
        requires
            i < self@.len(),
        ensures
            *n == self@[i as int],
    {
        &self.nodes[i]
    }

    /// The successor of node `i`.
    pub fn next(&self, i: usize) -> (n: usize)
        requires
            i < self@.len(),
        ensures
            n == next_of(self@, i),
    {
        self.nodes[i].next
    }

    /// The predecessor of node `i`.
    pub fn prev(&self, i: usize) -> (p: usize)
        requires
            i < self@.len(),
        ensures
            p == prev_of(self@, i),
    {
        self.nodes[i].prev
    }

    /// The payload of node `i`.
    pub fn item(&self, i: usize) -> (v: i32)
        requires
            i < self@.len(),
        ensures
            v == item_of(self@, i),
    {
        self.nodes[i].item
    }

    /// Tests whether node `i` is part of a ring: whether its successor points
    /// back to it, and its predecessor too. A position that names no node is
    /// part of none.
    pub fn is_linked(&self, i: usize) -> (yes: bool)
        ensures
            yes == linked(self@, i),
    {
        if i >= self.nodes.len() {
            return false;
        }
        let n: usize = self.nodes[i].next;
        let p: usize = self.nodes[i].prev;
        n < self.nodes.len() && p < self.nodes.len() && self.nodes[n].prev == i
            && self.nodes[p].next == i
    }

    /// Tests whether node `i` is a member of no ring but possibly its own,
    /// so that it may be inserted or initialised.
    pub fn is_detached(&self, i: usize) -> (yes: bool)
        ensures
            yes == detached(self@, i),
    {
        if i >= self.nodes.len() {
            return false;
        }
        let alone: bool = self.nodes[i].next == i && self.nodes[i].prev == i;
        alone || !self.is_linked(i)
    }

    /// Tests whether the store is consistent. Every store that was built by
    /// calls whose `requires` held is; a caller that Verus has not seen can
    /// find out here.
    pub fn is_consistent(&self) -> (yes: bool)
        ensures
            yes == self.wf(),
    {
        let len: usize = self.nodes.len();
        let mut i: usize = 0;
        while i < len
            invariant
                len == self@.len(),
                i <= len,
                forall|j: int|
                    0 <= j < i ==> (#[trigger] self@[j]).next < len && self@[j].prev < len,
                forall|j: usize| j < i ==> #[trigger] closed_at(self@, j),
            decreases len - i,
        {
            let n: usize = self.nodes[i].next;
            let p: usize = self.nodes[i].prev;
            if n >= len || p >= len {
                assert(!(self@[i as int].next < len && self@[i as int].prev < len));
                return false;
            }
            if self.is_linked(i) && !(self.is_linked(n) && self.is_linked(p)) {
                assert(!closed_at(self@, i));
                return false;
            }
            i += 1;
        }
        true
    }

    /// Appends `node` and returns its position.
    pub(crate) fn push(&mut self, node: ListHead) -> (id: usize)
        ensures
            id == old(self)@.len(),
            final(self)@ == old(self)@.push(node),
            final(self)@.len() <= usize::MAX,
    {
        let id: usize = self.nodes.len();
        self.nodes.push(node);
        assert(self.nodes.len() == self.nodes@.len());
        id
    }

    /// Writes the `next` link of node `i`.
    pub(crate) fn set_next(&mut self, i: usize, v: usize)
        requires
            i < old(self)@.len(),
        ensures
            final(self)@ == old(self)@.update(
                i as int,
                ListHead { next: v, ..old(self)@[i as int] },
            ),
    {
        self.nodes[i].next = v;
    }

    /// Writes the `prev` link of node `i`.
    pub(crate) fn set_prev(&mut self, i: usize, v: usize)
        requires
            i < old(self)@.len(),
        ensures
            final(self)@ == old(self)@.update(
                i as int,
                ListHead { prev: v, ..old(self)@[i as int] },
            ),
    {
        self.nodes[i].prev = v;
    }
}

} // verus!
