//! Lists as sequences: the nodes that follow a sentinel around its ring.

use crate::links::{
    closed_at, detached, isolated, items, linked, next_of, prev_of, wf, ListHead,
};
use vstd::prelude::*;

verus! {

/// The node at place `k` of the ring of `h` whose other members are `l`:
/// `l[k]` at the places of `l`, and the sentinel `h` at every other place,
/// so in particular just before the first member and just after the last.
pub open spec fn at(h: usize, l: Seq<usize>, k: int) -> usize {
    if 0 <= k < l.len() {
        l[k]
    } else {
        h
    }
}

/// The nodes at places `k` and `k + 1` of the ring are neighbours.
pub open spec fn adjacent(s: Seq<ListHead>, h: usize, l: Seq<usize>, k: int) -> bool {
    &&& next_of(s, at(h, l, k)) == at(h, l, k + 1)
    &&& prev_of(s, at(h, l, k + 1)) == at(h, l, k)
}

/// `l` is the list at `h`: the members of the ring of `h` other than `h`
/// itself, each once, in the order in which `next` visits them from `h`,
/// and in the reverse of the order in which `prev` does.
pub open spec fn is_list(s: Seq<ListHead>, h: usize, l: Seq<usize>) -> bool {
    &&& h < s.len()
    &&& l.no_duplicates()
    &&& forall|k: int| 0 <= k < l.len() ==> (#[trigger] l[k]) < s.len() && l[k] != h
    &&& forall|k: int| -1 <= k < l.len() ==> #[trigger] adjacent(s, h, l, k)
}

/// The nodes met by following `next` from `cur` until `h` comes, or until
/// `fuel` steps are made.
pub open spec fn walk(s: Seq<ListHead>, h: usize, cur: usize, fuel: nat) -> Seq<usize>
    decreases fuel,
{
    if fuel == 0 || cur == h || cur >= s.len() {
        Seq::empty()
    } else {
        seq![cur] + walk(s, h, next_of(s, cur), (fuel - 1) as nat)
    }
}

/// The list at `h`: the nodes met by following `next` from the successor
/// of `h` until `h` comes again.
pub open spec fn list_of(s: Seq<ListHead>, h: usize) -> Seq<usize> {
    if h < s.len() {
        walk(s, h, next_of(s, h), s.len())
    } else {
        Seq::empty()
    }
}

/// `a` and `b` are members of one ring.
pub open spec fn same_ring(s: Seq<ListHead>, a: usize, b: usize) -> bool {
    a == b || list_of(s, a).contains(b)
}

/// The payloads that `its` gives the nodes of `l`, in order.
pub open spec fn keys(its: Seq<i32>, l: Seq<usize>) -> Seq<i32> {
    l.map_values(|x: usize| its[x as int])
}

/// The payloads of the nodes of `l` in the store `s`, in order.
pub open spec fn payloads(s: Seq<ListHead>, l: Seq<usize>) -> Seq<i32> {
    keys(items(s), l)
}

/// A sequence of distinct numbers below `n` has at most `n` entries.
pub proof fn lemma_distinct_bounded(q: Seq<usize>, n: nat)
    requires
        q.no_duplicates(),
        forall|k: int| 0 <= k < q.len() ==> (#[trigger] q[k]) < n,
    ensures
        q.len() <= n,
    decreases n,
{
    if q.len() == 0 {
    } else if n == 0 {
        assert(q[0] < n);
    } else {
        let top = (n - 1) as nat;
        if exists|k: int| 0 <= k < q.len() && q[k] == top {
            let k = choose|k: int| 0 <= k < q.len() && q[k] == top;
            let r = q.remove(k);
            assert forall|i: int| 0 <= i < r.len() implies (#[trigger] r[i]) < top by {
                let j = if i < k { i } else { i + 1 };
                assert(r[i] == q[j]);
                assert(q[j] < n);
                assert(j != k);
            }
            assert forall|i: int, j: int|
                0 <= i < r.len() && 0 <= j < r.len() && i != j implies r[i] != r[j] by {
                let i2 = if i < k { i } else { i + 1 };
                let j2 = if j < k { j } else { j + 1 };
                assert(r[i] == q[i2] && r[j] == q[j2]);
            }
            lemma_distinct_bounded(r, top);
        } else {
            assert forall|i: int| 0 <= i < q.len() implies (#[trigger] q[i]) < top by {
                assert(q[i] < n);
            }
            lemma_distinct_bounded(q, top);
        }
    }
}

/// A list is shorter than the store: its members and its sentinel are
/// distinct nodes.
pub proof fn lemma_list_len(s: Seq<ListHead>, h: usize, l: Seq<usize>)
    requires
        is_list(s, h, l),
    ensures
        l.len() < s.len(),
{
    let q = l.push(h);
    lemma_distinct_bounded(q, s.len());
}

/// Walking from place `k` of a list yields the rest of the list.
proof fn lemma_walk_rest(s: Seq<ListHead>, h: usize, l: Seq<usize>, k: int, fuel: nat)
    requires
        is_list(s, h, l),
        0 <= k <= l.len(),
        fuel >= l.len() - k,
    ensures
        walk(s, h, at(h, l, k), fuel) == l.skip(k),
    decreases l.len() - k,
{
    if k < l.len() {
        assert(adjacent(s, h, l, k));
        lemma_walk_rest(s, h, l, k + 1, (fuel - 1) as nat);
    }
}

/// A sentinel has one list only: whatever is a list at `h` is `list_of`.
pub proof fn lemma_list_unique(s: Seq<ListHead>, h: usize, l: Seq<usize>)
    requires
        is_list(s, h, l),
    ensures
        list_of(s, h) == l,
{
    lemma_list_len(s, h, l);
    assert(adjacent(s, h, l, -1));
    lemma_walk_rest(s, h, l, 0, s.len());
}

/// The node reached from `h` by `k` steps of `next`.
pub open spec fn orbit(s: Seq<ListHead>, h: usize, k: nat) -> usize
    decreases k,
{
    if k == 0 {
        h
    } else {
        next_of(s, orbit(s, h, (k - 1) as nat))
    }
}

/// Every node reached from a linked node is linked.
proof fn lemma_orbit_linked(s: Seq<ListHead>, h: usize, k: nat)
    requires
        wf(s),
        linked(s, h),
    ensures
        linked(s, orbit(s, h, k)),
    decreases k,
{
    if k > 0 {
        lemma_orbit_linked(s, h, (k - 1) as nat);
        assert(closed_at(s, orbit(s, h, (k - 1) as nat)));
    }
}

/// Where the walk from `h` meets one node at two steps, it meets `h` again
/// after as many steps as lie between the two.
proof fn lemma_orbit_back(s: Seq<ListHead>, h: usize, i: nat, j: nat)
    requires
        wf(s),
        linked(s, h),
        i <= j,
        orbit(s, h, i) == orbit(s, h, j),
    ensures
        orbit(s, h, (j - i) as nat) == h,
    decreases i,
{
    if i > 0 {
        lemma_orbit_linked(s, h, (i - 1) as nat);
        lemma_orbit_linked(s, h, (j - 1) as nat);
        lemma_orbit_back(s, h, (i - 1) as nat, (j - 1) as nat);
    }
}

/// The walk from a linked node comes back to it, after no more steps than
/// the store has nodes.
proof fn lemma_orbit_returns(s: Seq<ListHead>, h: usize) -> (m: nat)
    requires
        wf(s),
        linked(s, h),
    ensures
        1 <= m <= s.len(),
        orbit(s, h, m) == h,
{
    let n = s.len();
    let o = Seq::new(n + 1, |k: int| orbit(s, h, k as nat));
    assert forall|k: int| 0 <= k < o.len() implies (#[trigger] o[k]) < n by {
        lemma_orbit_linked(s, h, k as nat);
    }
    if o.no_duplicates() {
        lemma_distinct_bounded(o, n);
    }
    let (i, j) = choose|i: int, j: int|
        0 <= i < o.len() && 0 <= j < o.len() && i != j && o[i] == o[j];
    if i < j {
        lemma_orbit_back(s, h, i as nat, j as nat);
        (j - i) as nat
    } else {
        lemma_orbit_back(s, h, j as nat, i as nat);
        (i - j) as nat
    }
}

/// Walking from step `k` of the walk from `h`, with `h` due at step `m`,
/// yields the steps up to the first at which `h` comes.
proof fn lemma_walk_orbit(s: Seq<ListHead>, h: usize, k: nat, m: nat, fuel: nat) -> (r: nat)
    requires
        wf(s),
        linked(s, h),
        1 <= k <= m,
        orbit(s, h, m) == h,
        fuel >= m - k,
    ensures
        k <= r <= m,
        orbit(s, h, r) == h,
        forall|j: nat| k <= j < r ==> orbit(s, h, j) != h,
        walk(s, h, orbit(s, h, k), fuel) == Seq::new(
            (r - k) as nat,
            |t: int| orbit(s, h, (k + t) as nat),
        ),
    decreases m - k,
{
    if orbit(s, h, k) == h {
        assert(walk(s, h, orbit(s, h, k), fuel) =~= Seq::new(
            0,
            |t: int| orbit(s, h, (k + t) as nat),
        ));
        k
    } else {
        lemma_orbit_linked(s, h, k);
        let r = lemma_walk_orbit(s, h, k + 1, m, (fuel - 1) as nat);
        let rest = walk(s, h, orbit(s, h, k + 1), (fuel - 1) as nat);
        assert(seq![orbit(s, h, k)] + rest =~= Seq::new(
            (r - k) as nat,
            |t: int| orbit(s, h, (k + t) as nat),
        ));
        r
    }
}

/// In a consistent store every linked node has a list: `list_of` is the
/// list at `h`.
pub proof fn lemma_list_exists(s: Seq<ListHead>, h: usize)
    requires
        wf(s),
        linked(s, h),
    ensures
        is_list(s, h, list_of(s, h)),
{
    let m = lemma_orbit_returns(s, h);
    assert(orbit(s, h, 1) == next_of(s, orbit(s, h, 0)));
    lemma_walk_orbit(s, h, 1, m, s.len());
    let l = list_of(s, h);
    assert forall|k: int| 0 <= k < l.len() implies l[k] == orbit(s, h, (k + 1) as nat) by {}
    assert forall|k: int| 0 <= k < l.len() implies (#[trigger] l[k]) < s.len() && l[k] != h by {
        lemma_orbit_linked(s, h, (k + 1) as nat);
    }
    assert forall|i: int, j: int| 0 <= i < l.len() && 0 <= j < l.len() && i != j implies l[i]
        != l[j] by {
        if l[i] == l[j] {
            if i < j {
                lemma_orbit_back(s, h, (i + 1) as nat, (j + 1) as nat);
            } else {
                lemma_orbit_back(s, h, (j + 1) as nat, (i + 1) as nat);
            }
        }
    }
    assert forall|k: int| -1 <= k < l.len() implies #[trigger] adjacent(s, h, l, k) by {
        lemma_orbit_linked(s, h, (k + 1) as nat);
    }
}

/// Node `i` has the same links in `s` and in `t`.
pub open spec fn same_links(s: Seq<ListHead>, t: Seq<ListHead>, i: usize) -> bool {
    next_of(s, i) == next_of(t, i) && prev_of(s, i) == prev_of(t, i)
}

/// The members of a list and its sentinel are linked, and they are at
/// distinct places of the ring.
pub proof fn lemma_list_members(s: Seq<ListHead>, h: usize, l: Seq<usize>)
    requires
        is_list(s, h, l),
    ensures
        forall|k: int| -1 <= k <= l.len() ==> linked(s, #[trigger] at(h, l, k)),
        forall|i: int, j: int|
            -1 <= i < l.len() && -1 <= j < l.len() && i != j ==> at(h, l, i) != at(h, l, j),
{
    assert forall|k: int| -1 <= k <= l.len() implies linked(s, #[trigger] at(h, l, k)) by {
        if 0 <= k < l.len() {
            assert(adjacent(s, h, l, k));
            assert(adjacent(s, h, l, k - 1));
        } else {
            assert(adjacent(s, h, l, -1));
            assert(adjacent(s, h, l, l.len() - 1));
        }
    }
}

/// A list stays what it is while the links of its sentinel and of its
/// members stay what they are.
pub proof fn lemma_list_frame(s: Seq<ListHead>, t: Seq<ListHead>, h: usize, l: Seq<usize>)
    requires
        is_list(s, h, l),
        s.len() <= t.len(),
        same_links(s, t, h),
        forall|k: int| 0 <= k < l.len() ==> same_links(s, t, #[trigger] l[k]),
    ensures
        is_list(t, h, l),
{
    assert forall|k: int| -1 <= k < l.len() implies #[trigger] adjacent(t, h, l, k) by {
        assert(adjacent(s, h, l, k));
    }
}

/// A detached node is a member of no list but, if it is isolated, the
/// sentinel of an empty one.
pub proof fn lemma_detached_not_member(s: Seq<ListHead>, h: usize, l: Seq<usize>, x: usize)
    requires
        is_list(s, h, l),
        detached(s, x),
    ensures
        !l.contains(x),
        x == h ==> l.len() == 0,
{
    lemma_list_members(s, h, l);
    if l.contains(x) {
        let k = choose|k: int| 0 <= k < l.len() && l[k] == x;
        assert(adjacent(s, h, l, k));
        assert(at(h, l, k) != at(h, l, k + 1));
    }
    if x == h && l.len() > 0 {
        assert(adjacent(s, h, l, -1));
    }
}

/// The successor of a node of a ring is a node of that ring.
proof fn lemma_ring_closed(s: Seq<ListHead>, h: usize, l: Seq<usize>, x: usize)
    requires
        is_list(s, h, l),
        x == h || l.contains(x),
    ensures
        next_of(s, x) == h || l.contains(next_of(s, x)),
{
    let k = if x == h {
        -1
    } else {
        choose|k: int| 0 <= k < l.len() && l[k] == x
    };
    assert(adjacent(s, h, l, k));
}

/// A ring that holds one node of another holds its sentinel.
proof fn lemma_rings_meet(
    s: Seq<ListHead>,
    h: usize,
    l: Seq<usize>,
    g: usize,
    m: Seq<usize>,
    j: int,
)
    requires
        is_list(s, h, l),
        is_list(s, g, m),
        0 <= j <= m.len(),
        at(g, m, j) == h || l.contains(at(g, m, j)),
    ensures
        g == h || l.contains(g),
    decreases m.len() - j,
{
    if j < m.len() {
        lemma_ring_closed(s, h, l, at(g, m, j));
        assert(adjacent(s, g, m, j));
        lemma_rings_meet(s, h, l, g, m, j + 1);
    }
}

/// Two rings have all their nodes in common or none: if the sentinel of one
/// list is neither the sentinel nor a member of another, then the two lists
/// share no node.
pub proof fn lemma_rings_disjoint(
    s: Seq<ListHead>,
    h: usize,
    l: Seq<usize>,
    g: usize,
    m: Seq<usize>,
)
    requires
        is_list(s, h, l),
        is_list(s, g, m),
        g != h,
        !l.contains(g),
    ensures
        !m.contains(h),
        forall|i: int, j: int| 0 <= i < l.len() && 0 <= j < m.len() ==> l[i] != m[j],
{
    if m.contains(h) {
        let j = choose|j: int| 0 <= j < m.len() && m[j] == h;
        lemma_rings_meet(s, h, l, g, m, j);
    }
    assert forall|i: int, j: int| 0 <= i < l.len() && 0 <= j < m.len() implies l[i] != m[j] by {
        if l[i] == m[j] {
            lemma_rings_meet(s, h, l, g, m, j);
        }
    }
}

/// Node `i` is the same in `s` and in `t`: links and payload.
pub open spec fn same_node(s: Seq<ListHead>, t: Seq<ListHead>, i: usize) -> bool {
    s[i as int] == t[i as int]
}

/// Every node of `s` has in `t` the payload that it has in `s`.
pub open spec fn same_items(s: Seq<ListHead>, t: Seq<ListHead>) -> bool {
    &&& s.len() <= t.len()
    &&& forall|i: int| 0 <= i < s.len() ==> (#[trigger] t[i]).item == s[i].item
}

/// `x` is neither the sentinel `h` nor a member of its list `l`.
pub open spec fn outside(h: usize, l: Seq<usize>, x: usize) -> bool {
    x != h && !l.contains(x)
}

/// The neighbours of a linked node outside a ring are outside that ring.
pub proof fn lemma_outside_neighbours(s: Seq<ListHead>, h: usize, l: Seq<usize>, x: usize)
    requires
        is_list(s, h, l),
        linked(s, x),
        outside(h, l, x),
    ensures
        outside(h, l, next_of(s, x)),
        outside(h, l, prev_of(s, x)),
{
    let n = next_of(s, x);
    let p = prev_of(s, x);
    assert(adjacent(s, h, l, l.len() - 1));
    assert(adjacent(s, h, l, -1));
    if l.contains(n) {
        let k = choose|k: int| 0 <= k < l.len() && l[k] == n;
        assert(adjacent(s, h, l, k - 1));
    }
    if l.contains(p) {
        let k = choose|k: int| 0 <= k < l.len() && l[k] == p;
        assert(adjacent(s, h, l, k));
    }
}

/// A list is what it was where its sentinel and its members are what
/// they were.
pub proof fn lemma_list_kept(s: Seq<ListHead>, t: Seq<ListHead>, h: usize)
    requires
        wf(s),
        linked(s, h),
        s.len() <= t.len(),
        same_links(s, t, h),
        forall|k: int|
            0 <= k < list_of(s, h).len() ==> same_links(s, t, #[trigger] list_of(s, h)[k]),
    ensures
        list_of(t, h) == list_of(s, h),
        is_list(t, h, list_of(s, h)),
{
    lemma_list_exists(s, h);
    lemma_list_frame(s, t, h, list_of(s, h));
    lemma_list_unique(t, h, list_of(s, h));
}

/// Two linked nodes of which one is outside the ring of the other are in
/// different rings, whichever way one looks.
pub proof fn lemma_same_ring_symmetric(s: Seq<ListHead>, a: usize, b: usize)
    requires
        wf(s),
        linked(s, a),
        linked(s, b),
    ensures
        same_ring(s, a, b) == same_ring(s, b, a),
{
    lemma_list_exists(s, a);
    lemma_list_exists(s, b);
    if a != b {
        if !list_of(s, a).contains(b) {
            lemma_rings_disjoint(s, a, list_of(s, a), b, list_of(s, b));
        }
        if !list_of(s, b).contains(a) {
            lemma_rings_disjoint(s, b, list_of(s, b), a, list_of(s, a));
        }
    }
}

/// The predecessor of a node is in the ring of that node.
pub proof fn lemma_tail_ring(s: Seq<ListHead>, head: usize, h: usize)
    requires
        wf(s),
        linked(s, head),
        linked(s, h),
        !same_ring(s, head, h),
    ensures
        linked(s, prev_of(s, head)),
        next_of(s, prev_of(s, head)) == head,
        !same_ring(s, prev_of(s, head), h),
{
    let p = prev_of(s, head);
    assert(closed_at(s, head));
    lemma_same_ring_symmetric(s, head, h);
    lemma_list_exists(s, h);
    lemma_outside_neighbours(s, h, list_of(s, h), head);
    lemma_same_ring_symmetric(s, p, h);
}

/// A linked node is its own successor exactly when its list is empty.
pub proof fn lemma_empty_iff(s: Seq<ListHead>, h: usize)
    requires
        wf(s),
        linked(s, h),
    ensures
        next_of(s, h) == h <==> list_of(s, h).len() == 0,
{
    lemma_list_exists(s, h);
}

/// The list of an isolated node is empty.
pub proof fn lemma_empty(s: Seq<ListHead>, h: usize)
    requires
        isolated(s, h),
    ensures
        list_of(s, h) == Seq::<usize>::empty(),
{
    let none = Seq::<usize>::empty();
    lemma_list_unique(s, h, none);
}

} // verus!
