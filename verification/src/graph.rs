//! A directed graph over a fixed number of nodes that never holds a cycle.

use vstd::prelude::*;

verus! {

/// `b` is reached from `a` by following exactly `n` edges.
pub open spec fn steps(edges: Set<(u16, u16)>, a: u16, b: u16, n: nat) -> bool
    decreases n,
{
    if n == 0 {
        a == b
    } else {
        exists|c: u16| steps(edges, a, c, (n - 1) as nat) && #[trigger] edges.contains((c, b))
    }
}

/// `b` is reached from `a` by following zero or more edges.
pub open spec fn reachable(edges: Set<(u16, u16)>, a: u16, b: u16) -> bool {
    exists|n: nat| steps(edges, a, b, n)
}

/// No edge is closed into a cycle by a path that leads back from its head to its tail.
pub open spec fn acyclic(edges: Set<(u16, u16)>) -> bool {
    forall|a: u16, b: u16| #[trigger] edges.contains((a, b)) ==> !reachable(edges, b, a)
}

/// A node is a root when no edge points at it.
pub open spec fn is_root(edges: Set<(u16, u16)>, x: u16) -> bool {
    forall|a: u16| !edges.contains((a, x))
}

/// The edge set after offering one edge: it is taken unless it would close a cycle.
pub open spec fn offer(edges: Set<(u16, u16)>, e: (u16, u16)) -> Set<(u16, u16)> {
    if e.0 != e.1 && !reachable(edges, e.1, e.0) {
        edges.insert(e)
    } else {
        edges
    }
}

/// `d` is the least destination, not below `from`, of an edge that leaves `node`.
pub open spec fn is_least_edge(edges: Set<(u16, u16)>, node: u16, from: int, d: u16) -> bool {
    &&& d >= from
    &&& edges.contains((node, d))
    &&& forall|x: u16| x >= from && #[trigger] edges.contains((node, x)) ==> d <= x
}

/// The least destination, not below `from`, of an edge that leaves `node`, where there is
/// such an edge.
pub open spec fn least_edge(edges: Set<(u16, u16)>, node: u16, from: int) -> u16 {
    choose|d: u16| is_least_edge(edges, node, from, d)
}

/// The nodes that a walk from `node` yields when it goes on with the edges that leave
/// `node` for a destination of at least `from`: it takes these edges by ascending
/// destination, yields the destination of each and walks on from there before it takes the
/// next. A node is yielded once for every path that leads to it. No path is followed
/// beyond `depth` edges.
pub open spec fn walk_from(edges: Set<(u16, u16)>, node: u16, from: int, depth: nat) -> Seq<u16>
    decreases depth, 0x10000 - from,
{
    let d = least_edge(edges, node, from);
    if depth > 0 && d >= from && edges.contains((node, d)) {
        seq![d] + walk_from(edges, d, 0, (depth - 1) as nat) + walk_from(edges, node, d + 1, depth)
    } else {
        Seq::empty()
    }
}

/// The nodes that a depth-first walk from `start` yields, in order.
pub open spec fn walk(edges: Set<(u16, u16)>, start: u16, depth: nat) -> Seq<u16> {
    walk_from(edges, start, 0, depth)
}

/// The edge leaves a node below `node`, or leaves `node` for a destination below `d`.
spec fn below(e: (u16, u16), node: u16, d: int) -> bool {
    e.0 < node || (e.0 == node && e.1 < d)
}

/// Place `k` parts the ascending edges into those below `(node, d)` and the others.
spec fn cursor_at(s: Seq<(u16, u16)>, k: int, node: u16, d: int) -> bool {
    &&& 0 <= k <= s.len()
    &&& 0 <= d <= 0x10000
    &&& forall|i: int| 0 <= i < k ==> below(#[trigger] s[i], node, d)
    &&& forall|i: int| k <= i < s.len() ==> !below(#[trigger] s[i], node, d)
}

/// What a walk has yet to yield: for each node on its path, the last one first, the walk
/// that goes on with the edges that leave it for a destination of at least the number kept
/// with it. The node at place `j` of the path has `n - j` edges left to follow.
spec fn rest_of_walk(edges: Set<(u16, u16)>, path: Seq<(u16, int)>, n: nat) -> Seq<u16>
    decreases path.len(),
{
    if path.len() == 0 {
        Seq::empty()
    } else {
        walk_from(edges, path.last().0, path.last().1, (n - (path.len() - 1)) as nat) + rest_of_walk(
            edges,
            path.drop_last(),
            n,
        )
    }
}

/// Lexicographic order on edges: by source, then by destination.
pub open spec fn edge_lt(a: (u16, u16), b: (u16, u16)) -> bool {
    a.0 < b.0 || (a.0 == b.0 && a.1 < b.1)
}

/// Each edge of the sequence stands before the next.
pub open spec fn edges_ascending(s: Seq<(u16, u16)>) -> bool {
    forall|i: int, j: int| 0 <= i < j < s.len() ==> edge_lt(#[trigger] s[i], #[trigger] s[j])
}

/// Each number of the sequence is below the next.
pub open spec fn nodes_ascending(s: Seq<u16>) -> bool {
    forall|i: int, j: int| 0 <= i < j < s.len() ==> #[trigger] s[i] < #[trigger] s[j]
}

/// Every node reaches itself.
pub proof fn lemma_reach_self(edges: Set<(u16, u16)>, a: u16)
    ensures
        reachable(edges, a, a),
{
    assert(steps(edges, a, a, 0));
}

/// What reaches the tail of an edge reaches its head.
pub proof fn lemma_reach_step(edges: Set<(u16, u16)>, a: u16, c: u16, b: u16)
    requires
        reachable(edges, a, c),
        edges.contains((c, b)),
    ensures
        reachable(edges, a, b),
{
    let n = choose|n: nat| steps(edges, a, c, n);
    assert(((n + 1) - 1) as nat == n);
    assert(steps(edges, a, c, ((n + 1) - 1) as nat));
    assert(steps(edges, a, b, n + 1));
}

/// A path of `n` edges and one of `m` edges that starts where it ends make a path of `n + m`.
pub proof fn lemma_steps_chain(edges: Set<(u16, u16)>, a: u16, b: u16, c: u16, n: nat, m: nat)
    requires
        steps(edges, a, b, n),
        steps(edges, b, c, m),
    ensures
        steps(edges, a, c, n + m),
    decreases m,
{
    if m > 0 {
        let x = choose|x: u16| steps(edges, b, x, (m - 1) as nat) && #[trigger] edges.contains((x, c));
        lemma_steps_chain(edges, a, b, x, n, (m - 1) as nat);
        assert(((n + m) - 1) as nat == n + (m - 1) as nat);
        assert(steps(edges, a, x, ((n + m) - 1) as nat));
    }
}

/// What reaches a node reaches all that the node reaches.
pub proof fn lemma_reach_chain(edges: Set<(u16, u16)>, a: u16, b: u16, c: u16)
    requires
        reachable(edges, a, b),
        reachable(edges, b, c),
    ensures
        reachable(edges, a, c),
{
    let n = choose|n: nat| steps(edges, a, b, n);
    let m = choose|m: nat| steps(edges, b, c, m);
    lemma_steps_chain(edges, a, b, c, n, m);
}

/// A path through the edge set with `(s, d)` added either avoids the new edge, or
/// runs to `s` and on from `d` along old edges.
proof fn lemma_split_at_new_edge(edges: Set<(u16, u16)>, s: u16, d: u16, a: u16, b: u16, n: nat)
    requires
        !reachable(edges, d, s),
        steps(edges.insert((s, d)), a, b, n),
    ensures
        reachable(edges, a, b) || (reachable(edges, a, s) && reachable(edges, d, b)),
    decreases n,
{
    let grown = edges.insert((s, d));
    if n == 0 {
        lemma_reach_self(edges, a);
    } else {
        let c = choose|c: u16| steps(grown, a, c, (n - 1) as nat) && #[trigger] grown.contains((c, b));
        lemma_split_at_new_edge(edges, s, d, a, c, (n - 1) as nat);
        if edges.contains((c, b)) {
            if reachable(edges, a, c) {
                lemma_reach_step(edges, a, c, b);
            } else {
                lemma_reach_step(edges, d, c, b);
            }
        } else {
            assert(c == s && b == d);
            lemma_reach_self(edges, d);
        }
    }
}

/// Adding an edge whose head cannot reach its tail keeps the edge set free of cycles.
pub proof fn lemma_offer_keeps_acyclic(edges: Set<(u16, u16)>, s: u16, d: u16)
    requires
        acyclic(edges),
        !reachable(edges, d, s),
    ensures
        acyclic(edges.insert((s, d))),
{
    let grown = edges.insert((s, d));
    assert forall|a: u16, b: u16| #[trigger] grown.contains((a, b)) implies !reachable(grown, b, a) by {
        if reachable(grown, b, a) {
            let n = choose|n: nat| steps(grown, b, a, n);
            lemma_split_at_new_edge(edges, s, d, b, a, n);
            if edges.contains((a, b)) {
                if !reachable(edges, b, a) {
                    lemma_reach_step(edges, d, a, b);
                    lemma_reach_chain(edges, d, b, s);
                }
            } else {
                assert(a == s && b == d);
            }
        }
    }
}

/// In an edge set without cycles no node reaches itself along one or more edges.
pub proof fn lemma_no_round_trip(edges: Set<(u16, u16)>, a: u16, n: nat)
    requires
        acyclic(edges),
        n > 0,
    ensures
        !steps(edges, a, a, n),
{
    if steps(edges, a, a, n) {
        let c = choose|c: u16| steps(edges, a, c, (n - 1) as nat) && #[trigger] edges.contains((c, a));
        assert(reachable(edges, a, c));
    }
}


/// A path between two different nodes ends with an edge into its last node.
pub proof fn lemma_last_edge(edges: Set<(u16, u16)>, a: u16, b: u16, n: nat)
    requires
        steps(edges, a, b, n),
        a != b,
    ensures
        exists|c: u16| edges.contains((c, b)),
{
    let c = choose|c: u16| steps(edges, a, c, (n - 1) as nat) && #[trigger] edges.contains((c, b));
}

/// An edge leads from the node at place `i` of `p` to the next.
spec fn linked(edges: Set<(u16, u16)>, p: Seq<u16>, i: int) -> bool {
    edges.contains((p[i], p[i + 1]))
}

/// The nodes along a path of `m` edges from `a` to `b`.
proof fn lemma_path(edges: Set<(u16, u16)>, a: u16, b: u16, m: nat) -> (p: Seq<u16>)
    requires
        steps(edges, a, b, m),
    ensures
        p.len() == m + 1,
        p[0] == a,
        p[m as int] == b,
        forall|i: int| 0 <= i < m ==> #[trigger] linked(edges, p, i),
    decreases m,
{
    if m == 0 {
        seq![a]
    } else {
        let c = choose|c: u16| steps(edges, a, c, (m - 1) as nat) && #[trigger] edges.contains((c, b));
        let q = lemma_path(edges, a, c, (m - 1) as nat);
        let p = q.push(b);
        assert forall|i: int| 0 <= i < m implies #[trigger] linked(edges, p, i) by {
            if i < m - 1 {
                assert(linked(edges, q, i));
            }
        }
        p
    }
}

/// A stretch of a path is a path.
proof fn lemma_stretch(edges: Set<(u16, u16)>, p: Seq<u16>, i: int, j: int)
    requires
        forall|t: int| 0 <= t < p.len() - 1 ==> #[trigger] linked(edges, p, t),
        0 <= i <= j < p.len(),
    ensures
        steps(edges, p[i], p[j], (j - i) as nat),
    decreases j - i,
{
    if i < j {
        lemma_stretch(edges, p, i, j - 1);
        assert(linked(edges, p, j - 1));
        assert(((j - i) - 1) as nat == (j - 1 - i) as nat);
    }
}

/// No node stands twice on a path through edges that form no cycle.
proof fn lemma_path_distinct(edges: Set<(u16, u16)>, p: Seq<u16>)
    requires
        acyclic(edges),
        forall|t: int| 0 <= t < p.len() - 1 ==> #[trigger] linked(edges, p, t),
    ensures
        p.no_duplicates(),
{
    assert forall|i: int, j: int| 0 <= i < p.len() && 0 <= j < p.len() && i != j implies p[i] != p[j] by {
        if p[i] == p[j] {
            if i < j {
                lemma_stretch(edges, p, i, j);
                lemma_no_round_trip(edges, p[i], (j - i) as nat);
            } else {
                lemma_stretch(edges, p, j, i);
                lemma_no_round_trip(edges, p[j], (i - j) as nat);
            }
        }
    }
}

/// A list of different numbers below `n` has no more than `n` entries.
proof fn lemma_few_below(p: Seq<u16>, n: int)
    requires
        0 <= n,
        p.no_duplicates(),
        forall|i: int| 0 <= i < p.len() ==> #[trigger] p[i] < n,
    ensures
        p.len() <= n,
{
    let q = Seq::new(p.len(), |i: int| p[i] as int);
    assert forall|i: int, j: int| 0 <= i < q.len() && 0 <= j < q.len() && i != j implies q[i] != q[j] by {
        assert(p[i] != p[j]);
    }
    let below = vstd::set_lib::set_int_range(0, n);
    assert forall|x: int| q.to_set().contains(x) implies below.contains(x) by {
        let i = choose|i: int| 0 <= i < q.len() && q[i] == x;
        assert(p[i] < n);
    }
    q.unique_seq_to_set();
    vstd::set_lib::lemma_int_range(0, n);
    vstd::set_lib::lemma_len_subset(q.to_set(), below);
}

/// Every edge joins two nodes below `n`.
pub open spec fn within(edges: Set<(u16, u16)>, n: int) -> bool {
    forall|a: u16, b: u16| #[trigger] edges.contains((a, b)) ==> a < n && b < n
}

/// A path through edges that form no cycle and join nodes below `n` has fewer than `n`
/// edges.
pub proof fn lemma_short_paths(edges: Set<(u16, u16)>, n: int, a: u16, b: u16, m: nat)
    requires
        acyclic(edges),
        within(edges, n),
        0 <= n,
        steps(edges, a, b, m),
        m > 0,
    ensures
        m < n,
{
    let p = lemma_path(edges, a, b, m);
    lemma_path_distinct(edges, p);
    assert forall|i: int| 0 <= i < p.len() implies #[trigger] p[i] < n by {
        if i < m {
            assert(linked(edges, p, i));
        } else {
            assert(linked(edges, p, i - 1));
        }
    }
    lemma_few_below(p, n);
}

/// Where every node below `n` has an edge pointing at it, paths of any length lead to
/// node 0.
proof fn lemma_back(edges: Set<(u16, u16)>, n: u16, k: nat) -> (a: u16)
    requires
        n > 0,
        forall|r: u16| r < n ==> !#[trigger] is_root(edges, r),
        within(edges, n as int),
    ensures
        a < n,
        steps(edges, a, 0, k),
    decreases k,
{
    if k == 0 {
        0
    } else {
        let a0 = lemma_back(edges, n, (k - 1) as nat);
        assert(!is_root(edges, a0));
        let b = choose|b: u16| edges.contains((b, a0));
        assert(steps(edges, b, b, 0));
        assert(steps(edges, b, a0, 1));
        lemma_steps_chain(edges, b, a0, 0, 1, (k - 1) as nat);
        b
    }
}

/// Edges that form no cycle and join nodes below `n` leave one of these nodes a root.
pub proof fn lemma_some_root(edges: Set<(u16, u16)>, n: u16)
    requires
        acyclic(edges),
        within(edges, n as int),
        n > 0,
    ensures
        exists|r: u16| r < n && #[trigger] is_root(edges, r),
{
    if forall|r: u16| r < n ==> !#[trigger] is_root(edges, r) {
        let a = lemma_back(edges, n, n as nat);
        lemma_short_paths(edges, n as int, a, 0, n as nat);
    }
}

/// `x` is reached from `a` by following one or more edges.
pub open spec fn reaches_beyond(edges: Set<(u16, u16)>, a: u16, x: u16) -> bool {
    exists|m: nat| m > 0 && steps(edges, a, x, m)
}

/// What is in one of two sequences is in the two joined, and nothing else is.
proof fn lemma_in_joined(a: Seq<u16>, b: Seq<u16>, x: u16)
    ensures
        (a + b).contains(x) <==> a.contains(x) || b.contains(x),
{
    if (a + b).contains(x) {
        let i = choose|i: int| 0 <= i < (a + b).len() && (a + b)[i] == x;
        if i < a.len() {
            assert(a[i] == x);
        } else {
            assert(b[i - a.len()] == x);
        }
    }
    if a.contains(x) {
        let i = choose|i: int| 0 <= i < a.len() && a[i] == x;
        assert((a + b)[i] == x);
    }
    if b.contains(x) {
        let i = choose|i: int| 0 <= i < b.len() && b[i] == x;
        assert((a + b)[i + a.len()] == x);
    }
}

/// Every node that a walk yields is reached from the node where the walk begins.
pub proof fn lemma_walk_sound(edges: Set<(u16, u16)>, node: u16, from: int, depth: nat, x: u16)
    requires
        0 <= from <= 0x10000,
        walk_from(edges, node, from, depth).contains(x),
    ensures
        reaches_beyond(edges, node, x),
    decreases depth, 0x10000 - from,
{
    let w = least_edge(edges, node, from);
    if depth > 0 && w >= from && edges.contains((node, w)) {
        let ahead = walk_from(edges, w, 0, (depth - 1) as nat);
        let beside = walk_from(edges, node, w + 1, depth);
        lemma_in_joined(seq![w] + ahead, beside, x);
        lemma_in_joined(seq![w], ahead, x);
        assert(steps(edges, node, node, 0));
        assert(steps(edges, node, w, 1));
        if beside.contains(x) {
            lemma_walk_sound(edges, node, w + 1, depth, x);
        } else if ahead.contains(x) {
            lemma_walk_sound(edges, w, 0, (depth - 1) as nat, x);
            let m = choose|m: nat| m > 0 && steps(edges, w, x, m);
            lemma_steps_chain(edges, node, w, x, 1, m);
            assert(steps(edges, node, x, 1 + m));
        } else {
            assert(seq![w][0] == x);
        }
    }
}

/// Where an edge leaves `node` for a destination of at least `from`, one such edge has the
/// least destination.
proof fn lemma_least_exists(edges: Set<(u16, u16)>, node: u16, from: int, c: u16)
    requires
        c >= from,
        edges.contains((node, c)),
    ensures
        exists|d: u16| is_least_edge(edges, node, from, d),
    decreases c - from,
{
    if exists|x: u16| x >= from && x < c && edges.contains((node, x)) {
        let x = choose|x: u16| x >= from && x < c && edges.contains((node, x));
        lemma_least_exists(edges, node, from, x);
    } else {
        assert(is_least_edge(edges, node, from, c));
    }
}

/// A walk that goes on at `node` yields the destination of every edge that it has yet to
/// take, and all that the walk from that destination yields.
proof fn lemma_walk_takes_edge(edges: Set<(u16, u16)>, node: u16, from: int, depth: nat, c: u16)
    requires
        0 <= from <= c,
        depth > 0,
        edges.contains((node, c)),
    ensures
        walk_from(edges, node, from, depth).contains(c),
        forall|y: u16|
            walk_from(edges, c, 0, (depth - 1) as nat).contains(y) ==> walk_from(
                edges,
                node,
                from,
                depth,
            ).contains(y),
    decreases 0x10000 - from,
{
    lemma_least_exists(edges, node, from, c);
    let w = least_edge(edges, node, from);
    assert(is_least_edge(edges, node, from, w));
    let ahead = walk_from(edges, w, 0, (depth - 1) as nat);
    let beside = walk_from(edges, node, w + 1, depth);
    let all = walk_from(edges, node, from, depth);
    assert(all == seq![w] + ahead + beside);
    if w == c {
        assert(seq![w][0] == c);
        lemma_in_joined(seq![w], ahead, c);
        lemma_in_joined(seq![w] + ahead, beside, c);
        assert forall|y: u16| ahead.contains(y) implies all.contains(y) by {
            lemma_in_joined(seq![w], ahead, y);
            lemma_in_joined(seq![w] + ahead, beside, y);
        }
    } else {
        lemma_walk_takes_edge(edges, node, w + 1, depth, c);
        lemma_in_joined(seq![w] + ahead, beside, c);
        assert forall|y: u16| walk_from(edges, c, 0, (depth - 1) as nat).contains(y) implies all.contains(
            y,
        ) by {
            lemma_in_joined(seq![w] + ahead, beside, y);
        }
    }
}

/// A walk that may follow `depth` edges yields every node that a path of no more than
/// `depth` edges leads to.
pub proof fn lemma_walk_complete(edges: Set<(u16, u16)>, a: u16, x: u16, m: nat, depth: nat)
    requires
        steps(edges, a, x, m),
        0 < m <= depth,
    ensures
        walk(edges, a, depth).contains(x),
    decreases m,
{
    let p = lemma_path(edges, a, x, m);
    let c = p[1];
    assert(linked(edges, p, 0));
    lemma_stretch(edges, p, 1, m as int);
    lemma_walk_takes_edge(edges, a, 0, depth, c);
    if m > 1 {
        lemma_walk_complete(edges, c, x, (m - 1) as nat, (depth - 1) as nat);
    }
}

/// Ascending edges are all different.
pub proof fn lemma_ascending_distinct(s: Seq<(u16, u16)>)
    requires
        edges_ascending(s),
    ensures
        s.no_duplicates(),
{
    assert forall|i: int, j: int| 0 <= i < s.len() && 0 <= j < s.len() && i != j implies s[i] != s[j] by {
        if i < j {
            assert(edge_lt(s[i], s[j]));
        } else {
            assert(edge_lt(s[j], s[i]));
        }
    }
}

/// Two ascending sequences with the same elements are the same sequence.
proof fn lemma_ascending_unique(a: Seq<(u16, u16)>, b: Seq<(u16, u16)>)
    requires
        edges_ascending(a),
        edges_ascending(b),
        a.to_set() == b.to_set(),
    ensures
        a == b,
    decreases a.len(),
{
    if a.len() == 0 {
        if b.len() > 0 {
            assert(b.to_set().contains(b[0]));
            assert(a.to_set().contains(b[0]));
        }
        assert(a =~= b);
    } else {
        let x = a.last();
        assert(a.to_set().contains(x));
        assert(b.to_set().contains(x));
        let k = choose|k: int| 0 <= k < b.len() && b[k] == x;
        if k < b.len() - 1 {
            let y = b.last();
            assert(edge_lt(b[k], b[b.len() - 1]));
            assert(b.to_set().contains(y));
            assert(a.to_set().contains(y));
            let m = choose|m: int| 0 <= m < a.len() && a[m] == y;
            if m < a.len() - 1 {
                assert(edge_lt(a[m], a[a.len() - 1]));
            }
            assert(false);
        }
        let a0 = a.drop_last();
        let b0 = b.drop_last();
        assert forall|e: (u16, u16)| a0.to_set().contains(e) <==> b0.to_set().contains(e) by {
            if a0.contains(e) {
                let i = choose|i: int| 0 <= i < a0.len() && a0[i] == e;
                assert(edge_lt(a[i], a[a.len() - 1]));
                assert(a.to_set().contains(a[i]));
                assert(b.to_set().contains(e));
                let j = choose|j: int| 0 <= j < b.len() && b[j] == e;
                assert(b0[j] == e);
            }
            if b0.contains(e) {
                let i = choose|i: int| 0 <= i < b0.len() && b0[i] == e;
                assert(edge_lt(b[i], b[b.len() - 1]));
                assert(b.to_set().contains(b[i]));
                assert(a.to_set().contains(e));
                let j = choose|j: int| 0 <= j < a.len() && a[j] == e;
                assert(a0[j] == e);
            }
        }
        assert(a0.to_set() =~= b0.to_set());
        lemma_ascending_unique(a0, b0);
        assert(a =~= a0.push(x));
        assert(b =~= b0.push(x));
    }
}

/// `rangemap::RangeSet`, a set of integers that is stored as a list of ranges.
#[verifier::external_type_specification]
#[verifier::external_body]
#[verifier::reject_recursive_types(T)]
pub struct ExRangeSet<T>(rangemap::RangeSet<T>);

/// The integers that a range set holds.
pub uninterp spec fn range_set_members(set: rangemap::RangeSet<u16>) -> Set<u16>;

/// `rangemap::RangeSet::new`: a range set that holds nothing.
#[verifier::external_body]
fn range_set_new() -> (set: rangemap::RangeSet<u16>)
    ensures
        range_set_members(set) == Set::<u16>::empty(),
{
    rangemap::RangeSet::new()
}

/// `rangemap::RangeSet::insert` with the range `lo..hi`: the integers from `lo` up to but
/// not including `hi` join the set. The outside function panics on an empty range.
#[verifier::external_body]
fn range_set_insert(set: &mut rangemap::RangeSet<u16>, lo: u16, hi: u16)
    requires
        lo < hi,
    ensures
        range_set_members(*final(set)) == range_set_members(*old(set)).union(
            Set::new(|x: u16| lo <= x < hi),
        ),
{
    set.insert(lo..hi)
}

/// `rangemap::RangeSet::remove` with the range `lo..hi`: the integers from `lo` up to but
/// not including `hi` leave the set. The outside function panics on an empty range.
#[verifier::external_body]
fn range_set_remove(set: &mut rangemap::RangeSet<u16>, lo: u16, hi: u16)
    requires
        lo < hi,
    ensures
        range_set_members(*final(set)) == range_set_members(*old(set)).difference(
            Set::new(|x: u16| lo <= x < hi),
        ),
{
    set.remove(lo..hi)
}

/// `rangemap::RangeSet::into_iter`, each range written out: the integers of the set, each
/// once, in ascending order.
#[verifier::external_body]
fn range_set_into_vec(set: rangemap::RangeSet<u16>) -> (items: Vec<u16>)
    ensures
        nodes_ascending(items@),
        forall|x: u16| items@.contains(x) <==> range_set_members(set).contains(x),
{
    set.into_iter().flatten().collect()
}

/// With the cursor at `(node, d)`: the walk goes on with the edge at the cursor if that edge
/// leaves `node`, and has nothing left to yield from `node` if it does not.
proof fn lemma_walk_step(s: Seq<(u16, u16)>, k: int, node: u16, d: int, depth: nat)
    requires
        edges_ascending(s),
        cursor_at(s, k, node, d),
        depth > 0,
    ensures
        walk_from(s.to_set(), node, d, depth) == if k < s.len() && s[k].0 == node {
            seq![s[k].1] + walk_from(s.to_set(), s[k].1, 0, (depth - 1) as nat) + walk_from(
                s.to_set(),
                node,
                s[k].1 + 1,
                depth,
            )
        } else {
            Seq::empty()
        },
        k < s.len() && s[k].0 == node ==> cursor_at(s, k + 1, node, s[k].1 + 1),
{
    let edges = s.to_set();
    if k < s.len() && s[k].0 == node {
        let w = s[k].1;
        assert forall|i: int| k + 1 <= i < s.len() implies !below(#[trigger] s[i], node, w + 1) by {
            assert(edge_lt(s[k], s[i]));
        }
        assert forall|i: int| 0 <= i < k + 1 implies below(#[trigger] s[i], node, w + 1) by {
            if i < k {
                assert(below(s[i], node, d));
            }
        }
        assert(!below(s[k], node, d));
        assert(edges.contains(s[k]));
        assert forall|x: u16| x >= d && #[trigger] edges.contains((node, x)) implies w <= x by {
            let j = choose|j: int| 0 <= j < s.len() && s[j] == (node, x);
            if j < k {
                assert(below(s[j], node, d));
            }
            if j > k {
                assert(edge_lt(s[k], s[j]));
            }
        }
        assert(is_least_edge(edges, node, d, w));
        assert(least_edge(edges, node, d) == w);
    } else {
        assert forall|x: u16| x >= d implies !edges.contains((node, x)) by {
            if edges.contains((node, x)) {
                let j = choose|j: int| 0 <= j < s.len() && s[j] == (node, x);
                if j < k {
                    assert(below(s[j], node, d));
                }
                assert(!below(s[k], node, d));
                if j > k {
                    assert(edge_lt(s[k], s[j]));
                }
            }
        }
    }
}

/// Number of entries of `s` that are still `false`.
spec fn unseen(s: Seq<bool>) -> nat
    decreases s.len(),
{
    if s.len() == 0 {
        0
    } else {
        unseen(s.drop_last()) + if s.last() { 0nat } else { 1nat }
    }
}

/// Marking an entry leaves one entry less to mark.
proof fn lemma_unseen_mark(s: Seq<bool>, i: int)
    requires
        0 <= i < s.len(),
        !s[i],
    ensures
        unseen(s.update(i, true)) + 1 == unseen(s),
    decreases s.len(),
{
    let t = s.update(i, true);
    if i == s.len() - 1 {
        assert(t.drop_last() =~= s.drop_last());
    } else {
        assert(t.drop_last() =~= s.drop_last().update(i, true));
        lemma_unseen_mark(s.drop_last(), i);
    }
}

/// Some entry of the search stack stands at node `src` and has not yet passed edge `i`.
spec fn pending(stack: Seq<(u16, usize)>, src: u16, i: int) -> bool {
    exists|j: int| 0 <= j < stack.len() && (#[trigger] stack[j]).0 == src && stack[j].1 <= i
}

/// Every edge that leaves a marked node ends in a marked node.
spec fn closed_under(edges: Seq<(u16, u16)>, seen: Seq<bool>) -> bool {
    forall|i: int|
        0 <= i < edges.len() && seen[(#[trigger] edges[i]).0 as int] ==> seen[edges[i].1 as int]
}

/// Marks that hold `start` and follow every edge hold all that `start` reaches.
proof fn lemma_closed_holds_all(edges: Seq<(u16, u16)>, seen: Seq<bool>, start: u16, x: u16, n: nat)
    requires
        forall|i: int| 0 <= i < edges.len() ==> (#[trigger] edges[i]).0 < seen.len() && edges[i].1 < seen.len(),
        closed_under(edges, seen),
        start < seen.len(),
        seen[start as int],
        steps(edges.to_set(), start, x, n),
    ensures
        x < seen.len(),
        seen[x as int],
    decreases n,
{
    if n > 0 {
        let set = edges.to_set();
        let c = choose|c: u16| steps(set, start, c, (n - 1) as nat) && #[trigger] set.contains((c, x));
        lemma_closed_holds_all(edges, seen, start, c, (n - 1) as nat);
        let i = choose|i: int| 0 <= i < edges.len() && edges[i] == (c, x);
        assert(edges[i].0 == c);
    }
}

/// Whether `a` comes before `b`: by source, then by destination.
pub fn edge_before(a: (u16, u16), b: (u16, u16)) -> (r: bool)
    ensures
        r == edge_lt(a, b),
{
    a.0 < b.0 || (a.0 == b.0 && a.1 < b.1)
}

/// A copy of the list.
pub fn copy_edges(edges: &Vec<(u16, u16)>) -> (copy: Vec<(u16, u16)>)
    ensures
        copy@ == edges@,
{
    let mut copy: Vec<(u16, u16)> = Vec::new();
    let mut i: usize = 0;
    while i < edges.len()
        invariant
            i <= edges@.len(),
            copy@ == edges@.subrange(0, i as int),
        decreases edges@.len() - i,
    {
        copy.push(edges[i]);
        i += 1;
        assert(copy@ =~= edges@.subrange(0, i as int));
    }
    assert(copy@ =~= edges@);
    copy
}

/// Index of the first of the ascending `edges` that is not below `e`.
pub fn lower_bound(edges: &Vec<(u16, u16)>, e: (u16, u16)) -> (i: usize)
    requires
        edges_ascending(edges@),
    ensures
        i <= edges@.len(),
        forall|j: int| 0 <= j < i ==> edge_lt(#[trigger] edges@[j], e),
        forall|j: int| i <= j < edges@.len() ==> !edge_lt(#[trigger] edges@[j], e),
{
    let mut lo: usize = 0;
    let mut hi: usize = edges.len();
    while lo < hi
        invariant
            lo <= hi <= edges@.len(),
            edges_ascending(edges@),
            forall|j: int| 0 <= j < lo ==> edge_lt(#[trigger] edges@[j], e),
            forall|j: int| hi <= j < edges@.len() ==> !edge_lt(#[trigger] edges@[j], e),
        decreases hi - lo,
    {
        let mid = lo + (hi - lo) / 2;
        if edge_before(edges[mid], e) {
            assert forall|j: int| 0 <= j < mid + 1 implies edge_lt(#[trigger] edges@[j], e) by {
                if j < mid {
                    assert(edge_lt(edges@[j], edges@[mid as int]));
                }
            }
            lo = mid + 1;
        } else {
            assert forall|j: int| mid <= j < edges@.len() implies !edge_lt(#[trigger] edges@[j], e) by {
                if mid < j {
                    assert(edge_lt(edges@[mid as int], edges@[j]));
                }
            }
            hi = mid;
        }
    }
    lo
}

/// Puts `e` at its place among the ascending `edges`, unless it is there already.
pub fn insert_ascending(edges: &mut Vec<(u16, u16)>, e: (u16, u16))
    requires
        edges_ascending(old(edges)@),
    ensures
        edges_ascending(final(edges)@),
        final(edges)@.to_set() == old(edges)@.to_set().insert(e),
        forall|x: (u16, u16)| final(edges)@.contains(x) <==> old(edges)@.contains(x) || x == e,
{
    let i = lower_bound(edges, e);
    let ghost before = edges@;
    if i < edges.len() && edges[i].0 == e.0 && edges[i].1 == e.1 {
        proof {
            assert(before[i as int] == e);
            assert(before.to_set().contains(e));
            assert(before.to_set().insert(e) =~= before.to_set());
        }
        return ;
    }
    edges.insert(i, e);
    proof {
        let after = edges@;
        assert forall|a: int, b: int| 0 <= a < b < after.len() implies edge_lt(
            #[trigger] after[a],
            #[trigger] after[b],
        ) by {
            if a < i && b > i {
                assert(edge_lt(before[a], before[b - 1]));
            } else if a < i && b < i {
                assert(edge_lt(before[a], before[b]));
            } else if a < i && b == i {
                assert(edge_lt(before[a], e));
            } else if a == i {
                assert(!edge_lt(before[b - 1], e));
                assert(!edge_lt(before[i as int], e));
                if b - 1 > i {
                    assert(edge_lt(before[i as int], before[b - 1]));
                }
            } else {
                assert(edge_lt(before[a - 1], before[b - 1]));
            }
        }
        assert forall|x: (u16, u16)| after.contains(x) <==> before.contains(x) || x == e by {
            if after.contains(x) {
                let j = choose|j: int| 0 <= j < after.len() && after[j] == x;
                if j < i {
                    assert(before[j] == x);
                } else if j > i {
                    assert(before[j - 1] == x);
                }
            }
            if before.contains(x) {
                let j = choose|j: int| 0 <= j < before.len() && before[j] == x;
                if j < i {
                    assert(after[j] == x);
                } else {
                    assert(after[j + 1] == x);
                }
            }
            if x == e {
                assert(after[i as int] == x);
            }
        }
        assert(after.to_set() =~= before.to_set().insert(e));
    }
}

/// A directed graph on the nodes `0..nodes` whose edges never form a cycle.
#[derive(Debug, PartialEq, Eq, Hash)]
pub struct AcyclicGraph {
    nodes: u16,
    edges: Vec<(u16, u16)>,
}

impl Clone for AcyclicGraph {
    /// A graph with the same nodes and edges.
    fn clone(&self) -> (r: Self)
        ensures
            r.wf() == self.wf(),
            r.node_count() == self.node_count(),
            r@ == self@,
            r.same_as(self),
    {
        let edges = copy_edges(&self.edges);
        AcyclicGraph { nodes: self.nodes, edges }
    }
}

impl AcyclicGraph {
    /// The number of nodes, fixed when the graph is made.
    pub closed spec fn node_count(&self) -> u16 {
        self.nodes
    }

    /// The set of edges, each as `(source, destination)`.
    pub closed spec fn view(&self) -> Set<(u16, u16)> {
        self.edges@.to_set()
    }

    /// The edges are kept in ascending order, join nodes of the graph, and form no cycle.
    pub closed spec fn wf(&self) -> bool {
        &&& edges_ascending(self.edges@)
        &&& forall|i: int|
            0 <= i < self.edges@.len() ==> (#[trigger] self.edges@[i]).0 < self.nodes
                && self.edges@[i].1 < self.nodes
        &&& acyclic(self.edges@.to_set())
    }

    /// Two graphs are stored alike: same node count, same edges in the same order.
    pub closed spec fn same_as(&self, other: &AcyclicGraph) -> bool {
        self.nodes == other.nodes && self.edges@ == other.edges@
    }

    /// What validity means to a caller: no cycle, and every edge joins two nodes of the graph.
    pub proof fn lemma_wf(&self)
        requires
            self.wf(),
        ensures
            acyclic(self@),
            forall|a: u16, b: u16| #[trigger]
                self@.contains((a, b)) ==> a < self.node_count() && b < self.node_count(),
    {
        assert forall|a: u16, b: u16| #[trigger] self@.contains((a, b)) implies a < self.nodes && b
            < self.nodes by {
            let i = choose|i: int| 0 <= i < self.edges@.len() && self.edges@[i] == (a, b);
            assert(self.edges@[i].0 == a);
        }
    }

    /// No node of a valid graph reaches itself along one or more edges.
    pub proof fn lemma_never_cyclic(&self, a: u16, n: nat)
        requires
            self.wf(),
            n > 0,
        ensures
            !steps(self@, a, a, n),
    {
        lemma_no_round_trip(self@, a, n);
    }

    /// A path in a valid graph has fewer edges than the graph has nodes.
    pub proof fn lemma_path_is_short(&self, a: u16, b: u16, m: nat)
        requires
            self.wf(),
            steps(self@, a, b, m),
            m > 0,
        ensures
            m < self.node_count(),
    {
        self.lemma_wf();
        lemma_short_paths(self@, self.nodes as int, a, b, m);
    }

    /// The walk yields the nodes that `start` reaches along one or more edges, and no others.
    pub proof fn lemma_walk_reaches(&self, start: u16, x: u16)
        requires
            self.wf(),
        ensures
            walk(self@, start, self.node_count() as nat).contains(x) <==> reaches_beyond(self@, start, x),
    {
        if walk(self@, start, self.nodes as nat).contains(x) {
            lemma_walk_sound(self@, start, 0, self.nodes as nat, x);
        }
        if reaches_beyond(self@, start, x) {
            let m = choose|m: nat| m > 0 && steps(self@, start, x, m);
            self.lemma_path_is_short(start, x, m);
            lemma_walk_complete(self@, start, x, m, self.nodes as nat);
        }
    }

    /// At a node that a path of `k` edges leads to, a walk that may follow `d` edges yields
    /// what a walk that may follow one more yields, where `d` and `k` together are no less
    /// than the number of nodes.
    proof fn lemma_depth_to_spare(&self, y: u16, x: u16, k: nat, from: int, d: nat)
        requires
            self.wf(),
            steps(self@, y, x, k),
            0 <= from <= 0x10000,
            d + k >= self.node_count(),
        ensures
            walk_from(self@, x, from, d) == walk_from(self@, x, from, d + 1),
        decreases self.node_count() - k, 0x10000 - from,
    {
        let w = least_edge(self@, x, from);
        if w >= from && self@.contains((x, w)) {
            assert(((k + 1) - 1) as nat == k);
            assert(steps(self@, y, w, k + 1));
            self.lemma_path_is_short(y, w, k + 1);
            assert(((d + 1) - 1) as nat == d);
            self.lemma_depth_to_spare(y, w, k + 1, 0, (d - 1) as nat);
            self.lemma_depth_to_spare(y, x, k, w + 1, d);
        }
    }

    /// The walk of a valid graph comes to the end of every path: it yields the same however
    /// many edges beyond the number of nodes it may follow.
    pub proof fn lemma_walk_is_whole(&self, start: u16, depth: nat)
        requires
            self.wf(),
            depth >= self.node_count(),
        ensures
            walk(self@, start, depth) == walk(self@, start, self.node_count() as nat),
        decreases depth,
    {
        if depth > self.node_count() {
            self.lemma_walk_is_whole(start, (depth - 1) as nat);
            assert(steps(self@, start, start, 0));
            self.lemma_depth_to_spare(start, start, 0, 0, (depth - 1) as nat);
        }
    }

    /// Graphs that are stored alike have the same nodes and edges, and valid graphs with
    /// the same nodes and edges are stored alike.
    pub proof fn lemma_same_as(&self, other: &AcyclicGraph)
        ensures
            self.same_as(other) ==> self@ == other@ && self.node_count() == other.node_count(),
            self.wf() && other.wf() && self@ == other@ && self.node_count() == other.node_count()
                ==> self.same_as(other),
    {
        if self.wf() && other.wf() && self@ == other@ && self.nodes == other.nodes {
            lemma_ascending_unique(self.edges@, other.edges@);
        }
    }

    /// A graph of `nodes` nodes without edges.
    pub fn new(nodes: u16) -> (g: Self)
        ensures
            g.wf(),
            g.node_count() == nodes,
            g@ == Set::<(u16, u16)>::empty(),
    {
        let g = AcyclicGraph { nodes, edges: Vec::new() };
        assert(g.edges@.to_set() =~= Set::<(u16, u16)>::empty());
        g
    }

    /// The number of nodes.
    pub fn nodes(&self) -> (n: u16)
        ensures
            n == self.node_count(),
    {
        self.nodes
    }

    /// Whether two graphs have the same node count and the same edges.
    pub fn equals(&self, other: &AcyclicGraph) -> (r: bool)
        ensures
            r == self.same_as(other),
    {
        if self.nodes != other.nodes || self.edges.len() != other.edges.len() {
            return false;
        }
        let mut i: usize = 0;
        while i < self.edges.len()
            invariant
                i <= self.edges.len(),
                self.edges.len() == other.edges.len(),
                forall|j: int| 0 <= j < i ==> self.edges@[j] == other.edges@[j],
            decreases self.edges.len() - i,
        {
            let a = self.edges[i];
            let b = other.edges[i];
            if a.0 != b.0 || a.1 != b.1 {
                return false;
            }
            i += 1;
        }
        assert(self.edges@ =~= other.edges@);
        true
    }

    /// Marks the nodes that `start` reaches.
    fn explore(&self, start: u16) -> (seen: Vec<bool>)
        requires
            self.wf(),
            start < self.nodes,
        ensures
            seen@.len() == self.nodes,
            forall|x: u16| x < self.nodes ==> (#[trigger] seen@[x as int] <==> reachable(self@, start, x)),
    {
        let n = self.nodes as usize;
        let mut seen: Vec<bool> = Vec::new();
        while seen.len() < n
            invariant
                seen@.len() <= n,
                forall|i: int| 0 <= i < seen@.len() ==> !seen@[i],
            decreases n - seen@.len(),
        {
            seen.push(false);
        }
        seen.set(start as usize, true);
        let mut stack: Vec<(u16, usize)> = Vec::new();
        let first = lower_bound(&self.edges, (start, 0));
        stack.push((start, first));
        proof {
            lemma_reach_self(self@, start);
            assert forall|i: int|
                0 <= i < self.edges@.len() && seen@[(#[trigger] self.edges@[i]).0 as int] implies seen@[self.edges@[i].1 as int]
                || pending(stack@, self.edges@[i].0, i) by {
                if i < first {
                    assert(edge_lt(self.edges@[i], (start, 0)));
                }
                assert(stack@[0].0 == start);
            }
        }
        while stack.len() > 0
            invariant
                self.wf(),
                start < self.nodes,
                n == self.nodes,
                seen@.len() == n,
                seen@[start as int],
                forall|j: int|
                    0 <= j < stack@.len() ==> (#[trigger] stack@[j]).0 < n && seen@[stack@[j].0 as int]
                        && stack@[j].1 <= self.edges@.len(),
                forall|j: int, i: int|
                    0 <= j < stack@.len() && stack@[j].1 <= i < self.edges@.len() ==> (
                    #[trigger] self.edges@[i]).0 >= (#[trigger] stack@[j]).0,
                forall|i: int|
                    0 <= i < self.edges@.len() && seen@[(#[trigger] self.edges@[i]).0 as int]
                        ==> seen@[self.edges@[i].1 as int] || pending(stack@, self.edges@[i].0, i),
                forall|x: u16| x < n && #[trigger] seen@[x as int] ==> reachable(self@, start, x),
            decreases
                unseen(seen@),
                stack@.len(),
                if stack@.len() > 0 { self.edges@.len() - stack@.last().1 } else { 0 },
        {
            let top = stack.len() - 1;
            let u = stack[top].0;
            let k = stack[top].1;
            let ghost old_stack = stack@;
            let ghost old_seen = seen@;
            if k < self.edges.len() && self.edges[k].0 == u {
                let d = self.edges[k].1;
                stack.set(top, (u, k + 1));
                let ghost mid_stack = stack@;
                proof {
                    assert(self@.contains((u, d))) by {
                        assert(self.edges@[k as int] == (u, d));
                    }
                    assert forall|i: int, src: u16| pending(old_stack, src, i) && !(src == u && i == k) implies pending(mid_stack, src, i) by {
                        let j = choose|j: int| 0 <= j < old_stack.len() && (#[trigger] old_stack[j]).0 == src && old_stack[j].1 <= i;
                        assert(mid_stack[j].0 == src && mid_stack[j].1 <= i);
                    }
                }
                if !seen[d as usize] {
                    seen.set(d as usize, true);
                    let first = lower_bound(&self.edges, (d, 0));
                    stack.push((d, first));
                    proof {
                        lemma_unseen_mark(old_seen, d as int);
                        lemma_reach_step(self@, start, u, d);
                        assert forall|i: int, src: u16| pending(mid_stack, src, i) implies pending(stack@, src, i) by {
                            let j = choose|j: int| 0 <= j < mid_stack.len() && (#[trigger] mid_stack[j]).0 == src && mid_stack[j].1 <= i;
                            assert(stack@[j].0 == src && stack@[j].1 <= i);
                        }
                        assert forall|i: int|
                            0 <= i < self.edges@.len() && seen@[(#[trigger] self.edges@[i]).0 as int] implies seen@[self.edges@[i].1 as int]
                            || pending(stack@, self.edges@[i].0, i) by {
                            let e = self.edges@[i];
                            if e.0 == d {
                                if i < first {
                                    assert(edge_lt(self.edges@[i], (d, 0)));
                                }
                                assert(stack@[stack@.len() - 1].0 == d);
                                assert(pending(stack@, d, i));
                            } else {
                                assert(old_seen[e.0 as int]);
                                if !old_seen[e.1 as int] && !(e.0 == u && i == k) {
                                    assert(pending(old_stack, e.0, i));
                                }
                            }
                        }
                        assert forall|j: int, i: int|
                            0 <= j < stack@.len() && stack@[j].1 <= i < self.edges@.len() implies (
                            #[trigger] self.edges@[i]).0 >= (#[trigger] stack@[j]).0 by {
                            if j == stack@.len() - 1 {
                                assert(!edge_lt(self.edges@[i], (d, 0)));
                            } else if j == top {
                                assert(old_stack[j].1 <= i);
                            } else {
                                assert(old_stack[j] == stack@[j]);
                            }
                        }
                    }
                } else {
                    proof {
                        assert forall|i: int|
                            0 <= i < self.edges@.len() && seen@[(#[trigger] self.edges@[i]).0 as int] implies seen@[self.edges@[i].1 as int]
                            || pending(stack@, self.edges@[i].0, i) by {
                            let e = self.edges@[i];
                            if !seen@[e.1 as int] {
                                assert(pending(old_stack, e.0, i));
                            }
                        }
                        assert forall|j: int, i: int|
                            0 <= j < stack@.len() && stack@[j].1 <= i < self.edges@.len() implies (
                            #[trigger] self.edges@[i]).0 >= (#[trigger] stack@[j]).0 by {
                            if j == top {
                                assert(old_stack[j].1 <= i);
                            } else {
                                assert(old_stack[j] == stack@[j]);
                            }
                        }
                    }
                }
            } else {
                stack.pop();
                proof {
                    assert forall|i: int|
                        0 <= i < self.edges@.len() && seen@[(#[trigger] self.edges@[i]).0 as int] implies seen@[self.edges@[i].1 as int]
                        || pending(stack@, self.edges@[i].0, i) by {
                        let e = self.edges@[i];
                        if !seen@[e.1 as int] {
                            assert(pending(old_stack, e.0, i));
                            let j = choose|j: int| 0 <= j < old_stack.len() && (#[trigger] old_stack[j]).0 == e.0 && old_stack[j].1 <= i;
                            if j == top {
                                assert(self.edges@[k as int].0 >= old_stack[top as int].0);
                                if i > k {
                                    assert(edge_lt(self.edges@[k as int], self.edges@[i]));
                                }
                                assert(false);
                            }
                            assert(stack@[j] == old_stack[j]);
                        }
                    }
                    assert forall|j: int, i: int|
                        0 <= j < stack@.len() && stack@[j].1 <= i < self.edges@.len() implies (
                        #[trigger] self.edges@[i]).0 >= (#[trigger] stack@[j]).0 by {
                        assert(old_stack[j] == stack@[j]);
                    }
                }
            }
        }
        proof {
            assert(closed_under(self.edges@, seen@)) by {
                assert forall|i: int|
                    0 <= i < self.edges@.len() && seen@[(#[trigger] self.edges@[i]).0 as int] implies seen@[self.edges@[i].1 as int] by {
                    if pending(stack@, self.edges@[i].0, i) {
                    }
                }
            }
            assert forall|x: u16| x < self.nodes && reachable(self@, start, x) implies seen@[x as int] by {
                let m = choose|m: nat| steps(self@, start, x, m);
                lemma_closed_holds_all(self.edges@, seen@, start, x, m);
            }
        }
        seen
    }

    /// The depth-first walk from `start`: from the node last yielded it takes the edge with
    /// the least destination; where there is none it goes back along its path to the
    /// nearest node with an edge to a larger destination than the one taken. It yields a
    /// node once for every path that leads to it from `start`.
    pub fn dfs(&self, start: u16) -> (order: Vec<u16>)
        requires
            self.wf(),
        ensures
            order@ == walk(self@, start, self.node_count() as nat),
    {
        let n = self.nodes as usize;
        let mut order: Vec<u16> = Vec::new();
        let mut stack: Vec<(u16, usize)> = Vec::new();
        let first = lower_bound(&self.edges, (start, 0));
        stack.push((start, first));
        let ghost mut path: Seq<(u16, int)> = seq![(start, 0int)];
        proof {
            assert(path.drop_last() =~= Seq::<(u16, int)>::empty());
            assert(path.last() == (start, 0int));
            assert(rest_of_walk(self@, path.drop_last(), n as nat) =~= Seq::<u16>::empty());
            assert(rest_of_walk(self@, path, n as nat) =~= walk_from(self@, start, 0, n as nat));
            assert(order@ + rest_of_walk(self@, path, n as nat) =~= walk(self@, start, n as nat));
        }
        while stack.len() > 0
            invariant
                self.wf(),
                n == self.nodes,
                stack@.len() == path.len(),
                path.len() <= n + 1,
                forall|j: int|
                    0 <= j < path.len() ==> (#[trigger] stack@[j]).0 == path[j].0 && cursor_at(
                        self.edges@,
                        stack@[j].1 as int,
                        path[j].0,
                        path[j].1,
                    ),
                order@ + rest_of_walk(self@, path, n as nat) == walk(self@, start, n as nat),
            decreases 2 * rest_of_walk(self@, path, n as nat).len() + stack@.len(),
        {
            let top = stack.len() - 1;
            let node = stack[top].0;
            let k = stack[top].1;
            let depth = n - top;
            let ghost d = path[top as int].1;
            let ghost lower = path.drop_last();
            let ghost yielded = order@;
            proof {
                assert(path.last() == path[top as int]);
                if depth > 0 {
                    lemma_walk_step(self.edges@, k as int, node, d, depth as nat);
                }
            }
            if depth > 0 && k < self.edges.len() && self.edges[k].0 == node {
                let dst = self.edges[k].1;
                stack.set(top, (node, k + 1));
                let first = lower_bound(&self.edges, (dst, 0));
                stack.push((dst, first));
                order.push(dst);
                proof {
                    let stays = lower.push((node, dst + 1));
                    path = stays.push((dst, 0int));
                    assert(path.drop_last() =~= stays);
                    assert(stays.drop_last() =~= lower);
                    let ahead = walk_from(self@, dst, 0, (depth - 1) as nat);
                    let beside = walk_from(self@, node, dst + 1, depth as nat);
                    let behind = rest_of_walk(self@, lower, n as nat);
                    assert(rest_of_walk(self@, stays, n as nat) == beside + behind);
                    assert(rest_of_walk(self@, path, n as nat) == ahead + (beside + behind));
                    assert(order@ + (ahead + (beside + behind)) =~= yielded + ((seq![dst] + ahead + beside)
                        + behind));
                    assert forall|j: int| 0 <= j < path.len() implies (#[trigger] stack@[j]).0 == path[j].0
                        && cursor_at(self.edges@, stack@[j].1 as int, path[j].0, path[j].1) by {
                        if j < top {
                            assert(path[j] == lower[j]);
                        } else if j > top {
                            assert forall|i: int| 0 <= i < first implies below(
                                #[trigger] self.edges@[i],
                                dst,
                                0,
                            ) by {
                                assert(edge_lt(self.edges@[i], (dst, 0)));
                            }
                            assert forall|i: int| first <= i < self.edges@.len() implies !below(
                                #[trigger] self.edges@[i],
                                dst,
                                0,
                            ) by {
                                assert(!edge_lt(self.edges@[i], (dst, 0)));
                            }
                        }
                    }
                }
            } else {
                stack.pop();
                proof {
                    path = lower;
                }
            }
        }
        proof {
            assert(order@ + Seq::<u16>::empty() =~= order@);
        }
        order
    }

    /// Adds the edge `src -> dst` unless it would close a cycle, that is unless `dst` already
    /// reaches `src`, which is to say unless the walk from `dst` yields `src`. Says whether
    /// the edge is in the graph afterwards.
    pub fn try_add_edge(&mut self, src: u16, dst: u16) -> (added: bool)
        requires
            old(self).wf(),
            src < old(self).node_count(),
            dst < old(self).node_count(),
        ensures
            final(self).wf(),
            final(self).node_count() == old(self).node_count(),
            added == (src != dst && !reachable(old(self)@, dst, src)),
            added == (src != dst && !walk(old(self)@, dst, old(self).node_count() as nat).contains(src)),
            final(self)@ == offer(old(self)@, (src, dst)),
            final(self)@ == if added { old(self)@.insert((src, dst)) } else { old(self)@ },
    {
        if src == dst {
            return false;
        }
        proof {
            self.lemma_walk_reaches(dst, src);
            if reachable(self@, dst, src) {
                let m = choose|m: nat| steps(self@, dst, src, m);
                assert(m > 0);
            }
        }
        let seen = self.explore(dst);
        if seen[src as usize] {
            return false;
        }
        let ghost before = self.edges@;
        insert_ascending(&mut self.edges, (src, dst));
        proof {
            let after = self.edges@;
            assert forall|j: int| 0 <= j < after.len() implies (#[trigger] after[j]).0 < self.nodes
                && after[j].1 < self.nodes by {
                assert(after.contains(after[j]));
                if after[j] != (src, dst) {
                    let k = choose|k: int| 0 <= k < before.len() && before[k] == after[j];
                    assert(before[k].0 < self.nodes);
                }
            }
            lemma_offer_keeps_acyclic(before.to_set(), src, dst);
        }
        true
    }

    /// The nodes that no edge points at, in ascending order.
    pub fn roots(&self) -> (r: Vec<u16>)
        requires
            self.wf(),
        ensures
            nodes_ascending(r@),
            forall|x: u16| r@.contains(x) <==> x < self.node_count() && is_root(self@, x),
    {
        let mut elements = range_set_new();
        if self.nodes > 0 {
            range_set_insert(&mut elements, 0, self.nodes);
            let mut i: usize = 0;
            while i < self.edges.len()
                invariant
                    self.wf(),
                    i <= self.edges@.len(),
                    forall|x: u16|
                        range_set_members(elements).contains(x) <==> x < self.nodes && forall|j: int|
                            0 <= j < i ==> (#[trigger] self.edges@[j]).1 != x,
                decreases self.edges@.len() - i,
            {
                let d = self.edges[i].1;
                range_set_remove(&mut elements, d, d + 1);
                i += 1;
            }
        }
        let r = range_set_into_vec(elements);
        proof {
            assert forall|x: u16| r@.contains(x) <==> x < self.nodes && is_root(self@, x) by {
                if x < self.nodes && is_root(self@, x) {
                    assert forall|j: int| 0 <= j < self.edges@.len() implies (#[trigger] self.edges@[j]).1 != x by {
                        assert(self@.contains(self.edges@[j]));
                        assert(!self@.contains((self.edges@[j].0, x)));
                    }
                }
                if r@.contains(x) {
                    assert forall|a: u16| !self@.contains((a, x)) by {
                        if self@.contains((a, x)) {
                            let j = choose|j: int| 0 <= j < self.edges@.len() && self.edges@[j] == (a, x);
                            assert(self.edges@[j].1 == x);
                        }
                    }
                }
            }
        }
        r
    }

    /// The destinations of the edges that leave `src`, in ascending order.
    pub fn outgoing(&self, src: u16) -> (out: Vec<u16>)
        requires
            self.wf(),
        ensures
            nodes_ascending(out@),
            forall|d: u16| out@.contains(d) <==> self@.contains((src, d)),
    {
        let first = lower_bound(&self.edges, (src, 0));
        let mut out: Vec<u16> = Vec::new();
        let mut k: usize = first;
        while k < self.edges.len() && self.edges[k].0 == src
            invariant
                first <= k <= self.edges@.len(),
                edges_ascending(self.edges@),
                out@.len() == k - first,
                forall|j: int| first <= j < k ==> (#[trigger] self.edges@[j]).0 == src,
                forall|j: int| 0 <= j < out@.len() ==> #[trigger] out@[j] == self.edges@[first + j].1,
            decreases self.edges@.len() - k,
        {
            out.push(self.edges[k].1);
            k += 1;
        }
        proof {
            assert forall|i: int, j: int| 0 <= i < j < out@.len() implies #[trigger] out@[i]
                < #[trigger] out@[j] by {
                assert(edge_lt(self.edges@[first + i], self.edges@[first + j]));
            }
            assert forall|d: u16| out@.contains(d) <==> self@.contains((src, d)) by {
                if out@.contains(d) {
                    let j = choose|j: int| 0 <= j < out@.len() && out@[j] == d;
                    assert(self.edges@[first + j] == (src, d));
                }
                if self@.contains((src, d)) {
                    let i = choose|i: int| 0 <= i < self.edges@.len() && self.edges@[i] == (src, d);
                    if i < first {
                        assert(edge_lt(self.edges@[i], (src, 0)));
                    }
                    if i >= k {
                        assert(!edge_lt(self.edges@[k as int], (src, 0)));
                        if i > k {
                            assert(edge_lt(self.edges@[k as int], self.edges@[i]));
                        }
                    }
                    assert(out@[i - first] == d);
                }
            }
        }
        out
    }
}

} // verus!
