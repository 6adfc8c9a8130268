//! The search through every order in which contests of equal margin can be locked in.

use crate::graph::{
    acyclic, is_root, lemma_last_edge, lemma_offer_keeps_acyclic, lemma_some_root, nodes_ascending,
    offer, reachable, steps, within, AcyclicGraph,
};
use itertools::Itertools;
use std::collections::BTreeSet;
use vstd::prelude::*;

verus! {

/// The edge set after the edges of `order` were offered to it one after the other.
pub open spec fn lock_in(edges: Set<(u16, u16)>, order: Seq<(u16, u16)>) -> Set<(u16, u16)>
    decreases order.len(),
{
    if order.len() == 0 {
        edges
    } else {
        lock_in(offer(edges, order[0]), order.drop_first())
    }
}

/// `order` lists the pairs of `group`, each once.
pub open spec fn arranges(order: Seq<(u16, u16)>, group: Set<(u16, u16)>) -> bool {
    order.no_duplicates() && order.to_set() == group
}

/// Every edge set that comes of one of `before` by locking in `group` in some order.
pub open spec fn extend_all(before: Set<Set<(u16, u16)>>, group: Set<(u16, u16)>) -> Set<Set<(u16, u16)>> {
    Set::new(
        |g: Set<(u16, u16)>|
            exists|prev: Set<(u16, u16)>, order: Seq<(u16, u16)>|
                before.contains(prev) && arranges(order, group) && g == #[trigger] lock_in(prev, order),
    )
}

/// Every edge set that can stand once all groups with a margin above `floor` are locked
/// in, from the largest margin down, each group in every order.
pub open spec fn outcomes(groups: Map<int, Set<(u16, u16)>>, floor: int) -> Set<Set<(u16, u16)>>
    decreases usize::MAX - floor,
{
    if floor >= usize::MAX {
        set![Set::<(u16, u16)>::empty()]
    } else {
        extend_all(outcomes(groups, floor + 1), groups[floor + 1])
    }
}

/// A candidate wins when some way to resolve every tie leaves no one ahead of them.
pub open spec fn is_winner(groups: Map<int, Set<(u16, u16)>>, candidates: u16, c: u16) -> bool {
    c < candidates && exists|g: Set<(u16, u16)>| #[trigger] outcomes(groups, 0).contains(g) && is_root(g, c)
}

/// The set of winners.
pub open spec fn winners(groups: Map<int, Set<(u16, u16)>>, candidates: u16) -> Set<u16> {
    Set::new(|c: u16| is_winner(groups, candidates, c))
}

/// One of the graphs has the edge set `g`.
pub open spec fn holds(graphs: Seq<AcyclicGraph>, g: Set<(u16, u16)>) -> bool {
    exists|k: int| 0 <= k < graphs.len() && (#[trigger] graphs[k])@ == g
}

/// `g` comes of one of the first `upto` graphs by locking in the pairs of `items` in some
/// order.
pub open spec fn made_from(graphs: Seq<AcyclicGraph>, items: Seq<(u16, u16)>, upto: int, g: Set<(u16, u16)>) -> bool {
    exists|a: int, order: Seq<(u16, u16)>|
        0 <= a < upto && arranges(order, items.to_set()) && g == #[trigger] lock_in(graphs[a]@, order)
}

/// `g` comes of `edges` by locking in one of the first `t` of the orders.
pub open spec fn made_by_first(edges: Set<(u16, u16)>, orders: Seq<Seq<(u16, u16)>>, t: int, g: Set<(u16, u16)>) -> bool {
    exists|j: int| 0 <= j < t && g == lock_in(edges, #[trigger] orders[j])
}

/// `itertools::structs::Permutations`, the iterator that hands out the orders one by one.
#[verifier::external_type_specification]
#[verifier::external_body]
#[verifier::reject_recursive_types(I)]
pub struct ExPermutations<I: Iterator>(itertools::structs::Permutations<I>);

/// The orders that the iterator has yet to hand out, the next one first.
pub uninterp spec fn orders_left(
    it: itertools::structs::Permutations<std::vec::IntoIter<(u16, u16)>>,
) -> Seq<Seq<(u16, u16)>>;

/// `itertools::Itertools::permutations` over all of `items`: each order that the iterator
/// will hand out holds the items rearranged, and every rearrangement of the items is among
/// them.
#[verifier::external_body]
fn start_orders(items: &Vec<(u16, u16)>) -> (it: itertools::structs::Permutations<
    std::vec::IntoIter<(u16, u16)>,
>)
    ensures
        forall|i: int|
            0 <= i < orders_left(it).len() ==> (#[trigger] orders_left(it)[i]).to_multiset()
                == items@.to_multiset(),
        forall|s: Seq<(u16, u16)>| #[trigger]
            s.to_multiset() == items@.to_multiset() ==> exists|i: int|
                0 <= i < orders_left(it).len() && #[trigger] orders_left(it)[i] == s,
{
    items.clone().into_iter().permutations(items.len())
}

/// `Iterator::next` of `itertools::structs::Permutations`: hands out the next order, if one
/// is left, and goes on to the one after it.
#[verifier::external_body]
fn next_order(it: &mut itertools::structs::Permutations<std::vec::IntoIter<(u16, u16)>>) -> (next: Option<
    Vec<(u16, u16)>,
>)
    ensures
        match next {
            Some(order) => orders_left(*old(it)).len() > 0 && order@ == orders_left(*old(it))[0]
                && orders_left(*final(it)) == orders_left(*old(it)).drop_first(),
            None => orders_left(*old(it)).len() == 0 && orders_left(*final(it)).len() == 0,
        },
{
    it.next()
}

/// A list without repeats is a rearrangement of `items` exactly when it lists the same pairs.
pub proof fn lemma_rearranged(items: Seq<(u16, u16)>, s: Seq<(u16, u16)>)
    requires
        items.no_duplicates(),
    ensures
        s.to_multiset() == items.to_multiset() <==> arranges(s, items.to_set()),
{
    broadcast use vstd::seq_lib::group_to_multiset_ensures;

    items.lemma_multiset_has_no_duplicates();
    if s.to_multiset() == items.to_multiset() {
        s.lemma_multiset_has_no_duplicates_conv();
        assert forall|x: (u16, u16)| s.contains(x) <==> items.contains(x) by {
            assert(s.contains(x) <==> s.to_multiset().count(x) > 0);
            assert(items.contains(x) <==> items.to_multiset().count(x) > 0);
        }
        assert(s.to_set() =~= items.to_set());
    }
    if arranges(s, items.to_set()) {
        s.lemma_multiset_has_no_duplicates();
        assert forall|x: (u16, u16)| s.to_multiset().count(x) == items.to_multiset().count(x) by {
            assert(s.contains(x) <==> s.to_multiset().count(x) > 0);
            assert(items.contains(x) <==> items.to_multiset().count(x) > 0);
            assert(s.to_set().contains(x) <==> items.to_set().contains(x));
        }
        assert(s.to_multiset() =~= items.to_multiset());
    }
}

/// Offers the edges of `order` to a copy of `graph`, one after the other, and skips each
/// that would close a cycle.
pub fn lock(graph: &AcyclicGraph, order: &Vec<(u16, u16)>) -> (h: AcyclicGraph)
    requires
        graph.wf(),
        forall|j: int|
            0 <= j < order@.len() ==> (#[trigger] order@[j]).0 < graph.node_count() && order@[j].1
                < graph.node_count(),
    ensures
        h.wf(),
        h.node_count() == graph.node_count(),
        h@ == lock_in(graph@, order@),
{
    let mut h = graph.clone();
    let mut j: usize = 0;
    assert(order@.subrange(0, order@.len() as int) =~= order@);
    while j < order.len()
        invariant
            j <= order@.len(),
            h.wf(),
            h.node_count() == graph.node_count(),
            forall|j: int|
                0 <= j < order@.len() ==> (#[trigger] order@[j]).0 < graph.node_count()
                    && order@[j].1 < graph.node_count(),
            lock_in(graph@, order@) == lock_in(h@, order@.subrange(j as int, order@.len() as int)),
        decreases order@.len() - j,
    {
        let e = order[j];
        proof {
            let rest = order@.subrange(j as int, order@.len() as int);
            assert(rest[0] == e);
            assert(rest.drop_first() =~= order@.subrange(j + 1, order@.len() as int));
        }
        h.try_add_edge(e.0, e.1);
        j += 1;
    }
    h
}

/// Whether the list holds a graph with the nodes and edges of `g`.
fn listed(list: &Vec<AcyclicGraph>, g: &AcyclicGraph) -> (found: bool)
    ensures
        found == exists|k: int| 0 <= k < list@.len() && (#[trigger] list@[k]).same_as(g),
{
    let mut k: usize = 0;
    while k < list.len()
        invariant
            k <= list@.len(),
            forall|i: int| 0 <= i < k ==> !(#[trigger] list@[i]).same_as(g),
        decreases list@.len() - k,
    {
        if list[k].equals(g) {
            return true;
        }
        k += 1;
    }
    false
}

/// Takes every graph through every order of the pairs of `items`, and keeps each graph
/// that comes out once.
pub fn branch(graphs: &Vec<AcyclicGraph>, items: &Vec<(u16, u16)>, candidates: u16) -> (next: Vec<AcyclicGraph>)
    requires
        forall|k: int|
            0 <= k < graphs@.len() ==> (#[trigger] graphs@[k]).wf() && graphs@[k].node_count()
                == candidates,
        items@.no_duplicates(),
        forall|j: int| 0 <= j < items@.len() ==> (#[trigger] items@[j]).0 < candidates && items@[j].1 < candidates,
    ensures
        forall|k: int|
            0 <= k < next@.len() ==> (#[trigger] next@[k]).wf() && next@[k].node_count()
                == candidates,
        forall|g: Set<(u16, u16)>| holds(next@, g) <==> made_from(graphs@, items@, graphs@.len() as int, g),
        forall|k: int, l: int| 0 <= k < l < next@.len() ==> (#[trigger] next@[k])@ != (#[trigger] next@[l])@,
{
    let mut next: Vec<AcyclicGraph> = Vec::new();
    let mut a: usize = 0;
    proof {
        assert forall|g: Set<(u16, u16)>| holds(next@, g) <==> made_from(graphs@, items@, 0, g) by {}
    }
    while a < graphs.len()
        invariant
            a <= graphs@.len(),
            forall|k: int|
                0 <= k < graphs@.len() ==> (#[trigger] graphs@[k]).wf() && graphs@[k].node_count()
                    == candidates,
            items@.no_duplicates(),
            forall|j: int| 0 <= j < items@.len() ==> (#[trigger] items@[j]).0 < candidates && items@[j].1 < candidates,
            forall|k: int|
                0 <= k < next@.len() ==> (#[trigger] next@[k]).wf() && next@[k].node_count()
                    == candidates,
            forall|g: Set<(u16, u16)>| holds(next@, g) <==> made_from(graphs@, items@, a as int, g),
            forall|k: int, l: int| 0 <= k < l < next@.len() ==> (#[trigger] next@[k])@ != (#[trigger] next@[l])@,
        decreases graphs@.len() - a,
    {
        let ghost from = graphs@[a as int]@;
        let mut it = start_orders(items);
        let ghost all = orders_left(it);
        let mut current = next_order(&mut it);
        let ghost mut t: int = 0;
        proof {
            if current.is_some() {
                assert(all.drop_first() =~= all.subrange(1, all.len() as int));
            }
        }
        while current.is_some()
            invariant
                a < graphs@.len(),
                from == graphs@[a as int]@,
                forall|k: int|
                    0 <= k < graphs@.len() ==> (#[trigger] graphs@[k]).wf() && graphs@[k].node_count()
                        == candidates,
                forall|j: int| 0 <= j < items@.len() ==> (#[trigger] items@[j]).0 < candidates && items@[j].1 < candidates,
                forall|i: int| 0 <= i < all.len() ==> (#[trigger] all[i]).to_multiset() == items@.to_multiset(),
                0 <= t <= all.len(),
                match current {
                    Some(order) => t < all.len() && order@ == all[t] && orders_left(it) == all.subrange(
                        t + 1,
                        all.len() as int,
                    ),
                    None => t == all.len(),
                },
                forall|k: int|
                    0 <= k < next@.len() ==> (#[trigger] next@[k]).wf() && next@[k].node_count()
                        == candidates,
                forall|g: Set<(u16, u16)>|
                    holds(next@, g) <==> made_from(graphs@, items@, a as int, g) || made_by_first(from, all, t, g),
                forall|k: int, l: int| 0 <= k < l < next@.len() ==> (#[trigger] next@[k])@ != (#[trigger] next@[l])@,
            decreases all.len() - t,
        {
            let order = current.unwrap();
            proof {
                broadcast use vstd::seq_lib::group_to_multiset_ensures;

                assert forall|j: int| 0 <= j < order@.len() implies (#[trigger] order@[j]).0 < candidates
                    && order@[j].1 < candidates by {
                    let e = order@[j];
                    assert(order@.contains(e));
                    assert(order@.to_multiset().count(e) > 0);
                    assert(items@.to_multiset().count(e) > 0);
                    assert(items@.contains(e));
                    let i = choose|i: int| 0 <= i < items@.len() && items@[i] == e;
                    assert(items@[i].0 < candidates);
                }
            }
            let h = lock(&graphs[a], &order);
            let ghost before = next@;
            let ghost made = lock_in(from, all[t]);
            let found = listed(&next, &h);
            if !found {
                next.push(h);
            }
            current = next_order(&mut it);
            proof {
                if current.is_some() {
                    assert(all.subrange(t + 1, all.len() as int).drop_first() =~= all.subrange(
                        t + 2,
                        all.len() as int,
                    ));
                }
                if found {
                    let i = choose|i: int| 0 <= i < before.len() && (#[trigger] before[i]).same_as(&h);
                    before[i].lemma_same_as(&h);
                    assert(holds(next@, made));
                } else {
                    assert(next@[next@.len() - 1]@ == made);
                    assert forall|i: int| 0 <= i < before.len() implies (#[trigger] before[i])@ != made by {
                        before[i].lemma_same_as(&h);
                    }
                    assert forall|i: int, l: int| 0 <= i < l < next@.len() implies (#[trigger] next@[i])@ != (
                    #[trigger] next@[l])@ by {
                        if l < before.len() {
                            assert(before[i]@ != before[l]@);
                        } else {
                            assert(before[i]@ != made);
                        }
                    }
                }
                assert forall|g: Set<(u16, u16)>|
                    holds(next@, g) <==> made_from(graphs@, items@, a as int, g) || made_by_first(
                        from,
                        all,
                        t + 1,
                        g,
                    ) by {
                    assert(holds(before, g) <==> made_from(graphs@, items@, a as int, g) || made_by_first(
                        from,
                        all,
                        t,
                        g,
                    ));
                    if holds(next@, g) {
                        let i = choose|i: int| 0 <= i < next@.len() && (#[trigger] next@[i])@ == g;
                        if i < before.len() {
                            assert(before[i]@ == g);
                            assert(holds(before, g));
                            if made_by_first(from, all, t, g) {
                                let j = choose|j: int| 0 <= j < t && g == lock_in(from, #[trigger] all[j]);
                                assert(made_by_first(from, all, t + 1, g));
                            }
                        } else {
                            assert(g == lock_in(from, all[t]));
                            assert(made_by_first(from, all, t + 1, g));
                        }
                    }
                    if made_by_first(from, all, t + 1, g) {
                        let j = choose|j: int| 0 <= j < t + 1 && g == lock_in(from, #[trigger] all[j]);
                        if j == t {
                            assert(holds(next@, g));
                        } else {
                            assert(made_by_first(from, all, t, g));
                        }
                    }
                    if holds(before, g) {
                        let i = choose|i: int| 0 <= i < before.len() && (#[trigger] before[i])@ == g;
                        assert(next@[i]@ == g);
                    }
                }
                t = t + 1;
            }
        }
        proof {
            assert forall|g: Set<(u16, u16)>| holds(next@, g) <==> made_from(graphs@, items@, a + 1, g) by {
                assert(holds(next@, g) <==> made_from(graphs@, items@, a as int, g) || made_by_first(
                    from,
                    all,
                    all.len() as int,
                    g,
                ));
                if made_by_first(from, all, all.len() as int, g) {
                    let j = choose|j: int| 0 <= j < all.len() && g == lock_in(from, #[trigger] all[j]);
                    lemma_rearranged(items@, all[j]);
                    assert(g == lock_in(graphs@[a as int]@, all[j]));
                }
                if made_from(graphs@, items@, a as int, g) {
                    let (i, order) = choose|i: int, order: Seq<(u16, u16)>|
                        0 <= i < a && arranges(order, items@.to_set()) && g == #[trigger] lock_in(
                            graphs@[i]@,
                            order,
                        );
                    assert(made_from(graphs@, items@, a + 1, g));
                }
                if made_from(graphs@, items@, a + 1, g) {
                    let (i, order) = choose|i: int, order: Seq<(u16, u16)>|
                        0 <= i < a + 1 && arranges(order, items@.to_set()) && g == #[trigger] lock_in(
                            graphs@[i]@,
                            order,
                        );
                    if i == a {
                        lemma_rearranged(items@, order);
                        let j = choose|j: int| 0 <= j < all.len() && #[trigger] all[j] == order;
                        assert(made_by_first(from, all, all.len() as int, g));
                    } else {
                        assert(made_from(graphs@, items@, a as int, g));
                    }
                }
            }
        }
        a += 1;
    }
    next
}

/// One of the first `upto` graphs has `c` as a root.
pub open spec fn root_among(graphs: Seq<AcyclicGraph>, upto: int, c: u16) -> bool {
    exists|k: int| 0 <= k < upto && is_root((#[trigger] graphs[k])@, c)
}

/// The candidates that are a root of at least one of the graphs, in ascending order.
pub fn union_of_roots(graphs: &Vec<AcyclicGraph>, candidates: u16) -> (winners: Vec<u16>)
    requires
        forall|k: int|
            0 <= k < graphs@.len() ==> (#[trigger] graphs@[k]).wf() && graphs@[k].node_count()
                == candidates,
    ensures
        nodes_ascending(winners@),
        forall|c: u16|
            winners@.contains(c) <==> c < candidates && root_among(graphs@, graphs@.len() as int, c),
{
    let n = candidates as usize;
    let mut marks: Vec<bool> = Vec::new();
    while marks.len() < n
        invariant
            marks@.len() <= n,
            forall|i: int| 0 <= i < marks@.len() ==> !marks@[i],
        decreases n - marks@.len(),
    {
        marks.push(false);
    }
    let mut k: usize = 0;
    while k < graphs.len()
        invariant
            k <= graphs@.len(),
            n == candidates,
            marks@.len() == n,
            forall|k: int|
                0 <= k < graphs@.len() ==> (#[trigger] graphs@[k]).wf() && graphs@[k].node_count()
                    == candidates,
            forall|c: u16| c < candidates ==> (#[trigger] marks@[c as int] <==> root_among(graphs@, k as int, c)),
        decreases graphs@.len() - k,
    {
        let roots = graphs[k].roots();
        let mut t: usize = 0;
        while t < roots.len()
            invariant
                t <= roots@.len(),
                k < graphs@.len(),
                n == candidates,
                marks@.len() == n,
                forall|x: u16| roots@.contains(x) <==> x < candidates && is_root(graphs@[k as int]@, x),
                forall|c: u16|
                    c < candidates ==> (#[trigger] marks@[c as int] <==> root_among(graphs@, k as int, c)
                        || exists|i: int| 0 <= i < t && roots@[i] == c),
            decreases roots@.len() - t,
        {
            let x = roots[t];
            assert(roots@.contains(x));
            let ghost before = marks@;
            marks.set(x as usize, true);
            proof {
                assert forall|c: u16| c < candidates implies (#[trigger] marks@[c as int] <==> root_among(
                    graphs@,
                    k as int,
                    c,
                ) || exists|i: int| 0 <= i < t + 1 && roots@[i] == c) by {
                    if c != x {
                        assert(marks@[c as int] == before[c as int]);
                        if exists|i: int| 0 <= i < t + 1 && roots@[i] == c {
                            let i = choose|i: int| 0 <= i < t + 1 && roots@[i] == c;
                            assert(0 <= i < t && roots@[i] == c);
                        }
                    } else {
                        assert(roots@[t as int] == c);
                    }
                }
            }
            t += 1;
        }
        proof {
            assert forall|c: u16| c < candidates implies (#[trigger] marks@[c as int] <==> root_among(
                graphs@,
                k + 1,
                c,
            )) by {
                if marks@[c as int] && !root_among(graphs@, k as int, c) {
                    let i = choose|i: int| 0 <= i < t && roots@[i] == c;
                    assert(roots@.contains(c));
                    assert(is_root(graphs@[k as int]@, c));
                }
                if root_among(graphs@, k + 1, c) {
                    let j = choose|j: int| 0 <= j < k + 1 && is_root((#[trigger] graphs@[j])@, c);
                    if j == k {
                        assert(roots@.contains(c));
                        let i = choose|i: int| 0 <= i < roots@.len() && roots@[i] == c;
                        assert(0 <= i < t && roots@[i] == c);
                    } else {
                        assert(root_among(graphs@, k as int, c));
                    }
                }
            }
        }
        k += 1;
    }
    let mut winners: Vec<u16> = Vec::new();
    let mut c: u16 = 0;
    while c < candidates
        invariant
            c <= candidates,
            marks@.len() == candidates,
            nodes_ascending(winners@),
            forall|i: int| 0 <= i < winners@.len() ==> winners@[i] < c,
            forall|x: u16| winners@.contains(x) <==> x < c && marks@[x as int],
        decreases candidates - c,
    {
        if marks[c as usize] {
            let ghost before = winners@;
            winners.push(c);
            proof {
                assert forall|x: u16| winners@.contains(x) <==> x < c + 1 && marks@[x as int] by {
                    if winners@.contains(x) {
                        let i = choose|i: int| 0 <= i < winners@.len() && winners@[i] == x;
                        if i < before.len() {
                            assert(before[i] == x);
                            assert(before.contains(x));
                        }
                    }
                    if x < c + 1 && marks@[x as int] {
                        if x == c {
                            assert(winners@[winners@.len() - 1] == x);
                        } else {
                            assert(before.contains(x));
                            let i = choose|i: int| 0 <= i < before.len() && before[i] == x;
                            assert(winners@[i] == x);
                        }
                    }
                }
            }
        }
        c += 1;
    }
    winners
}

/// The candidates of the list as a set.
pub fn gather(items: &Vec<u16>) -> (set: BTreeSet<u16>)
    ensures
        set@ == items@.to_set(),
{
    broadcast use vstd::laws_cmp::group_laws_cmp;

    let mut set: BTreeSet<u16> = BTreeSet::new();
    let mut i: usize = 0;
    while i < items.len()
        invariant
            i <= items@.len(),
            forall|x: u16| set@.contains(x) <==> exists|j: int| 0 <= j < i && items@[j] == x,
        decreases items@.len() - i,
    {
        let x = items[i];
        let ghost before = set@;
        set.insert(x);
        proof {
            assert forall|y: u16| set@.contains(y) <==> exists|j: int| 0 <= j < i + 1 && items@[j] == y by {
                if before.contains(y) {
                    let j = choose|j: int| 0 <= j < i && items@[j] == y;
                    assert(0 <= j < i + 1 && items@[j] == y);
                }
                if exists|j: int| 0 <= j < i + 1 && items@[j] == y {
                    let j = choose|j: int| 0 <= j < i + 1 && items@[j] == y;
                    if j < i {
                        assert(before.contains(y));
                    }
                }
            }
        }
        i += 1;
    }
    assert(set@ =~= items@.to_set());
    set
}

/// Locking in a group without pairs changes nothing.
pub proof fn lemma_extend_by_nothing(before: Set<Set<(u16, u16)>>)
    ensures
        extend_all(before, Set::<(u16, u16)>::empty()) == before,
{
    let none = Set::<(u16, u16)>::empty();
    let after = extend_all(before, none);
    assert forall|g: Set<(u16, u16)>| after.contains(g) <==> before.contains(g) by {
        if after.contains(g) {
            let (prev, order) = choose|prev: Set<(u16, u16)>, order: Seq<(u16, u16)>|
                before.contains(prev) && arranges(order, none) && g == #[trigger] lock_in(prev, order);
            if order.len() > 0 {
                assert(order.to_set().contains(order[0]));
            }
        }
        if before.contains(g) {
            let order = Seq::<(u16, u16)>::empty();
            assert(order.to_set() =~= none);
            assert(g == lock_in(g, order));
        }
    }
    assert(after =~= before);
}

/// Margins under which nothing is listed can be passed over.
pub proof fn lemma_skip_margins(groups: Map<int, Set<(u16, u16)>>, lo: int, hi: int)
    requires
        lo <= hi <= usize::MAX,
        forall|m: int| lo < m <= hi ==> #[trigger] groups[m] == Set::<(u16, u16)>::empty(),
    ensures
        outcomes(groups, lo) == outcomes(groups, hi),
    decreases hi - lo,
{
    if lo < hi {
        lemma_skip_margins(groups, lo + 1, hi);
        assert(groups[lo + 1] == Set::<(u16, u16)>::empty());
        lemma_extend_by_nothing(outcomes(groups, lo + 1));
    }
}

/// Locking in pairs keeps an edge set free of cycles.
pub proof fn lemma_lock_in_acyclic(edges: Set<(u16, u16)>, order: Seq<(u16, u16)>)
    requires
        acyclic(edges),
    ensures
        acyclic(lock_in(edges, order)),
    decreases order.len(),
{
    if order.len() > 0 {
        let e = order[0];
        if e.0 != e.1 && !reachable(edges, e.1, e.0) {
            lemma_offer_keeps_acyclic(edges, e.0, e.1);
        }
        lemma_lock_in_acyclic(offer(edges, e), order.drop_first());
    }
}

/// At no point of the search does an edge set hold a cycle.
pub proof fn lemma_outcomes_acyclic(groups: Map<int, Set<(u16, u16)>>, floor: int, g: Set<(u16, u16)>)
    requires
        outcomes(groups, floor).contains(g),
    ensures
        acyclic(g),
    decreases usize::MAX - floor,
{
    if floor < usize::MAX {
        let (prev, order) = choose|prev: Set<(u16, u16)>, order: Seq<(u16, u16)>|
            outcomes(groups, floor + 1).contains(prev) && arranges(order, groups[floor + 1]) && g
                == #[trigger] lock_in(prev, order);
        lemma_outcomes_acyclic(groups, floor + 1, prev);
        lemma_lock_in_acyclic(prev, order);
    }
}

/// Where no pair is decided by any margin, every candidate wins.
pub proof fn lemma_no_contests(groups: Map<int, Set<(u16, u16)>>, candidates: u16)
    requires
        forall|m: int| 0 < m <= usize::MAX ==> #[trigger] groups[m] == Set::<(u16, u16)>::empty(),
    ensures
        forall|c: u16| is_winner(groups, candidates, c) <==> c < candidates,
{
    lemma_skip_margins(groups, 0, usize::MAX as int);
    let none = Set::<(u16, u16)>::empty();
    assert(outcomes(groups, usize::MAX as int).contains(none));
    assert forall|c: u16| c < candidates implies is_winner(groups, candidates, c) by {
        assert(outcomes(groups, 0).contains(none) && is_root(none, c));
    }
}

/// Locking in pairs of which none is a defeat of `c`, on edges of which none points at
/// `c`: the old edges stay, every pair that `c` wins is taken, and still no edge points
/// at `c`.
pub proof fn lemma_lock_in_unbeaten(edges: Set<(u16, u16)>, order: Seq<(u16, u16)>, c: u16)
    requires
        forall|a: u16| !edges.contains((a, c)),
        forall|j: int| 0 <= j < order.len() ==> (#[trigger] order[j]).1 != c,
    ensures
        forall|a: u16| !lock_in(edges, order).contains((a, c)),
        edges.subset_of(lock_in(edges, order)),
        forall|j: int| 0 <= j < order.len() && (#[trigger] order[j]).0 == c ==> lock_in(edges, order).contains(order[j]),
    decreases order.len(),
{
    if order.len() > 0 {
        let e = order[0];
        let grown = offer(edges, e);
        let rest = order.drop_first();
        if e.0 == c {
            if reachable(edges, e.1, c) {
                let n = choose|n: nat| steps(edges, e.1, c, n);
                lemma_last_edge(edges, e.1, c, n);
            }
            assert(grown == edges.insert(e));
        }
        assert forall|a: u16| !grown.contains((a, c)) by {}
        assert forall|j: int| 0 <= j < rest.len() implies (#[trigger] rest[j]).1 != c by {
            assert(rest[j] == order[j + 1]);
        }
        lemma_lock_in_unbeaten(grown, rest, c);
        assert forall|j: int| 0 <= j < order.len() && (#[trigger] order[j]).0 == c implies lock_in(
            edges,
            order,
        ).contains(order[j]) by {
            if j > 0 {
                assert(rest[j - 1] == order[j]);
            }
        }
    }
}

/// The pairs of the group can be written down one after the other.
pub open spec fn listable(group: Set<(u16, u16)>) -> bool {
    exists|order: Seq<(u16, u16)>| arranges(order, group)
}

/// The pair with the number `k`, counting the pairs by source, then by destination.
pub open spec fn pair_at(k: int) -> (u16, u16) {
    ((k / 0x10000) as u16, (k % 0x10000) as u16)
}

/// The pairs of the group among the first `k` pairs, in ascending order.
pub open spec fn listing(group: Set<(u16, u16)>, k: nat) -> Seq<(u16, u16)>
    decreases k,
{
    if k == 0 {
        Seq::empty()
    } else if group.contains(pair_at(k - 1)) {
        listing(group, (k - 1) as nat).push(pair_at(k - 1))
    } else {
        listing(group, (k - 1) as nat)
    }
}

/// The listing holds the pairs of the group among the first `k` pairs, each once.
proof fn lemma_listing(group: Set<(u16, u16)>, k: nat)
    requires
        k <= 0x1_0000_0000,
    ensures
        listing(group, k).no_duplicates(),
        forall|e: (u16, u16)|
            listing(group, k).contains(e) <==> group.contains(e) && e.0 * 0x10000 + e.1 < k,
    decreases k,
{
    if k > 0 {
        let front = listing(group, (k - 1) as nat);
        let last = pair_at(k - 1);
        lemma_listing(group, (k - 1) as nat);
        assert(last.0 * 0x10000 + last.1 == k - 1);
        let all = listing(group, k);
        assert forall|e: (u16, u16)| all.contains(e) <==> group.contains(e) && e.0 * 0x10000 + e.1 < k by {
            if all.contains(e) {
                let i = choose|i: int| 0 <= i < all.len() && all[i] == e;
                if i < front.len() {
                    assert(front[i] == e);
                    assert(front.contains(e));
                }
            }
            if group.contains(e) && e.0 * 0x10000 + e.1 < k {
                if e.0 * 0x10000 + e.1 == k - 1 {
                    assert(e == last);
                    assert(all[all.len() - 1] == e);
                } else {
                    assert(front.contains(e));
                    let i = choose|i: int| 0 <= i < front.len() && front[i] == e;
                    assert(all[i] == e);
                }
            }
        }
        if group.contains(last) {
            assert(!front.contains(last));
            assert forall|i: int, j: int| 0 <= i < all.len() && 0 <= j < all.len() && i != j implies all[i] != all[j] by {
                if i < front.len() && j < front.len() {
                    assert(front[i] != front[j]);
                } else if i < front.len() {
                    assert(front.contains(front[i]));
                } else {
                    assert(front.contains(front[j]));
                }
            }
        }
    }
}

/// Every set of pairs can be written down one after the other.
pub proof fn lemma_listable(group: Set<(u16, u16)>)
    ensures
        listable(group),
{
    lemma_listing(group, 0x1_0000_0000);
    let order = listing(group, 0x1_0000_0000);
    assert(order.to_set() =~= group);
    assert(arranges(order, group));
}

/// Some outcome there always is.
pub proof fn lemma_outcomes_exist(groups: Map<int, Set<(u16, u16)>>, floor: int)
    ensures
        exists|g: Set<(u16, u16)>| outcomes(groups, floor).contains(g),
    decreases usize::MAX - floor,
{
    if floor >= usize::MAX {
        assert(outcomes(groups, floor).contains(Set::<(u16, u16)>::empty()));
    } else {
        lemma_outcomes_exist(groups, floor + 1);
        let earlier = outcomes(groups, floor + 1);
        let some = choose|g: Set<(u16, u16)>| earlier.contains(g);
        let group = groups[floor + 1];
        lemma_listable(group);
        let listed = choose|order: Seq<(u16, u16)>| arranges(order, group);
        assert(outcomes(groups, floor).contains(lock_in(some, listed)));
    }
}

/// Locking in pairs of nodes below `n` keeps every edge between nodes below `n`.
pub proof fn lemma_lock_in_within(edges: Set<(u16, u16)>, order: Seq<(u16, u16)>, n: int)
    requires
        within(edges, n),
        forall|j: int| 0 <= j < order.len() ==> (#[trigger] order[j]).0 < n && order[j].1 < n,
    ensures
        within(lock_in(edges, order), n),
    decreases order.len(),
{
    if order.len() > 0 {
        let rest = order.drop_first();
        assert(order[0].0 < n && order[0].1 < n);
        assert forall|j: int| 0 <= j < rest.len() implies (#[trigger] rest[j]).0 < n && rest[j].1 < n by {
            assert(rest[j] == order[j + 1]);
        }
        lemma_lock_in_within(offer(edges, order[0]), rest, n);
    }
}

/// Where every pair names two candidates, every outcome joins candidates only.
pub proof fn lemma_outcomes_within(groups: Map<int, Set<(u16, u16)>>, floor: int, n: int, g: Set<(u16, u16)>)
    requires
        0 <= floor,
        forall|m: int| 0 < m <= usize::MAX ==> within(#[trigger] groups[m], n),
        outcomes(groups, floor).contains(g),
    ensures
        within(g, n),
    decreases usize::MAX - floor,
{
    if floor < usize::MAX {
        let (prev, order) = choose|prev: Set<(u16, u16)>, order: Seq<(u16, u16)>|
            outcomes(groups, floor + 1).contains(prev) && arranges(order, groups[floor + 1]) && g
                == #[trigger] lock_in(prev, order);
        lemma_outcomes_within(groups, floor + 1, n, prev);
        assert(within(groups[floor + 1], n));
        assert forall|j: int| 0 <= j < order.len() implies (#[trigger] order[j]).0 < n && order[j].1 < n by {
            assert(order.to_set().contains(order[j]));
            assert(groups[floor + 1].contains((order[j].0, order[j].1)));
        }
        lemma_lock_in_within(prev, order, n);
    }
}

/// Where every pair names two candidates, there is a winner exactly when there is a
/// candidate.
pub proof fn lemma_someone_wins(groups: Map<int, Set<(u16, u16)>>, candidates: u16)
    requires
        forall|m: int| 0 < m <= usize::MAX ==> within(#[trigger] groups[m], candidates as int),
    ensures
        winners(groups, candidates) == Set::<u16>::empty() <==> candidates == 0,
{
    if candidates > 0 {
        lemma_outcomes_exist(groups, 0);
        let g = choose|g: Set<(u16, u16)>| outcomes(groups, 0).contains(g);
        lemma_outcomes_acyclic(groups, 0, g);
        lemma_outcomes_within(groups, 0, candidates as int, g);
        lemma_some_root(g, candidates);
        let r = choose|r: u16| r < candidates && #[trigger] is_root(g, r);
        assert(is_winner(groups, candidates, r));
        assert(winners(groups, candidates).contains(r));
    } else {
        assert(winners(groups, candidates) =~= Set::<u16>::empty());
    }
}

/// `c` is unbeaten in `g`, and `g` holds every pair that `c` wins by a margin above `floor`.
pub open spec fn led_by(groups: Map<int, Set<(u16, u16)>>, floor: int, g: Set<(u16, u16)>, c: u16) -> bool {
    &&& forall|a: u16| !g.contains((a, c))
    &&& forall|m: int, x: u16| floor < m <= usize::MAX && #[trigger] groups[m].contains((c, x)) ==> g.contains((c, x))
}

/// Where `c` loses no pair, `c` is unbeaten in every outcome and holds every pair won so
/// far.
pub proof fn lemma_unbeaten_leads(groups: Map<int, Set<(u16, u16)>>, floor: int, c: u16)
    requires
        0 <= floor <= usize::MAX,
        forall|m: int, x: u16| 0 < m <= usize::MAX ==> !(#[trigger] groups[m].contains((x, c))),
    ensures
        forall|g: Set<(u16, u16)>| #[trigger] outcomes(groups, floor).contains(g) ==> led_by(groups, floor, g, c),
    decreases usize::MAX - floor,
{
    if floor < usize::MAX {
        lemma_unbeaten_leads(groups, floor + 1, c);
        let earlier = outcomes(groups, floor + 1);
        let group = groups[floor + 1];
        assert forall|g: Set<(u16, u16)>| #[trigger] outcomes(groups, floor).contains(g) implies led_by(
            groups,
            floor,
            g,
            c,
        ) by {
            let (prev, order) = choose|prev: Set<(u16, u16)>, order: Seq<(u16, u16)>|
                earlier.contains(prev) && arranges(order, group) && g == #[trigger] lock_in(prev, order);
            assert(led_by(groups, floor + 1, prev, c));
            assert forall|j: int| 0 <= j < order.len() implies (#[trigger] order[j]).1 != c by {
                assert(order.to_set().contains(order[j]));
                assert(group.contains((order[j].0, order[j].1)));
            }
            lemma_lock_in_unbeaten(prev, order, c);
            assert forall|m: int, x: u16| floor < m <= usize::MAX && #[trigger] groups[m].contains((c, x)) implies g.contains((c, x)) by {
                if m == floor + 1 {
                    assert(order.to_set().contains((c, x)));
                    let j = choose|j: int| 0 <= j < order.len() && order[j] == (c, x);
                    assert(order[j].0 == c);
                } else {
                    assert(prev.contains((c, x)));
                }
            }
        }
    }
}

/// `c` wins the pair with `x` by some margin.
pub open spec fn beats(groups: Map<int, Set<(u16, u16)>>, c: u16, x: u16) -> bool {
    exists|m: int| 0 < m <= usize::MAX && #[trigger] groups[m].contains((c, x))
}

/// A candidate who wins the pair with every other candidate, and loses none, is the one
/// winner.
pub proof fn lemma_condorcet(groups: Map<int, Set<(u16, u16)>>, candidates: u16, c: u16)
    requires
        c < candidates,
        forall|x: u16| x < candidates && x != c ==> #[trigger] beats(groups, c, x),
        forall|m: int, x: u16| 0 < m <= usize::MAX ==> !(#[trigger] groups[m].contains((x, c))),
    ensures
        forall|w: u16| is_winner(groups, candidates, w) <==> w == c,
{
    lemma_unbeaten_leads(groups, 0, c);
    lemma_outcomes_exist(groups, 0);
    let some = choose|g: Set<(u16, u16)>| outcomes(groups, 0).contains(g);
    assert(led_by(groups, 0, some, c));
    assert(is_winner(groups, candidates, c)) by {
        assert(outcomes(groups, 0).contains(some) && is_root(some, c));
    }
    assert forall|w: u16| is_winner(groups, candidates, w) implies w == c by {
        if w != c {
            let g = choose|g: Set<(u16, u16)>| #[trigger] outcomes(groups, 0).contains(g) && is_root(g, w);
            assert(led_by(groups, 0, g, c));
            assert(beats(groups, c, w));
            let m = choose|m: int| 0 < m <= usize::MAX && #[trigger] groups[m].contains((c, w));
            assert(g.contains((c, w)));
        }
    }
}

} // verus!
