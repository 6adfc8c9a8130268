//! Head-to-head counts between candidates, grouped by margin of victory.

use crate::graph::{edges_ascending, insert_ascending};
use std::collections::{BTreeMap, BTreeSet};
use vstd::prelude::*;

verus! {

/// The ballots as sequences of candidate numbers.
pub open spec fn ballots_view(ballots: Seq<Vec<u16>>) -> Seq<Seq<u16>> {
    Seq::new(ballots.len(), |i: int| ballots[i]@)
}

/// The ballot ranks `a` ahead of `b`: `a` stands on it, and `b` does not stand before `a`.
/// A candidate who is ranked is thereby ahead of every candidate who is not.
pub open spec fn prefers(ballot: Seq<u16>, a: u16, b: u16) -> bool {
    exists|i: int| 0 <= i < ballot.len() && #[trigger] ballot[i] == a && forall|j: int| 0 <= j < i ==> #[trigger] ballot[j] != b
}

/// Number of ballots that rank `a` ahead of `b`.
pub open spec fn wins(ballots: Seq<Seq<u16>>, a: u16, b: u16) -> nat
    decreases ballots.len(),
{
    if ballots.len() == 0 {
        0
    } else {
        wins(ballots.drop_last(), a, b) + if prefers(ballots.last(), a, b) { 1nat } else { 0nat }
    }
}

/// The pairs `(winner, loser)` of candidates below `candidates` in which the winner is
/// ahead on exactly `margin` more ballots than the loser, for a positive `margin`.
pub open spec fn victories(ballots: Seq<Seq<u16>>, candidates: u16, margin: int) -> Set<(u16, u16)> {
    Set::new(
        |e: (u16, u16)|
            e.0 < candidates && e.1 < candidates && margin > 0 && wins(ballots, e.0, e.1) - wins(
                ballots,
                e.1,
                e.0,
            ) == margin,
    )
}

/// The pairs that a table holds under `margin`.
pub open spec fn group_of(table: Seq<(usize, Vec<(u16, u16)>)>, margin: int) -> Set<(u16, u16)> {
    Set::new(
        |e: (u16, u16)|
            exists|i: int| 0 <= i < table.len() && (#[trigger] table[i]).0 == margin && table[i].1@.contains(e),
    )
}

/// A table lists positive margins in ascending order, each with its pairs, of which there
/// is at least one, in ascending order.
pub open spec fn table_wf(table: Seq<(usize, Vec<(u16, u16)>)>) -> bool {
    &&& forall|i: int, j: int| 0 <= i < j < table.len() ==> (#[trigger] table[i]).0 < (#[trigger] table[j]).0
    &&& forall|i: int| 0 <= i < table.len() ==> (#[trigger] table[i]).0 > 0 && table[i].1@.len() > 0 && edges_ascending(table[i].1@)
}

/// The pairs that a table holds under the margin listed at place `i` are those stored at
/// that place, and there is one at least.
pub proof fn lemma_group_at(table: Seq<(usize, Vec<(u16, u16)>)>, i: int)
    requires
        table_wf(table),
        0 <= i < table.len(),
    ensures
        group_of(table, table[i].0 as int) == table[i].1@.to_set(),
        group_of(table, table[i].0 as int).contains(table[i].1@[0]),
{
    let margin = table[i].0 as int;
    let items = table[i].1@;
    assert forall|e: (u16, u16)| group_of(table, margin).contains(e) <==> items.contains(e) by {
        if group_of(table, margin).contains(e) {
            let k = choose|k: int|
                0 <= k < table.len() && (#[trigger] table[k]).0 == margin && table[k].1@.contains(e);
            if k < i {
                assert(table[k].0 < table[i].0);
            } else if k > i {
                assert(table[i].0 < table[k].0);
            }
        }
    }
    assert(group_of(table, margin) =~= items.to_set());
    assert(items.contains(items[0]));
}

/// A table holds no pair under a margin that it does not list.
pub proof fn lemma_unlisted_margin(table: Seq<(usize, Vec<(u16, u16)>)>, margin: int)
    requires
        forall|k: int| 0 <= k < table.len() ==> (#[trigger] table[k]).0 != margin,
    ensures
        group_of(table, margin) == Set::<(u16, u16)>::empty(),
{
    assert forall|e: (u16, u16)| !group_of(table, margin).contains(e) by {
        if group_of(table, margin).contains(e) {
            let k = choose|k: int|
                0 <= k < table.len() && (#[trigger] table[k]).0 == margin && table[k].1@.contains(e);
        }
    }
    assert(group_of(table, margin) =~= Set::<(u16, u16)>::empty());
}

/// No candidate is ahead on more ballots than there are.
pub proof fn lemma_wins_bounded(ballots: Seq<Seq<u16>>, a: u16, b: u16)
    ensures
        wins(ballots, a, b) <= ballots.len(),
    decreases ballots.len(),
{
    if ballots.len() > 0 {
        lemma_wins_bounded(ballots.drop_last(), a, b);
    }
}

/// The first entry of the ballot that is `c1` or `c2`, if there is one.
fn first_of(ballot: &Vec<u16>, c1: u16, c2: u16) -> (found: Option<u16>)
    ensures
        match found {
            Some(v) => (v == c1 || v == c2) && prefers(ballot@, v, c1) && prefers(ballot@, v, c2)
                && (v != c1 ==> !prefers(ballot@, c1, c2)) && (v != c2 ==> !prefers(ballot@, c2, c1)),
            None => !prefers(ballot@, c1, c2) && !prefers(ballot@, c2, c1),
        },
{
    let mut j: usize = 0;
    while j < ballot.len()
        invariant
            j <= ballot@.len(),
            forall|k: int| 0 <= k < j ==> #[trigger] ballot@[k] != c1 && ballot@[k] != c2,
        decreases ballot@.len() - j,
    {
        let v = ballot[j];
        if v == c1 || v == c2 {
            proof {
                assert(ballot@[j as int] == v);
                assert(forall|k: int| 0 <= k < j ==> #[trigger] ballot@[k] != c1);
                assert(forall|k: int| 0 <= k < j ==> #[trigger] ballot@[k] != c2);
                if v != c1 && prefers(ballot@, c1, c2) {
                    let i = choose|i: int| 0 <= i < ballot@.len() && #[trigger] ballot@[i] == c1 && forall|k: int| 0 <= k < i ==> #[trigger] ballot@[k] != c2;
                    assert(i > j);
                    assert(ballot@[j as int] != c2);
                }
                if v != c2 && prefers(ballot@, c2, c1) {
                    let i = choose|i: int| 0 <= i < ballot@.len() && #[trigger] ballot@[i] == c2 && forall|k: int| 0 <= k < i ==> #[trigger] ballot@[k] != c1;
                    assert(i > j);
                    assert(ballot@[j as int] != c1);
                }
            }
            return Some(v);
        }
        j += 1;
    }
    None
}

/// Counts, over all ballots, how often `c1` is ranked ahead of `c2` and how often `c2`
/// ahead of `c1`. A ballot that holds neither counts for neither.
pub fn count_pairwise_election(ballots: &[Vec<u16>], c1: u16, c2: u16) -> (r: (usize, usize))
    ensures
        r.0 == wins(ballots_view(ballots@), c1, c2),
        c1 != c2 ==> r.1 == wins(ballots_view(ballots@), c2, c1),
        c1 == c2 ==> r.1 == 0,
{
    let ghost all = ballots_view(ballots@);
    let mut c1_wins: usize = 0;
    let mut c2_wins: usize = 0;
    let mut i: usize = 0;
    while i < ballots.len()
        invariant
            i <= ballots@.len(),
            all == ballots_view(ballots@),
            c1_wins == wins(all.subrange(0, i as int), c1, c2),
            c1 != c2 ==> c2_wins == wins(all.subrange(0, i as int), c2, c1),
            c1 == c2 ==> c2_wins == 0,
            c1_wins <= i,
            c2_wins <= i,
        decreases ballots@.len() - i,
    {
        let found = first_of(&ballots[i], c1, c2);
        proof {
            let next = all.subrange(0, i + 1);
            assert(next.drop_last() =~= all.subrange(0, i as int));
            assert(next.last() == ballots@[i as int]@);
        }
        match found {
            Some(v) => {
                if v == c1 {
                    c1_wins += 1;
                } else {
                    c2_wins += 1;
                }
            },
            None => {},
        }
        i += 1;
    }
    assert(all.subrange(0, i as int) =~= all);
    (c1_wins, c2_wins)
}


/// The smaller candidate number of a pair.
pub open spec fn lower_of(e: (u16, u16)) -> u16 {
    if e.0 < e.1 { e.0 } else { e.1 }
}

/// The larger candidate number of a pair.
pub open spec fn upper_of(e: (u16, u16)) -> u16 {
    if e.0 < e.1 { e.1 } else { e.0 }
}

/// Writes the pair `e` into the table under `margin`, opening a group for that margin
/// where there is none yet.
fn record(table: &mut Vec<(usize, Vec<(u16, u16)>)>, margin: usize, e: (u16, u16))
    requires
        table_wf(old(table)@),
        margin > 0,
    ensures
        table_wf(final(table)@),
        forall|m: int, x: (u16, u16)| #[trigger]
            group_of(final(table)@, m).contains(x) <==> group_of(old(table)@, m).contains(x) || (m
                == margin && x == e),
{
    let ghost before = table@;
    let mut i: usize = 0;
    while i < table.len() && table[i].0 < margin
        invariant
            i <= table@.len(),
            table@ == before,
            forall|j: int| 0 <= j < i ==> (#[trigger] table@[j]).0 < margin,
        decreases table@.len() - i,
    {
        i += 1;
    }
    if i < table.len() && table[i].0 == margin {
        let entry = table.remove(i);
        let mut group = entry.1;
        let ghost old_group = group@;
        insert_ascending(&mut group, e);
        assert(group@.contains(e));
        table.insert(i, (margin, group));
        proof {
            let after = table@;
            assert(after.len() == before.len());
            assert(after[i as int].1@ == group@);
            assert forall|j: int| 0 <= j < after.len() && j != i implies #[trigger] after[j] == before[j] by {}
            assert forall|a: int, b: int| 0 <= a < b < after.len() implies (#[trigger] after[a]).0 < (#[trigger] after[b]).0 by {
                assert(before[a].0 < before[b].0);
            }
            assert forall|m: int, x: (u16, u16)| #[trigger]
                group_of(after, m).contains(x) <==> group_of(before, m).contains(x) || (m
                    == margin && x == e) by {
                if group_of(after, m).contains(x) {
                    let j = choose|j: int| 0 <= j < after.len() && (#[trigger] after[j]).0 == m && after[j].1@.contains(x);
                    if j == i {
                        if x != e {
                            assert(old_group.contains(x));
                            assert(before[i as int].0 == m && before[i as int].1@.contains(x));
                        }
                    } else {
                        assert(before[j].0 == m && before[j].1@.contains(x));
                    }
                }
                if group_of(before, m).contains(x) {
                    let j = choose|j: int| 0 <= j < before.len() && (#[trigger] before[j]).0 == m && before[j].1@.contains(x);
                    assert(after[j].0 == m && after[j].1@.contains(x));
                }
                if m == margin && x == e {
                    assert(after[i as int].0 == m && after[i as int].1@.contains(x));
                }
            }
        }
    } else {
        let mut group: Vec<(u16, u16)> = Vec::new();
        group.push(e);
        table.insert(i, (margin, group));
        proof {
            let after = table@;
            assert(group@[0] == e);
            assert(group@.contains(e));
            assert forall|a: int, b: int| 0 <= a < b < after.len() implies (#[trigger] after[a]).0 < (#[trigger] after[b]).0 by {
                if a < i && b > i {
                    assert(before[a].0 < before[b - 1].0);
                } else if a < i && b < i {
                    assert(before[a].0 < before[b].0);
                } else if a < i && b == i {
                    assert(before[a].0 < margin);
                } else if a == i {
                    assert(before[i as int].0 > margin);
                    if b - 1 > i {
                        assert(before[i as int].0 < before[b - 1].0);
                    }
                } else {
                    assert(before[a - 1].0 < before[b - 1].0);
                }
            }
            assert forall|j: int| 0 <= j < after.len() implies (#[trigger] after[j]).0 > 0 && after[j].1@.len() > 0 && edges_ascending(after[j].1@) by {
                if j < i {
                    assert(after[j] == before[j]);
                } else if j > i {
                    assert(after[j] == before[j - 1]);
                }
            }
            assert forall|m: int, x: (u16, u16)| #[trigger]
                group_of(after, m).contains(x) <==> group_of(before, m).contains(x) || (m
                    == margin && x == e) by {
                if group_of(after, m).contains(x) {
                    let j = choose|j: int| 0 <= j < after.len() && (#[trigger] after[j]).0 == m && after[j].1@.contains(x);
                    if j < i {
                        assert(before[j].0 == m && before[j].1@.contains(x));
                    } else if j > i {
                        assert(before[j - 1].0 == m && before[j - 1].1@.contains(x));
                    } else {
                        let k = choose|k: int| 0 <= k < group@.len() && group@[k] == x;
                    }
                }
                if group_of(before, m).contains(x) {
                    let j = choose|j: int| 0 <= j < before.len() && (#[trigger] before[j]).0 == m && before[j].1@.contains(x);
                    if j < i {
                        assert(after[j].0 == m && after[j].1@.contains(x));
                    } else {
                        assert(after[j + 1].0 == m && after[j + 1].1@.contains(x));
                    }
                }
                if m == margin && x == e {
                    assert(after[i as int].0 == m && after[i as int].1@.contains(x));
                }
            }
        }
    }
}

/// Pairs every two candidates and lists the decided contests by margin of victory, the
/// margins in ascending order. A contest that ends level is left out.
pub fn margin_table(ballots: &[Vec<u16>], candidates: u16) -> (table: Vec<(usize, Vec<(u16, u16)>)>)
    ensures
        table_wf(table@),
        forall|m: int| #[trigger] group_of(table@, m) == victories(ballots_view(ballots@), candidates, m),
{
    let ghost all = ballots_view(ballots@);
    let mut table: Vec<(usize, Vec<(u16, u16)>)> = Vec::new();
    if candidates >= 2 {
        let mut c1: u16 = 0;
        while c1 < candidates - 1
            invariant
                candidates >= 2,
                c1 <= candidates - 1,
                all == ballots_view(ballots@),
                table_wf(table@),
                forall|m: int, e: (u16, u16)| #[trigger]
                    group_of(table@, m).contains(e) <==> victories(all, candidates, m).contains(e) && lower_of(e) < c1,
            decreases candidates - c1,
        {
            let mut c2: u16 = c1 + 1;
            while c2 < candidates
                invariant
                    c1 < c2 <= candidates,
                    all == ballots_view(ballots@),
                    table_wf(table@),
                    forall|m: int, e: (u16, u16)| #[trigger]
                        group_of(table@, m).contains(e) <==> victories(all, candidates, m).contains(e) && (lower_of(e) < c1 || (lower_of(e) == c1 && upper_of(e) < c2)),
                decreases candidates - c2,
            {
                let counts = count_pairwise_election(ballots, c1, c2);
                let ghost before = table@;
                proof {
                    lemma_wins_bounded(all, c1, c2);
                    lemma_wins_bounded(all, c2, c1);
                }
                if counts.0 < counts.1 {
                    record(&mut table, counts.1 - counts.0, (c2, c1));
                } else if counts.0 > counts.1 {
                    record(&mut table, counts.0 - counts.1, (c1, c2));
                }
                proof {
                    assert forall|m: int, e: (u16, u16)| #[trigger]
                        group_of(table@, m).contains(e) <==> victories(all, candidates, m).contains(e) && (lower_of(e) < c1 || (lower_of(e) == c1 && upper_of(e) < c2 + 1)) by {
                        assert(group_of(before, m).contains(e) <==> victories(all, candidates, m).contains(e) && (lower_of(e) < c1 || (lower_of(e) == c1 && upper_of(e) < c2)));
                        if lower_of(e) == c1 && upper_of(e) == c2 {
                            assert(e == (c1, c2) || e == (c2, c1));
                        }
                    }
                }
                c2 += 1;
            }
            c1 += 1;
        }
    }
    proof {
        assert forall|m: int| #[trigger] group_of(table@, m) == victories(all, candidates, m) by {
            assert forall|e: (u16, u16)| group_of(table@, m).contains(e) <==> victories(all, candidates, m).contains(e) by {
                if candidates >= 2 {
                    assert(group_of(table@, m).contains(e) <==> victories(all, candidates, m).contains(e) && lower_of(e) < candidates - 1);
                } else {
                    if group_of(table@, m).contains(e) {
                        let j = choose|j: int| 0 <= j < table@.len() && (#[trigger] table@[j]).0 == m && table@[j].1@.contains(e);
                    }
                }
            }
            assert(group_of(table@, m) =~= victories(all, candidates, m));
        }
    }
    table
}

/// The pairs of the list as a set.
pub fn pair_set(items: &Vec<(u16, u16)>) -> (set: BTreeSet<(u16, u16)>)
    ensures
        set@ == items@.to_set(),
{
    broadcast use vstd::laws_cmp::group_laws_cmp;

    let mut set: BTreeSet<(u16, u16)> = BTreeSet::new();
    let mut i: usize = 0;
    while i < items.len()
        invariant
            i <= items@.len(),
            forall|x: (u16, u16)| set@.contains(x) <==> exists|j: int| 0 <= j < i && items@[j] == x,
        decreases items@.len() - i,
    {
        let x = items[i];
        let ghost before = set@;
        set.insert(x);
        proof {
            assert forall|y: (u16, u16)| set@.contains(y) <==> exists|j: int|
                0 <= j < i + 1 && items@[j] == y by {
                if before.contains(y) {
                    let j = choose|j: int| 0 <= j < i && items@[j] == y;
                    assert(0 <= j < i + 1 && items@[j] == y);
                }
                if exists|j: int| 0 <= j < i + 1 && items@[j] == y {
                    let j = choose|j: int| 0 <= j < i + 1 && items@[j] == y;
                    if j < i {
                        assert(before.contains(y));
                    }
                }
            }
        }
        i += 1;
    }
    assert(set@ =~= items@.to_set());
    set
}

/// Files the group under its margin.
fn put_group(map: &mut BTreeMap<usize, BTreeSet<(u16, u16)>>, margin: usize, group: BTreeSet<(u16, u16)>)
    ensures
        final(map)@ == old(map)@.insert(margin, group),
{
    broadcast use vstd::laws_cmp::group_laws_cmp;

    map.insert(margin, group);
}

/// Pairs every two candidates and files each decided contest, as `(winner, loser)`, under
/// its margin of victory. A contest that ends level is left out.
pub fn tabulate_pairwise_results(ballots: &[Vec<u16>], candidates: u16) -> (map: BTreeMap<
    usize,
    BTreeSet<(u16, u16)>,
>)
    ensures
        forall|m: usize|
            map@.contains_key(m) <==> #[trigger] victories(ballots_view(ballots@), candidates, m as int)
                != Set::<(u16, u16)>::empty(),
        forall|m: usize|
            map@.contains_key(m) ==> map@[m]@ == #[trigger] victories(
                ballots_view(ballots@),
                candidates,
                m as int,
            ),
{
    let ghost all = ballots_view(ballots@);
    let table = margin_table(ballots, candidates);
    let mut map: BTreeMap<usize, BTreeSet<(u16, u16)>> = BTreeMap::new();
    let mut i: usize = 0;
    while i < table.len()
        invariant
            i <= table@.len(),
            table_wf(table@),
            forall|m: usize|
                #[trigger] map@.contains_key(m) <==> exists|j: int| 0 <= j < i && (#[trigger] table@[j]).0 == m,
            forall|j: int| 0 <= j < i ==> map@[(#[trigger] table@[j]).0]@ == table@[j].1@.to_set(),
        decreases table@.len() - i,
    {
        let group = pair_set(&table[i].1);
        let ghost before = map@;
        put_group(&mut map, table[i].0, group);
        proof {
            assert forall|m: usize| #[trigger] map@.contains_key(m) <==> exists|j: int|
                0 <= j < i + 1 && (#[trigger] table@[j]).0 == m by {
                if before.contains_key(m) {
                    let j = choose|j: int| 0 <= j < i && (#[trigger] table@[j]).0 == m;
                    assert(0 <= j < i + 1 && table@[j].0 == m);
                }
                if exists|j: int| 0 <= j < i + 1 && (#[trigger] table@[j]).0 == m {
                    let j = choose|j: int| 0 <= j < i + 1 && (#[trigger] table@[j]).0 == m;
                    if j < i {
                        assert(before.contains_key(m));
                    }
                }
            }
            assert forall|j: int| 0 <= j < i + 1 implies map@[(#[trigger] table@[j]).0]@ == table@[j].1@.to_set() by {
                if j < i {
                    assert(table@[j].0 < table@[i as int].0);
                }
            }
        }
        i += 1;
    }
    proof {
        assert forall|j: int| 0 <= j < table@.len() implies group_of(table@, (#[trigger] table@[j]).0 as int)
            == table@[j].1@.to_set() by {
            lemma_group_at(table@, j);
        }
        assert forall|m: usize|
            map@.contains_key(m) <==> #[trigger] victories(all, candidates, m as int) != Set::<
                (u16, u16),
            >::empty() by {
            assert(group_of(table@, m as int) == victories(all, candidates, m as int));
            if map@.contains_key(m) {
                let j = choose|j: int| 0 <= j < table@.len() && (#[trigger] table@[j]).0 == m;
                assert(table@[j].1@.to_set().contains(table@[j].1@[0]));
            }
            if victories(all, candidates, m as int) != Set::<(u16, u16)>::empty() {
                assert(!(victories(all, candidates, m as int) =~= Set::<(u16, u16)>::empty()));
                let e = choose|e: (u16, u16)| victories(all, candidates, m as int).contains(e);
                assert(group_of(table@, m as int).contains(e));
                let k = choose|k: int|
                    0 <= k < table@.len() && (#[trigger] table@[k]).0 == m as int && table@[k].1@.contains(e);
                assert(table@[k].0 == m);
            }
        }
        assert forall|m: usize| map@.contains_key(m) implies map@[m]@ == #[trigger] victories(
            all,
            candidates,
            m as int,
        ) by {
            let j = choose|j: int| 0 <= j < table@.len() && (#[trigger] table@[j]).0 == m;
            assert(group_of(table@, m as int) == victories(all, candidates, m as int));
        }
    }
    map
}

} // verus!
