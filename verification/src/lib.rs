//! Ranked pairs (Tideman method) election tallying with exhaustive handling of tied margins.

pub mod graph;
pub mod pairwise;
pub mod search;
pub mod validate;

use crate::graph::{is_root, AcyclicGraph};
use crate::pairwise::{
    ballots_view, group_of, lemma_unlisted_margin, lemma_wins_bounded, margin_table, pair_set,
    table_wf, victories, wins,
};
use crate::search::{
    arranges, beats, branch, extend_all, gather, holds, is_winner, lemma_condorcet,
    lemma_no_contests, lemma_someone_wins, lemma_skip_margins, lock_in, made_from, outcomes, root_among,
    union_of_roots, winners,
};
use crate::validate::{ballots_fault, check_ballots};
use std::collections::BTreeSet;
use vstd::prelude::*;

verus! {

/// An error while tallying an election
#[derive(Debug, Clone, Copy, PartialEq, Eq, Structural)]
#[non_exhaustive]
pub enum Error {
    /// A ballot had a duplicate choice
    InvalidBallot,
    /// A ballot contained an invalid candidate number
    InvalidCandidate,
}

impl Error {
    /// The error in words.
    pub fn message(&self) -> (text: &'static str)
        ensures
            text@ == match *self {
                Error::InvalidBallot => "an invalid ballot was given"@,
                Error::InvalidCandidate => "an invalid candidate was voted for"@,
            },
    {
        match self {
            Error::InvalidBallot => "an invalid ballot was given",
            Error::InvalidCandidate => "an invalid candidate was voted for",
        }
    }
}

/// The pairs decided by each positive margin of victory, as the ballots give them.
pub open spec fn pairwise_margins(ballots: Seq<Seq<u16>>, candidates: u16) -> Map<int, Set<(u16, u16)>> {
    Map::new(|m: int| m > 0, |m: int| victories(ballots, candidates, m))
}

/// Tabulated data for an election
///
/// This contains the minimal data needed from the ballots to be able to compute the winners,
/// without storing all of the ballots.
#[derive(Debug)]
pub struct TabulatedData {
    table: Vec<(usize, Vec<(u16, u16)>)>,
    candidates: u16,
}

impl TabulatedData {
    /// The number of candidates.
    pub closed spec fn candidates(&self) -> u16 {
        self.candidates
    }

    /// For each positive margin of victory, the pairs `(winner, loser)` decided by it.
    pub closed spec fn view(&self) -> Map<int, Set<(u16, u16)>> {
        Map::new(|m: int| m > 0, |m: int| group_of(self.table@, m))
    }

    /// The margins under which pairs are listed, in ascending order.
    pub closed spec fn margins(&self) -> Seq<int> {
        Seq::new(self.table@.len(), |i: int| self.table@[i].0 as int)
    }

    /// The margins are listed in ascending order, each with its pairs in ascending order,
    /// and every pair names two candidates.
    pub closed spec fn wf(&self) -> bool {
        &&& table_wf(self.table@)
        &&& forall|i: int, j: int|
            0 <= i < self.table@.len() && 0 <= j < self.table@[i].1@.len() ==> (
            #[trigger] self.table@[i].1@[j]).0 < self.candidates && self.table@[i].1@[j].1
                < self.candidates
    }

    /// Create the data from a set of ballots
    ///
    /// Each ballot consists of a list of choices in order, candidate numbers are zero-based.
    ///
    /// # Errors
    /// An error will be returned if any ballot contains an invalid candidate number (`>= candidates`)
    /// or contains the same candidate more than once.
    pub fn from_ballots(ballots: &[Vec<u16>], candidates: u16) -> (r: Result<Self, Error>)
        ensures
            match ballots_fault(ballots_view(ballots@), candidates) {
                Some(e) => r.is_err() && r.unwrap_err() == e,
                None => r.is_ok() && r.unwrap().wf() && r.unwrap().candidates() == candidates
                    && r.unwrap()@ == pairwise_margins(ballots_view(ballots@), candidates),
            },
    {
        match check_ballots(ballots, candidates) {
            Err(e) => Err(e),
            Ok(_) => {
                let table = margin_table(ballots, candidates);
                let data = TabulatedData { table, candidates };
                proof {
                    let all = ballots_view(ballots@);
                    assert(data@ =~= pairwise_margins(all, candidates)) by {
                        assert forall|m: int| m > 0 implies #[trigger] data@[m] == pairwise_margins(all, candidates)[m] by {
                            assert(group_of(data.table@, m) == victories(all, candidates, m));
                        }
                    }
                    assert forall|i: int, j: int|
                        0 <= i < data.table@.len() && 0 <= j < data.table@[i].1@.len() implies (
                        #[trigger] data.table@[i].1@[j]).0 < candidates && data.table@[i].1@[j].1
                            < candidates by {
                        let e = data.table@[i].1@[j];
                        let m = data.table@[i].0 as int;
                        assert(data.table@[i].1@.contains(e));
                        assert(group_of(data.table@, m).contains(e));
                        assert(victories(all, candidates, m).contains(e));
                    }
                }
                Ok(data)
            },
        }
    }

    /// The number of candidates.
    pub fn candidate_count(&self) -> (n: u16)
        ensures
            n == self.candidates(),
    {
        self.candidates
    }

    /// The listed margins are positive and ascend, and pairs are decided by a margin
    /// exactly when it is listed.
    pub proof fn lemma_margins(&self)
        requires
            self.wf(),
        ensures
            forall|i: int, j: int|
                0 <= i < j < self.margins().len() ==> 0 < #[trigger] self.margins()[i]
                    < #[trigger] self.margins()[j],
            forall|m: int|
                m > 0 ==> (self.margins().contains(m) <==> #[trigger] self@[m] != Set::<(u16, u16)>::empty()),
    {
        assert forall|i: int, j: int| 0 <= i < j < self.margins().len() implies 0
            < #[trigger] self.margins()[i] < #[trigger] self.margins()[j] by {
            assert(self.table@[i].0 < self.table@[j].0);
        }
        assert forall|m: int| m > 0 implies (self.margins().contains(m) <==> #[trigger] self@[m]
            != Set::<(u16, u16)>::empty()) by {
            if self.margins().contains(m) {
                let i = choose|i: int| 0 <= i < self.margins().len() && self.margins()[i] == m;
                self.lemma_group_at(i);
                let items = self.table@[i].1@;
                assert(items.to_set().contains(items[0]));
            } else {
                assert forall|k: int| 0 <= k < self.table@.len() implies (#[trigger] self.table@[k]).0
                    != m by {
                    assert(self.margins()[k] == self.table@[k].0);
                }
                lemma_unlisted_margin(self.table@, m);
            }
        }
    }

    /// The pairs decided by the margin listed at place `i` are those stored with it.
    proof fn lemma_group_at(&self, i: int)
        requires
            self.wf(),
            0 <= i < self.table@.len(),
        ensures
            self@[self.table@[i].0 as int] == self.table@[i].1@.to_set(),
    {
        crate::pairwise::lemma_group_at(self.table@, i);
    }

    /// Get each set of non-tied pairwise elections
    ///
    /// The sets are of elections with the same margin of victory. The values are in order from
    /// widest margin of victory to slimmest.
    pub fn pairwise_results(&self) -> (groups: Vec<BTreeSet<(u16, u16)>>)
        requires
            self.wf(),
        ensures
            groups@.len() == self.margins().len(),
            forall|k: int|
                0 <= k < groups@.len() ==> (#[trigger] groups@[k])@ == self@[self.margins()[groups@.len() - 1
                    - k]],
    {
        let mut groups: Vec<BTreeSet<(u16, u16)>> = Vec::new();
        let mut i: usize = self.table.len();
        while i > 0
            invariant
                self.wf(),
                i <= self.table@.len(),
                groups@.len() == self.table@.len() - i,
                forall|k: int|
                    0 <= k < groups@.len() ==> (#[trigger] groups@[k])@ == self.table@[self.table@.len() - 1
                        - k].1@.to_set(),
            decreases i,
        {
            i -= 1;
            groups.push(pair_set(&self.table[i].1));
        }
        proof {
            assert forall|k: int| 0 <= k < groups@.len() implies (#[trigger] groups@[k])@
                == self@[self.margins()[groups@.len() - 1 - k]] by {
                self.lemma_group_at(groups@.len() - 1 - k);
            }
        }
        groups
    }

    /// Tally election results
    ///
    /// The function returns the set of winners. As each winning margin is added to the graph,
    /// every possible order is considered. Any candidate who can win in any scenario is
    /// considered to be in the winning set.
    pub fn tally(&self) -> (set: BTreeSet<u16>)
        requires
            self.wf(),
        ensures
            set@ == winners(self@, self.candidates()),
    {
        let mut graphs: Vec<AcyclicGraph> = Vec::new();
        graphs.push(AcyclicGraph::new(self.candidates));
        let mut i: usize = self.table.len();
        let ghost mut floor: int = usize::MAX as int;
        proof {
            assert forall|g: Set<(u16, u16)>| outcomes(self@, floor).contains(g) <==> holds(graphs@, g) by {
                if g == Set::<(u16, u16)>::empty() {
                    assert(graphs@[0]@ == g);
                }
            }
        }
        while i > 0
            invariant
                self.wf(),
                i <= self.table@.len(),
                0 <= floor <= usize::MAX,
                forall|k: int| 0 <= k < i ==> (#[trigger] self.table@[k]).0 <= floor,
                forall|k: int| i <= k < self.table@.len() ==> (#[trigger] self.table@[k]).0 > floor,
                forall|k: int|
                    0 <= k < graphs@.len() ==> (#[trigger] graphs@[k]).wf() && graphs@[k].node_count()
                        == self.candidates,
                forall|g: Set<(u16, u16)>| outcomes(self@, floor).contains(g) <==> holds(graphs@, g),
            decreases i,
        {
            i -= 1;
            let ghost margin = self.table@[i as int].0 as int;
            let ghost items = self.table@[i as int].1@;
            let ghost before = graphs@;
            proof {
                assert forall|m: int| margin < m <= floor implies #[trigger] self@[m] == Set::<(u16, u16)>::empty() by {
                    assert forall|k: int| 0 <= k < self.table@.len() implies (#[trigger] self.table@[k]).0
                        != m by {
                        if k < i {
                            assert(self.table@[k].0 < self.table@[i as int].0);
                        }
                    }
                    lemma_unlisted_margin(self.table@, m);
                }
                lemma_skip_margins(self@, margin, floor);
                self.lemma_group_at(i as int);
                assert(items.no_duplicates()) by {
                    crate::graph::lemma_ascending_distinct(items);
                }
            }
            graphs = branch(&graphs, &self.table[i].1, self.candidates);
            proof {
                let group = items.to_set();
                let earlier = outcomes(self@, margin);
                assert(outcomes(self@, margin - 1) == extend_all(earlier, self@[margin - 1 + 1]));
                assert forall|g: Set<(u16, u16)>| outcomes(self@, margin - 1).contains(g) <==> holds(graphs@, g) by {
                    assert(holds(graphs@, g) <==> made_from(before, items, before.len() as int, g));
                    if extend_all(earlier, group).contains(g) {
                        let (prev, order) = choose|prev: Set<(u16, u16)>, order: Seq<(u16, u16)>|
                            earlier.contains(prev) && arranges(order, group) && g == #[trigger] lock_in(prev, order);
                        assert(holds(before, prev));
                        let k = choose|k: int| 0 <= k < before.len() && (#[trigger] before[k])@ == prev;
                        assert(g == lock_in(before[k]@, order));
                    }
                    if made_from(before, items, before.len() as int, g) {
                        let (k, order) = choose|k: int, order: Seq<(u16, u16)>|
                            0 <= k < before.len() && arranges(order, group) && g == #[trigger] lock_in(
                                before[k]@,
                                order,
                            );
                        assert(holds(before, before[k]@));
                        assert(earlier.contains(before[k]@));
                    }
                }
                floor = margin - 1;
                assert forall|k: int| 0 <= k < i implies (#[trigger] self.table@[k]).0 <= floor by {
                    assert(self.table@[k].0 < self.table@[i as int].0);
                }
            }
        }
        proof {
            assert forall|m: int| 0 < m <= floor implies #[trigger] self@[m] == Set::<(u16, u16)>::empty() by {
                lemma_unlisted_margin(self.table@, m);
            }
            lemma_skip_margins(self@, 0, floor);
        }
        let list = union_of_roots(&graphs, self.candidates);
        let set = gather(&list);
        proof {
            assert forall|c: u16| list@.contains(c) <==> is_winner(self@, self.candidates, c) by {
                if c < self.candidates && root_among(graphs@, graphs@.len() as int, c) {
                    let k = choose|k: int| 0 <= k < graphs@.len() && is_root((#[trigger] graphs@[k])@, c);
                    assert(holds(graphs@, graphs@[k]@));
                    assert(outcomes(self@, 0).contains(graphs@[k]@));
                }
                if is_winner(self@, self.candidates, c) {
                    let g = choose|g: Set<(u16, u16)>| #[trigger] outcomes(self@, 0).contains(g) && is_root(g, c);
                    assert(holds(graphs@, g));
                    let k = choose|k: int| 0 <= k < graphs@.len() && (#[trigger] graphs@[k])@ == g;
                    assert(is_root(graphs@[k]@, c));
                }
            }
            assert(set@ =~= winners(self@, self.candidates));
        }
        set
    }
}

/// Tally election results
///
/// This is a shortcut for [TabulatedData::from_ballots] followed by [TabulatedData::tally].
pub fn tally(ballots: &[Vec<u16>], candidates: u16) -> (r: Result<BTreeSet<u16>, Error>)
    ensures
        match ballots_fault(ballots_view(ballots@), candidates) {
            Some(e) => r.is_err() && r.unwrap_err() == e,
            None => r.is_ok() && r.unwrap()@ == winners(
                pairwise_margins(ballots_view(ballots@), candidates),
                candidates,
            ),
        },
{
    match TabulatedData::from_ballots(ballots, candidates) {
        Err(e) => Err(e),
        Ok(data) => Ok(data.tally()),
    }
}

/// Without ballots no pair is decided, and every candidate wins.
pub proof fn lemma_no_ballots(candidates: u16)
    ensures
        winners(pairwise_margins(Seq::<Seq<u16>>::empty(), candidates), candidates) == Set::new(
            |c: u16| c < candidates,
        ),
{
    let none = Seq::<Seq<u16>>::empty();
    let groups = pairwise_margins(none, candidates);
    assert forall|m: int| 0 < m <= usize::MAX implies #[trigger] groups[m] == Set::<(u16, u16)>::empty() by {
        assert(groups[m] =~= Set::<(u16, u16)>::empty());
    }
    lemma_no_contests(groups, candidates);
    assert(winners(groups, candidates) =~= Set::new(|c: u16| c < candidates));
}

/// Condorcet consistency: a candidate who is ranked ahead of each other candidate on more
/// ballots than behind them is the one winner.
pub proof fn lemma_condorcet_winner(ballots: Seq<Seq<u16>>, candidates: u16, c: u16)
    requires
        ballots.len() <= usize::MAX,
        c < candidates,
        forall|x: u16| x < candidates && x != c ==> #[trigger] wins(ballots, c, x) > wins(ballots, x, c),
    ensures
        winners(pairwise_margins(ballots, candidates), candidates) == set![c],
{
    let groups = pairwise_margins(ballots, candidates);
    assert forall|x: u16| x < candidates && x != c implies #[trigger] beats(groups, c, x) by {
        let m = wins(ballots, c, x) - wins(ballots, x, c);
        lemma_wins_bounded(ballots, c, x);
        assert(wins(ballots, c, x) > wins(ballots, x, c));
        assert(groups[m].contains((c, x)));
    }
    assert forall|m: int, x: u16| 0 < m <= usize::MAX implies !(#[trigger] groups[m].contains((x, c))) by {
        if groups[m].contains((x, c)) {
            assert(wins(ballots, c, x) > wins(ballots, x, c));
        }
    }
    lemma_condorcet(groups, candidates, c);
    assert(winners(groups, candidates) =~= set![c]);
}

/// No election with a candidate is left without a winner.
pub proof fn lemma_winner_exists(ballots: Seq<Seq<u16>>, candidates: u16)
    ensures
        winners(pairwise_margins(ballots, candidates), candidates) == Set::<u16>::empty()
            <==> candidates == 0,
{
    let groups = pairwise_margins(ballots, candidates);
    assert forall|m: int| 0 < m <= usize::MAX implies crate::graph::within(
        #[trigger] groups[m],
        candidates as int,
    ) by {}
    lemma_someone_wins(groups, candidates);
}

/// Tallying the same ballots twice gives the same winners.
pub proof fn lemma_tally_repeatable(
    first: Set<u16>,
    second: Set<u16>,
    ballots: Seq<Seq<u16>>,
    candidates: u16,
)
    requires
        first == winners(pairwise_margins(ballots, candidates), candidates),
        second == winners(pairwise_margins(ballots, candidates), candidates),
    ensures
        first == second,
{
}

} // verus!
