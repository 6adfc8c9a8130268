//! Checking ballots before they are counted.

use crate::Error;
use vstd::prelude::*;

verus! {

/// What is wrong with the last entry of `seen`, given the entries before it: it names no
/// candidate, or it repeats an earlier entry.
pub open spec fn last_fault(seen: Seq<u16>, candidates: u16) -> Option<Error> {
    if seen.last() >= candidates {
        Some(Error::InvalidCandidate)
    } else if seen.drop_last().contains(seen.last()) {
        Some(Error::InvalidBallot)
    } else {
        None
    }
}

/// The fault of the first entry of the ballot that has one, reading from the front.
pub open spec fn ballot_fault(ballot: Seq<u16>, candidates: u16) -> Option<Error>
    decreases ballot.len(),
{
    if ballot.len() == 0 {
        None
    } else {
        match ballot_fault(ballot.drop_last(), candidates) {
            Some(e) => Some(e),
            None => last_fault(ballot, candidates),
        }
    }
}

/// The fault of the first ballot that has one.
pub open spec fn ballots_fault(ballots: Seq<Seq<u16>>, candidates: u16) -> Option<Error>
    decreases ballots.len(),
{
    if ballots.len() == 0 {
        None
    } else {
        match ballots_fault(ballots.drop_last(), candidates) {
            Some(e) => Some(e),
            None => ballot_fault(ballots.last(), candidates),
        }
    }
}

/// A fault found in the first `k` entries is the fault of the whole ballot.
proof fn lemma_ballot_fault_stays(ballot: Seq<u16>, k: int, candidates: u16)
    requires
        0 <= k <= ballot.len(),
        ballot_fault(ballot.subrange(0, k), candidates).is_some(),
    ensures
        ballot_fault(ballot, candidates) == ballot_fault(ballot.subrange(0, k), candidates),
    decreases ballot.len(),
{
    if k == ballot.len() {
        assert(ballot.subrange(0, k) =~= ballot);
    } else {
        assert(ballot.drop_last().subrange(0, k) =~= ballot.subrange(0, k));
        lemma_ballot_fault_stays(ballot.drop_last(), k, candidates);
    }
}

/// A fault found in the first `k` ballots is the fault of them all.
proof fn lemma_ballots_fault_stays(ballots: Seq<Seq<u16>>, k: int, candidates: u16)
    requires
        0 <= k <= ballots.len(),
        ballots_fault(ballots.subrange(0, k), candidates).is_some(),
    ensures
        ballots_fault(ballots, candidates) == ballots_fault(ballots.subrange(0, k), candidates),
    decreases ballots.len(),
{
    if k == ballots.len() {
        assert(ballots.subrange(0, k) =~= ballots);
    } else {
        assert(ballots.drop_last().subrange(0, k) =~= ballots.subrange(0, k));
        lemma_ballots_fault_stays(ballots.drop_last(), k, candidates);
    }
}

/// A ballot without fault names only candidates, and none of them twice.
pub proof fn lemma_sound_ballot(ballot: Seq<u16>, candidates: u16)
    ensures
        ballot_fault(ballot, candidates).is_none() <==> ballot.no_duplicates() && forall|i: int|
            0 <= i < ballot.len() ==> #[trigger] ballot[i] < candidates,
    decreases ballot.len(),
{
    if ballot.len() > 0 {
        let front = ballot.drop_last();
        lemma_sound_ballot(front, candidates);
        if ballot_fault(ballot, candidates).is_none() {
            assert forall|i: int| 0 <= i < ballot.len() implies #[trigger] ballot[i] < candidates by {
                if i < front.len() {
                    assert(front[i] == ballot[i]);
                }
            }
            assert forall|i: int, j: int| 0 <= i < ballot.len() && 0 <= j < ballot.len() && i != j implies ballot[i] != ballot[j] by {
                if i < front.len() && j < front.len() {
                    assert(front[i] != front[j]);
                } else if i < front.len() {
                    assert(front[i] == ballot[i]);
                } else {
                    assert(front[j] == ballot[j]);
                }
            }
        }
        if ballot.no_duplicates() && forall|i: int| 0 <= i < ballot.len() ==> #[trigger] ballot[i] < candidates {
            assert forall|i: int| 0 <= i < front.len() implies #[trigger] front[i] < candidates by {
                assert(front[i] == ballot[i]);
            }
            assert(front.no_duplicates());
            if front.contains(ballot.last()) {
                let i = choose|i: int| 0 <= i < front.len() && front[i] == ballot.last();
                assert(ballot[i] == ballot[ballot.len() - 1]);
            }
        }
    }
}

/// Reads one ballot from the front and reports the first entry that names no candidate
/// or repeats an earlier one.
pub fn check_ballot(ballot: &Vec<u16>, candidates: u16) -> (r: Result<(), Error>)
    ensures
        r == match ballot_fault(ballot@, candidates) {
            Some(e) => Err::<(), Error>(e),
            None => Ok::<(), Error>(()),
        },
{
    let mut j: usize = 0;
    while j < ballot.len()
        invariant
            j <= ballot@.len(),
            ballot_fault(ballot@.subrange(0, j as int), candidates).is_none(),
        decreases ballot@.len() - j,
    {
        let v = ballot[j];
        let ghost upto = ballot@.subrange(0, j + 1);
        proof {
            assert(upto.drop_last() =~= ballot@.subrange(0, j as int));
            assert(upto.last() == v);
        }
        if v >= candidates {
            proof {
                lemma_ballot_fault_stays(ballot@, j + 1, candidates);
            }
            return Err(Error::InvalidCandidate);
        }
        let mut k: usize = 0;
        while k < j
            invariant
                k <= j < ballot@.len(),
                v == ballot@[j as int],
                v < candidates,
                upto == ballot@.subrange(0, j + 1),
                ballot_fault(upto.drop_last(), candidates).is_none(),
                forall|i: int| 0 <= i < k ==> ballot@[i] != v,
            decreases j - k,
        {
            if ballot[k] == v {
                proof {
                    assert(upto.drop_last()[k as int] == v);
                    lemma_ballot_fault_stays(ballot@, j + 1, candidates);
                }
                return Err(Error::InvalidBallot);
            }
            k += 1;
        }
        proof {
            if upto.drop_last().contains(v) {
                let i = choose|i: int| 0 <= i < upto.drop_last().len() && upto.drop_last()[i] == v;
                assert(ballot@[i] == v);
            }
        }
        j += 1;
    }
    assert(ballot@.subrange(0, j as int) =~= ballot@);
    Ok(())
}

/// Reads the ballots in order and reports the first fault.
pub fn check_ballots(ballots: &[Vec<u16>], candidates: u16) -> (r: Result<(), Error>)
    ensures
        r == match ballots_fault(crate::pairwise::ballots_view(ballots@), candidates) {
            Some(e) => Err::<(), Error>(e),
            None => Ok::<(), Error>(()),
        },
{
    let ghost all = crate::pairwise::ballots_view(ballots@);
    let mut i: usize = 0;
    while i < ballots.len()
        invariant
            i <= ballots@.len(),
            all == crate::pairwise::ballots_view(ballots@),
            ballots_fault(all.subrange(0, i as int), candidates).is_none(),
        decreases ballots@.len() - i,
    {
        let ghost upto = all.subrange(0, i + 1);
        proof {
            assert(upto.drop_last() =~= all.subrange(0, i as int));
            assert(upto.last() == ballots@[i as int]@);
        }
        match check_ballot(&ballots[i], candidates) {
            Err(e) => {
                proof {
                    lemma_ballots_fault_stays(all, i + 1, candidates);
                }
                return Err(e);
            },
            Ok(_) => {},
        }
        i += 1;
    }
    assert(all.subrange(0, i as int) =~= all);
    Ok(())
}

} // verus!
