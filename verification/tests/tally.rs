use std::collections::BTreeSet;

use ranked_pairs::validate::{check_ballot, check_ballots};
use ranked_pairs::{tally, Error, TabulatedData};

fn ballots_of<B: AsRef<[u16]>>(ballots: &[B]) -> Vec<Vec<u16>> {
    ballots.iter().map(|b| b.as_ref().to_vec()).collect()
}

fn winners<B: AsRef<[u16]>>(ballots: &[B], candidates: u16) -> Result<BTreeSet<u16>, Error> {
    tally(&ballots_of(ballots), candidates)
}

/// Filter the ballots, keeping only candidates for which the function gives `true`
fn filter_ballots<B: Into<Vec<u16>>>(ballots: Vec<B>, f: impl Fn(u16) -> bool) -> Vec<Vec<u16>> {
    ballots
        .into_iter()
        .map(|b| b.into().into_iter().filter(|n| f(*n)).collect())
        .collect()
}

#[test]
fn invalid_ballots() {
    assert_eq!(winners(&[[1, 2], [0, 3]], 3), Err(Error::InvalidCandidate));
    assert_eq!(winners(&[[0, 1, 2], [0, 1, 0]], 3), Err(Error::InvalidBallot),);
}

#[test]
fn basic() {
    for l in 0..3 {
        assert_eq!(
            winners(&(0..l).map(|_| []).collect::<Vec<[u16; 0]>>(), 0).unwrap(),
            BTreeSet::from([])
        );
    }

    for l in 0..3 {
        assert_eq!(
            winners(&(0..l).map(|_| []).collect::<Vec<[u16; 0]>>(), 1).unwrap(),
            BTreeSet::from([0])
        );
    }

    for l in 0..3 {
        assert_eq!(
            winners(&(0..l).map(|_| [0]).collect::<Vec<_>>(), 1).unwrap(),
            BTreeSet::from([0])
        );
    }
}

#[test]
fn simple() {
    assert_eq!(
        winners(
            &[[1, 2].as_slice(), [0, 3].as_slice(), [3, 2, 1].as_slice()],
            6
        )
        .unwrap(),
        BTreeSet::from([3]),
    );
    assert_eq!(
        winners(
            &[[1, 2].as_slice(), [0, 3].as_slice(), [3, 2, 1].as_slice()],
            6
        )
        .unwrap(),
        BTreeSet::from([3]),
    );
}

#[test]
fn wikipedia_example() {
    assert_eq!(
        winners(
            [
                std::iter::repeat_n([0, 1, 2, 3].as_slice(), 42),
                std::iter::repeat_n([1, 2, 3, 0].as_slice(), 26),
                std::iter::repeat_n([2, 3, 1, 0].as_slice(), 15),
                std::iter::repeat_n([3, 2, 1, 0].as_slice(), 17),
            ]
            .into_iter()
            .flatten()
            .collect::<Vec<_>>()
            .as_slice(),
            4
        )
        .unwrap(),
        BTreeSet::from([1]),
    );
}

#[test]
fn simple_tie() {
    assert_eq!(
        winners(
            [
                std::iter::repeat_n([0, 2].as_slice(), 8),
                std::iter::repeat_n([2, 3, 0, 1].as_slice(), 4),
                std::iter::repeat_n([2, 3, 1].as_slice(), 2),
                std::iter::repeat_n([3, 2].as_slice(), 2),
            ]
            .into_iter()
            .flatten()
            .collect::<Vec<_>>()
            .as_slice(),
            4
        )
        .unwrap(),
        BTreeSet::from([0, 2]),
    );
}

// Tideman examples from: Tideman, T.N. Independence of clones as a criterion for voting rules. Soc
// Choice Welfare 4, 185–206 (1987). https://doi.org/10.1007/BF00433944

fn tideman_example_2_ballots() -> Vec<[u16; 5]> {
    [
        std::iter::repeat_n([0, 1, 2, 3, 4], 9),
        std::iter::repeat_n([1, 0, 2, 4, 3], 8),
        std::iter::repeat_n([2, 4, 3, 1, 0], 15),
        std::iter::repeat_n([3, 4, 0, 1, 2], 16),
    ]
    .into_iter()
    .flatten()
    .collect()
}

#[test]
fn test_tideman_example_2() {
    assert_eq!(
        winners(&tideman_example_2_ballots(), 5).unwrap(),
        // 0 & 1 beat 2, 2 beats 3 & 4, (ignored: 3 & 4 beat 0 & 1), 3 beats 4, 0 beats 1
        BTreeSet::from([0]),
    );

    // this has 4 (clone of 3) removed
    assert_eq!(
        winners(&filter_ballots(tideman_example_2_ballots(), |c| c != 4), 4).unwrap(),
        // should be the same as the first part due to independence of clones
        BTreeSet::from([0]),
    );

    // this has 1 (clone of 0) removed
    assert_eq!(
        winners(&filter_ballots(tideman_example_2_ballots(), |c| c != 1), 5).unwrap(),
        BTreeSet::from([0]),
    );

    // this has both clones removed
    assert_eq!(
        winners(
            &filter_ballots(tideman_example_2_ballots(), |c| c != 1 && c != 4),
            5
        )
        .unwrap(),
        BTreeSet::from([0]),
    );
}

fn tideman_example_3_ballots() -> Vec<[u16; 3]> {
    [
        std::iter::repeat_n([0, 1, 2], 3),
        std::iter::repeat_n([2, 1, 0], 2),
        std::iter::repeat_n([2, 0, 1], 2),
    ]
    .into_iter()
    .flatten()
    .collect()
}

#[test]
fn test_tideman_example_3() {
    assert_eq!(
        winners(&tideman_example_3_ballots(), 3).unwrap(),
        BTreeSet::from([2]),
    );

    // clone removed
    assert_eq!(
        winners(&filter_ballots(tideman_example_3_ballots(), |c| c != 0), 3).unwrap(),
        BTreeSet::from([2]),
    );
}

fn tideman_example_4_ballots() -> Vec<[u16; 4]> {
    [
        std::iter::repeat_n([0, 1, 2, 3], 6),
        std::iter::repeat_n([1, 2, 0, 3], 5),
        std::iter::repeat_n([2, 0, 1, 3], 4),
        std::iter::repeat_n([3, 0, 1, 2], 5),
        std::iter::repeat_n([3, 1, 2, 0], 4),
        std::iter::repeat_n([3, 2, 0, 1], 3),
    ]
    .into_iter()
    .flatten()
    .collect()
}

#[test]
fn test_tideman_example_4() {
    assert_eq!(
        winners(&tideman_example_4_ballots(), 4).unwrap(),
        // 1 beats 2, 0 beats 1, (ignored: 2 beats 0), 0 & 1 & 2 beat 3
        BTreeSet::from([0]),
    );
}

fn tideman_example_5_ballots() -> Vec<[u16; 5]> {
    [
        std::iter::repeat_n([0, 1, 2, 3, 4], 7),
        std::iter::repeat_n([4, 3, 0, 1, 2], 3),
        std::iter::repeat_n([3, 4, 1, 2, 0], 6),
        std::iter::repeat_n([1, 2, 0, 4, 3], 3),
        std::iter::repeat_n([4, 2, 0, 1, 3], 5),
        std::iter::repeat_n([3, 2, 0, 1, 4], 3),
    ]
    .into_iter()
    .flatten()
    .collect()
}

#[test]
fn test_tideman_example_5() {
    assert_eq!(
        winners(&tideman_example_5_ballots(), 5).unwrap(),
        BTreeSet::from([0]),
    );

    // remove a clone
    assert_eq!(
        winners(&filter_ballots(tideman_example_5_ballots(), |c| c != 2), 5).unwrap(),
        BTreeSet::from([0]),
    );

    // remove the other clone
    assert_eq!(
        winners(&filter_ballots(tideman_example_5_ballots(), |c| c != 1), 5).unwrap(),
        BTreeSet::from([2]), // changes to a different candidate in the set of clones, this is okay
    );

    // remove both clones
    assert_eq!(
        winners(
            &filter_ballots(tideman_example_5_ballots(), |c| c != 1 && c != 2),
            5
        )
        .unwrap(),
        BTreeSet::from([0]),
    );
}

fn tideman_example_6_ballots() -> Vec<[u16; 4]> {
    vec![[0, 1, 2, 3], [1, 2, 3, 0], [3, 2, 0, 1]]
}

#[test]
fn test_tideman_example_6() {
    assert_eq!(
        winners(&tideman_example_6_ballots(), 4).unwrap(),
        BTreeSet::from([0, 1, 2, 3]),
    );
}

// Munger examples from: Munger, C.T. The best Condorcet-compatible election method: Ranked Pairs.
// Const Polit Econ 34, 434–444 (2023). https://doi.org/10.1007/s10602-022-09382-w

#[test]
fn munger_example_1() {
    assert_eq!(
        winners(
            [
                std::iter::repeat_n([0, 2, 3, 1].as_slice(), 3),
                std::iter::repeat_n([0, 3, 1, 2].as_slice(), 5),
                std::iter::repeat_n([1, 0, 2, 3].as_slice(), 4),
                std::iter::repeat_n([1, 2, 3, 0].as_slice(), 5),
                std::iter::repeat_n([2, 0, 3, 1].as_slice(), 2),
                std::iter::repeat_n([2, 3, 0, 1].as_slice(), 5),
                std::iter::repeat_n([3, 0, 1, 2].as_slice(), 2),
                std::iter::repeat_n([3, 1, 0, 2].as_slice(), 4),
            ]
            .into_iter()
            .flatten()
            .collect::<Vec<_>>()
            .as_slice(),
            4
        )
        .unwrap(),
        BTreeSet::from([3]),
    );
}

#[test]
fn no_ballots_leave_every_candidate_a_winner() {
    let none: Vec<Vec<u16>> = Vec::new();
    assert_eq!(tally(&none, 0), Ok(BTreeSet::from([])));
    assert_eq!(tally(&none, 1), Ok(BTreeSet::from([0])));
    assert_eq!(tally(&none, 2), Ok(BTreeSet::from([0, 1])));
    assert_eq!(tally(&none, 7), Ok(BTreeSet::from([0, 1, 2, 3, 4, 5, 6])));
}

#[test]
fn tally_twice_gives_the_same() {
    let ballots = ballots_of(&tideman_example_6_ballots());
    assert_eq!(tally(&ballots, 4), tally(&ballots, 4));
    let data = TabulatedData::from_ballots(&ballots, 4).unwrap();
    assert_eq!(data.tally(), data.tally());
    assert_eq!(data.tally(), BTreeSet::from([0, 1, 2, 3]));
    assert_eq!(data.candidate_count(), 4);
}

#[test]
fn candidate_who_beats_all_others_wins_alone() {
    let ballots: Vec<Vec<u16>> = vec![
        vec![2, 0, 1, 3],
        vec![2, 1, 3, 0],
        vec![2, 3, 0, 1],
        vec![0, 2, 1, 3],
        vec![1, 2, 3, 0],
    ];
    assert_eq!(tally(&ballots, 4), Ok(BTreeSet::from([2])));
}

#[test]
fn clone_independence_regression() {
    assert_eq!(
        winners(&tideman_example_5_ballots(), 5).unwrap(),
        BTreeSet::from([0]),
    );
    assert_eq!(
        winners(&filter_ballots(tideman_example_5_ballots(), |c| c != 2), 5).unwrap(),
        BTreeSet::from([0]),
    );
}

#[test]
fn there_is_a_winner_exactly_when_there_is_a_candidate() {
    let none: Vec<Vec<u16>> = Vec::new();
    assert!(tally(&none, 0).unwrap().is_empty());
    assert!(!tally(&none, 3).unwrap().is_empty());
    assert!(!tally(&ballots_of(&tideman_example_6_ballots()), 4).unwrap().is_empty());
    assert!(!tally(&ballots_of(&tideman_example_2_ballots()), 6).unwrap().is_empty());
    let cycle: Vec<Vec<u16>> = vec![vec![0, 1, 2], vec![1, 2, 0], vec![2, 0, 1], vec![0, 1, 2]];
    assert_eq!(tally(&cycle, 3), Ok(BTreeSet::from([0])));
}

#[test]
fn three_way_tie_has_three_winners() {
    // a cycle 0 > 1 > 2 > 0 with equal margins: each order of locking in drops another edge
    let ballots: Vec<Vec<u16>> = vec![vec![0, 1, 2], vec![1, 2, 0], vec![2, 0, 1]];
    assert_eq!(tally(&ballots, 3), Ok(BTreeSet::from([0, 1, 2])));
}

#[test]
fn first_fault_decides_the_error() {
    assert_eq!(check_ballot(&vec![0, 0, 5], 3), Err(Error::InvalidBallot));
    assert_eq!(check_ballot(&vec![0, 5, 0], 3), Err(Error::InvalidCandidate));
    assert_eq!(check_ballot(&vec![5, 5], 3), Err(Error::InvalidCandidate));
    assert_eq!(check_ballot(&vec![3], 3), Err(Error::InvalidCandidate));
    assert_eq!(check_ballot(&vec![2, 0, 1], 3), Ok(()));
    assert_eq!(check_ballot(&vec![], 0), Ok(()));
    assert_eq!(
        check_ballots(&[vec![0, 1], vec![1, 1], vec![9]], 3),
        Err(Error::InvalidBallot)
    );
    assert_eq!(
        check_ballots(&[vec![0, 1], vec![9], vec![1, 1]], 3),
        Err(Error::InvalidCandidate)
    );
    assert_eq!(check_ballots(&[vec![0, 1], vec![2]], 3), Ok(()));
    assert_eq!(tally(&[vec![0]], 0), Err(Error::InvalidCandidate));
    assert!(TabulatedData::from_ballots(&[vec![1, 1]], 2).is_err());
}

#[test]
fn error_messages() {
    assert_eq!(Error::InvalidBallot.message(), "an invalid ballot was given");
    assert_eq!(
        Error::InvalidCandidate.message(),
        "an invalid candidate was voted for"
    );
}

#[test]
fn groups_come_widest_margin_first() {
    let data = TabulatedData::from_ballots(&ballots_of(&tideman_example_4_ballots()), 4).unwrap();
    assert_eq!(
        data.pairwise_results(),
        vec![
            BTreeSet::from([(1, 2)]),
            BTreeSet::from([(0, 1)]),
            BTreeSet::from([(2, 0)]),
            BTreeSet::from([(0, 3), (1, 3), (2, 3)]),
        ]
    );
    assert_eq!(data.pairwise_results(), data.pairwise_results());
    let none: Vec<Vec<u16>> = Vec::new();
    let empty = TabulatedData::from_ballots(&none, 3).unwrap();
    assert_eq!(empty.pairwise_results(), Vec::<BTreeSet<(u16, u16)>>::new());
}
