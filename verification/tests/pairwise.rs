use std::collections::{BTreeMap, BTreeSet};

use ranked_pairs::pairwise::{
    count_pairwise_election, margin_table, pair_set, tabulate_pairwise_results,
};

fn sample_ballots() -> Vec<Vec<u16>> {
    vec![vec![0, 1, 2], vec![1, 0, 2], vec![1, 2, 0], vec![1], vec![4]]
}

fn repeated(groups: &[(&[u16], usize)]) -> Vec<Vec<u16>> {
    groups
        .iter()
        .flat_map(|(ballot, times)| std::iter::repeat_n(ballot.to_vec(), *times))
        .collect()
}

fn example_2_ballots() -> Vec<Vec<u16>> {
    repeated(&[
        (&[0, 1, 2, 3, 4], 9),
        (&[1, 0, 2, 4, 3], 8),
        (&[2, 4, 3, 1, 0], 15),
        (&[3, 4, 0, 1, 2], 16),
    ])
}

fn example_3_ballots() -> Vec<Vec<u16>> {
    repeated(&[(&[0, 1, 2], 3), (&[2, 1, 0], 2), (&[2, 0, 1], 2)])
}

fn example_4_ballots() -> Vec<Vec<u16>> {
    repeated(&[
        (&[0, 1, 2, 3], 6),
        (&[1, 2, 0, 3], 5),
        (&[2, 0, 1, 3], 4),
        (&[3, 0, 1, 2], 5),
        (&[3, 1, 2, 0], 4),
        (&[3, 2, 0, 1], 3),
    ])
}

fn example_5_ballots() -> Vec<Vec<u16>> {
    repeated(&[
        (&[0, 1, 2, 3, 4], 7),
        (&[4, 3, 0, 1, 2], 3),
        (&[3, 4, 1, 2, 0], 6),
        (&[1, 2, 0, 4, 3], 3),
        (&[4, 2, 0, 1, 3], 5),
        (&[3, 2, 0, 1, 4], 3),
    ])
}

fn example_6_ballots() -> Vec<Vec<u16>> {
    vec![vec![0, 1, 2, 3], vec![1, 2, 3, 0], vec![3, 2, 0, 1]]
}

#[test]
fn count() {
    let ballots = sample_ballots();
    assert_eq!(count_pairwise_election(&ballots, 0, 1), (1, 3));
    assert_eq!(count_pairwise_election(&ballots, 1, 0), (3, 1));
    assert_eq!(count_pairwise_election(&ballots, 0, 4), (3, 1));
    assert_eq!(count_pairwise_election(&ballots, 4, 1), (1, 4));
    assert_eq!(count_pairwise_election(&ballots, 2, 0), (1, 2));
    assert_eq!(count_pairwise_election(&ballots, 4, 5), (1, 0));
    assert_eq!(count_pairwise_election(&ballots, 8, 9), (0, 0));

    assert_eq!(count_pairwise_election(&ballots, 1, 2), (4, 0));
}

#[test]
fn pairwise_tideman_example_2() {
    assert_eq!(
        tabulate_pairwise_results(&example_2_ballots(), 5),
        BTreeMap::from([
            (18, BTreeSet::from([(0, 2), (1, 2)])),
            (16, BTreeSet::from([(2, 3), (2, 4)])),
            (14, BTreeSet::from([(3, 0), (3, 1), (4, 0), (4, 1)])),
            (2, BTreeSet::from([(0, 1), (3, 4)])),
        ])
    );
}

#[test]
fn pairwise_tideman_example_3() {
    assert_eq!(
        tabulate_pairwise_results(&example_3_ballots(), 3),
        BTreeMap::from([
            (3, BTreeSet::from([(0, 1)])),
            (1, BTreeSet::from([(2, 0), (2, 1)])),
        ])
    );
}

#[test]
fn pairwise_tideman_example_4() {
    assert_eq!(
        tabulate_pairwise_results(&example_4_ballots(), 4),
        BTreeMap::from([
            (13, BTreeSet::from([(1, 2)])),
            (9, BTreeSet::from([(0, 1)])),
            (5, BTreeSet::from([(2, 0)])),
            (3, BTreeSet::from([(0, 3), (1, 3), (2, 3)])),
        ])
    );
}

#[test]
fn pairwise_tideman_example_5() {
    assert_eq!(
        tabulate_pairwise_results(&example_5_ballots(), 5),
        BTreeMap::from([
            (11, BTreeSet::from([(1, 2)])),
            (9, BTreeSet::from([(0, 1)])),
            (7, BTreeSet::from([(2, 0)])),
            (5, BTreeSet::from([(3, 4)])),
            (3, BTreeSet::from([(0, 3), (1, 3), (2, 3)])),
            (1, BTreeSet::from([(4, 0), (4, 1), (4, 2)])),
        ])
    );
}

#[test]
fn pairwise_tideman_example_6() {
    assert_eq!(
        tabulate_pairwise_results(&example_6_ballots(), 4),
        BTreeMap::from([(
            1,
            BTreeSet::from([(0, 1), (1, 2), (1, 3), (2, 0), (2, 3), (3, 0)])
        )])
    );
}

#[test]
fn table_lists_margins_and_pairs_in_ascending_order() {
    assert_eq!(
        margin_table(&example_4_ballots(), 4),
        vec![
            (3, vec![(0, 3), (1, 3), (2, 3)]),
            (5, vec![(2, 0)]),
            (9, vec![(0, 1)]),
            (13, vec![(1, 2)]),
        ]
    );
}

#[test]
fn count_of_a_candidate_against_itself() {
    let ballots = sample_ballots();
    assert_eq!(count_pairwise_election(&ballots, 1, 1), (4, 0));
    assert_eq!(count_pairwise_election(&ballots, 7, 7), (0, 0));
}

#[test]
fn ranked_beats_unranked_and_unranked_are_not_compared() {
    let ballots: Vec<Vec<u16>> = vec![vec![2]];
    assert_eq!(count_pairwise_election(&ballots, 2, 0), (1, 0));
    assert_eq!(count_pairwise_election(&ballots, 0, 2), (0, 1));
    assert_eq!(count_pairwise_election(&ballots, 0, 1), (0, 0));
    assert_eq!(margin_table(&ballots, 3), vec![(1, vec![(2, 0), (2, 1)])]);
    assert_eq!(
        tabulate_pairwise_results(&ballots, 3),
        BTreeMap::from([(1, BTreeSet::from([(2, 0), (2, 1)]))])
    );
}

#[test]
fn level_contests_and_small_elections_leave_no_pairs() {
    let level: Vec<Vec<u16>> = vec![vec![0, 1], vec![1, 0]];
    assert_eq!(tabulate_pairwise_results(&level, 2), BTreeMap::new());
    assert_eq!(tabulate_pairwise_results(&level, 1), BTreeMap::new());
    assert_eq!(tabulate_pairwise_results(&level, 0), BTreeMap::new());
    assert_eq!(margin_table(&level, 2), vec![]);
    let none: Vec<Vec<u16>> = Vec::new();
    assert_eq!(tabulate_pairwise_results(&none, 5), BTreeMap::new());
    assert_eq!(margin_table(&none, 5), vec![]);
    assert_eq!(pair_set(&vec![(1, 0), (0, 1), (1, 0)]), BTreeSet::from([(0, 1), (1, 0)]));
}
