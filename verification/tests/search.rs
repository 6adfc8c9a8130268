use std::collections::BTreeSet;

use ranked_pairs::graph::{
    copy_edges, edge_before, insert_ascending, lower_bound, AcyclicGraph,
};
use ranked_pairs::search::{branch, gather, lock, union_of_roots};

fn graph_of(nodes: u16, edges: &[(u16, u16)]) -> AcyclicGraph {
    let mut graph = AcyclicGraph::new(nodes);
    for (src, dst) in edges {
        assert!(graph.try_add_edge(*src, *dst));
    }
    graph
}

#[test]
fn edges_are_ordered_by_source_then_destination() {
    assert!(edge_before((0, 5), (1, 0)));
    assert!(edge_before((1, 0), (1, 1)));
    assert!(!edge_before((1, 1), (1, 1)));
    assert!(!edge_before((2, 0), (1, 9)));
}

#[test]
fn lower_bound_finds_the_first_edge_not_below() {
    let edges = vec![(0, 1), (0, 4), (2, 0), (2, 3), (5, 1)];
    assert_eq!(lower_bound(&edges, (0, 0)), 0);
    assert_eq!(lower_bound(&edges, (0, 4)), 1);
    assert_eq!(lower_bound(&edges, (1, 0)), 2);
    assert_eq!(lower_bound(&edges, (2, 1)), 3);
    assert_eq!(lower_bound(&edges, (5, 1)), 4);
    assert_eq!(lower_bound(&edges, (5, 2)), 5);
    assert_eq!(lower_bound(&Vec::new(), (3, 3)), 0);
}

#[test]
fn insert_keeps_edges_ascending_and_single() {
    let mut edges = vec![(0, 1), (2, 0)];
    insert_ascending(&mut edges, (1, 7));
    insert_ascending(&mut edges, (0, 0));
    insert_ascending(&mut edges, (2, 0));
    insert_ascending(&mut edges, (9, 9));
    assert_eq!(edges, vec![(0, 0), (0, 1), (1, 7), (2, 0), (9, 9)]);
    assert_eq!(copy_edges(&edges), edges);
}

#[test]
fn lock_skips_what_would_close_a_cycle() {
    let start = AcyclicGraph::new(3);
    let locked = lock(&start, &vec![(0, 1), (1, 2), (2, 0)]);
    assert!(locked.equals(&graph_of(3, &[(0, 1), (1, 2)])));
    let other = lock(&start, &vec![(2, 0), (1, 2), (0, 1)]);
    assert!(other.equals(&graph_of(3, &[(2, 0), (1, 2)])));
    assert!(lock(&start, &vec![]).equals(&start));
    assert!(lock(&start, &vec![(1, 1)]).equals(&start));
    assert!(start.equals(&AcyclicGraph::new(3)));
}

#[test]
fn branch_takes_every_order_and_keeps_each_graph_once() {
    let start = vec![AcyclicGraph::new(3)];
    let next = branch(&start, &vec![(0, 1), (1, 2), (2, 0)], 3);
    assert_eq!(next.len(), 3);
    let expected = [
        graph_of(3, &[(0, 1), (1, 2)]),
        graph_of(3, &[(1, 2), (2, 0)]),
        graph_of(3, &[(2, 0), (0, 1)]),
    ];
    for graph in &expected {
        assert_eq!(next.iter().filter(|g| g.equals(graph)).count(), 1);
    }
    assert_eq!(union_of_roots(&next, 3), vec![0, 1, 2]);

    // 0 -> 2 closes a cycle wherever 2 -> 0 stands
    let after = branch(&next, &vec![(0, 2)], 3);
    assert_eq!(after.len(), 3);
    assert_eq!(after.iter().filter(|g| g.equals(&graph_of(3, &[(0, 1), (1, 2), (0, 2)]))).count(), 1);
    assert_eq!(after.iter().filter(|g| g.equals(&expected[1])).count(), 1);
    assert_eq!(after.iter().filter(|g| g.equals(&expected[2])).count(), 1);
    assert_eq!(union_of_roots(&after, 3), vec![0, 1, 2]);
}

#[test]
fn branch_on_no_pairs_keeps_the_graphs() {
    let start = vec![graph_of(2, &[(1, 0)]), AcyclicGraph::new(2)];
    let next = branch(&start, &vec![], 2);
    assert_eq!(next.len(), 2);
    assert!(next[0].equals(&start[0]));
    assert!(next[1].equals(&start[1]));
    assert_eq!(branch(&Vec::new(), &vec![(0, 1)], 2).len(), 0);
}

#[test]
fn branch_joins_graphs_that_come_out_alike() {
    let start = vec![AcyclicGraph::new(4)];
    let next = branch(&start, &vec![(0, 1), (2, 3)], 4);
    assert_eq!(next.len(), 1);
    assert!(next[0].equals(&graph_of(4, &[(0, 1), (2, 3)])));
}

#[test]
fn roots_of_several_graphs_are_united() {
    let graphs = vec![graph_of(4, &[(0, 1), (0, 2), (0, 3)]), graph_of(4, &[(3, 0), (3, 1), (3, 2)])];
    assert_eq!(union_of_roots(&graphs, 4), vec![0, 3]);
    assert_eq!(union_of_roots(&Vec::new(), 4), Vec::<u16>::new());
    assert_eq!(gather(&vec![3, 0, 3]), BTreeSet::from([0, 3]));
    assert_eq!(gather(&vec![]), BTreeSet::new());
}
