use ranked_pairs::graph::AcyclicGraph;

#[test]
fn dfs() {
    let mut graph = AcyclicGraph::new(12);

    // root to each child
    assert!(graph.try_add_edge(8, 9));
    assert!(graph.try_add_edge(8, 2));
    assert!(graph.try_add_edge(8, 3));

    // left child of root
    assert!(graph.try_add_edge(9, 10));
    assert!(graph.try_add_edge(10, 11));
    assert!(graph.try_add_edge(10, 0));
    assert!(graph.try_add_edge(9, 1));

    // right child of root
    assert!(graph.try_add_edge(3, 4));
    assert!(graph.try_add_edge(4, 5));
    assert!(graph.try_add_edge(4, 6));
    assert!(graph.try_add_edge(3, 7));

    assert_eq!(graph.dfs(8), &[2, 3, 4, 5, 6, 7, 9, 1, 10, 0, 11]);
}

#[test]
fn new_graph_has_every_node_as_root() {
    assert_eq!(AcyclicGraph::new(0).roots(), Vec::<u16>::new());
    assert_eq!(AcyclicGraph::new(1).roots(), vec![0]);
    assert_eq!(AcyclicGraph::new(4).roots(), vec![0, 1, 2, 3]);
    assert_eq!(AcyclicGraph::new(4).nodes(), 4);
}

#[test]
fn self_loop_is_refused() {
    let mut graph = AcyclicGraph::new(3);
    assert!(!graph.try_add_edge(1, 1));
    assert!(graph.equals(&AcyclicGraph::new(3)));
    assert_eq!(graph.roots(), vec![0, 1, 2]);
}

#[test]
fn edge_that_closes_a_cycle_is_refused() {
    let mut graph = AcyclicGraph::new(4);
    assert!(graph.try_add_edge(0, 1));
    assert!(graph.try_add_edge(1, 2));
    assert!(graph.try_add_edge(2, 3));
    let before = graph.clone();
    assert!(!graph.try_add_edge(3, 0));
    assert!(!graph.try_add_edge(2, 0));
    assert!(!graph.try_add_edge(1, 0));
    assert!(graph.equals(&before));
    assert_eq!(graph, before);
    assert!(graph.try_add_edge(0, 3));
    assert!(!graph.equals(&before));
    assert_eq!(graph.roots(), vec![0]);
}

#[test]
fn edge_that_is_present_stays() {
    let mut graph = AcyclicGraph::new(3);
    assert!(graph.try_add_edge(0, 1));
    let before = graph.clone();
    assert!(graph.try_add_edge(0, 1));
    assert!(graph.equals(&before));
    assert_eq!(graph.outgoing(0), vec![1]);
}

#[test]
fn roots_leave_out_every_destination() {
    let mut graph = AcyclicGraph::new(6);
    assert!(graph.try_add_edge(0, 1));
    assert!(graph.try_add_edge(0, 3));
    assert!(graph.try_add_edge(5, 3));
    assert!(graph.try_add_edge(3, 4));
    assert_eq!(graph.roots(), vec![0, 2, 5]);
}

#[test]
fn outgoing_is_ascending() {
    let mut graph = AcyclicGraph::new(6);
    assert!(graph.try_add_edge(2, 5));
    assert!(graph.try_add_edge(2, 0));
    assert!(graph.try_add_edge(2, 3));
    assert!(graph.try_add_edge(1, 2));
    assert!(graph.try_add_edge(3, 4));
    assert_eq!(graph.outgoing(2), vec![0, 3, 5]);
    assert_eq!(graph.outgoing(1), vec![2]);
    assert_eq!(graph.outgoing(4), Vec::<u16>::new());
    assert_eq!(graph.outgoing(9), Vec::<u16>::new());
}

#[test]
fn dfs_yields_a_node_once_for_every_path() {
    let mut diamond = AcyclicGraph::new(4);
    assert!(diamond.try_add_edge(0, 1));
    assert!(diamond.try_add_edge(0, 2));
    assert!(diamond.try_add_edge(1, 3));
    assert!(diamond.try_add_edge(2, 3));
    assert_eq!(diamond.dfs(0), vec![1, 3, 2, 3]);
    assert_eq!(diamond.dfs(1), vec![3]);

    let mut graph = AcyclicGraph::new(5);
    assert!(graph.try_add_edge(0, 1));
    assert!(graph.try_add_edge(0, 2));
    assert!(graph.try_add_edge(1, 3));
    assert!(graph.try_add_edge(2, 3));
    assert!(graph.try_add_edge(3, 4));
    assert_eq!(graph.dfs(0), vec![1, 3, 4, 2, 3, 4]);
    assert_eq!(graph.dfs(3), vec![4]);
    assert_eq!(graph.dfs(4), Vec::<u16>::new());
    assert_eq!(graph.dfs(7), Vec::<u16>::new());
}

#[test]
fn edge_is_refused_exactly_when_the_walk_from_its_head_yields_its_tail() {
    let mut graph = AcyclicGraph::new(5);
    assert!(graph.try_add_edge(0, 1));
    assert!(graph.try_add_edge(1, 2));
    assert!(graph.try_add_edge(3, 2));
    for src in 0..5u16 {
        for dst in 0..5u16 {
            let expected = src != dst && !graph.dfs(dst).contains(&src);
            let mut copy = graph.clone();
            assert_eq!(copy.try_add_edge(src, dst), expected);
            assert_eq!(copy.equals(&graph), !expected || graph.outgoing(src).contains(&dst));
        }
    }
}

#[test]
fn dfs_follows_the_longest_path_to_its_end() {
    let mut chain = AcyclicGraph::new(6);
    assert!(chain.try_add_edge(4, 5));
    assert!(chain.try_add_edge(3, 4));
    assert!(chain.try_add_edge(2, 3));
    assert!(chain.try_add_edge(1, 2));
    assert!(chain.try_add_edge(0, 1));
    assert!(chain.try_add_edge(0, 5));
    assert_eq!(chain.dfs(0), vec![1, 2, 3, 4, 5, 5]);
    assert_eq!(AcyclicGraph::new(0).dfs(0), Vec::<u16>::new());
}

#[test]
fn order_of_insertion_does_not_matter() {
    let mut a = AcyclicGraph::new(4);
    let mut b = AcyclicGraph::new(4);
    assert!(a.try_add_edge(0, 1));
    assert!(a.try_add_edge(2, 3));
    assert!(b.try_add_edge(2, 3));
    assert!(b.try_add_edge(0, 1));
    assert!(a.equals(&b));
    assert_eq!(a, b);
    assert!(!a.equals(&AcyclicGraph::new(4)));
    let mut c = AcyclicGraph::new(5);
    assert!(c.try_add_edge(0, 1));
    assert!(c.try_add_edge(2, 3));
    assert!(!a.equals(&c));
}
