use digraph::DiGraph;

#[test]
fn cycle_from() {
    let mut graph = DiGraph::new();
    let n0 = graph.node();
    let n1 = graph.node();
    graph.edge(n0, n1);
    graph.edge(n1, n0);
    assert!(graph.cycle_from(n0));
    assert!(graph.cycle_from(n1));
}

#[test]
fn no_cycle_from() {
    let mut graph = DiGraph::new();
    let n0 = graph.node();
    let n1 = graph.node();
    graph.edge(n0, n1);
    assert!(!graph.cycle_from(n0));
    assert!(!graph.cycle_from(n1));
}

#[test]
fn cycle_not_containing_target() {
    let mut graph = DiGraph::new();
    let n0 = graph.node();
    let n1 = graph.node();
    let n2 = graph.node();
    graph.edge(n0, n1);
    graph.edge(n1, n0);
    graph.edge(n2, n0);
    graph.edge(n2, n1);
    assert!(graph.cycle_from(n0));
    assert!(graph.cycle_from(n1));
    assert!(!graph.cycle_from(n2));
}

#[test]
fn get_node() {
    let mut graph = DiGraph::new();
    let n0 = graph.node();
    let n1 = graph.node();
    let n2 = graph.node();
    assert_eq!(graph.get_node(0), Some(n0));
    assert_eq!(graph.get_node(1), Some(n1));
    assert_eq!(graph.get_node(2), Some(n2));
    assert_eq!(graph.get_node(3), None);
}

#[test]
fn get_edge() {
    let mut graph = DiGraph::new();
    let n0 = graph.node();
    let n1 = graph.node();
    let e0 = graph.edge(n0, n1);
    assert_eq!(graph.get_edge(0, 1), Some(e0));
    assert_eq!(graph.get_edge(1, 0), None);
    assert_eq!(graph.get_edge(1, 2), None);
}

#[test]
fn self_loop_is_a_cycle() {
    let mut graph = DiGraph::new();
    let n0 = graph.node();
    let n1 = graph.node();
    graph.edge(n0, n0);
    assert!(graph.cycle_from(n0));
    assert!(!graph.cycle_from(n1));
}

#[test]
fn len_counts_added_nodes() {
    let mut graph = DiGraph::new();
    assert_eq!(graph.len(), 0);
    let n0 = graph.node();
    assert_eq!(graph.len(), 1);
    let n1 = graph.node();
    let _n2 = graph.node();
    assert_eq!(graph.len(), 3);
    graph.edge(n0, n1);
    graph.edge(n1, n0);
    assert_eq!(graph.len(), 3);
}

#[test]
fn has_edge_after_add() {
    let mut graph = DiGraph::new();
    let n0 = graph.node();
    let n1 = graph.node();
    assert!(!graph.has_edge(n0, n1));
    graph.edge(n0, n1);
    assert!(graph.has_edge(n0, n1));
    assert!(!graph.has_edge(n1, n0));
}

#[test]
fn has_edge_ignores_insertion_order() {
    let mut forward = DiGraph::new();
    let f0 = forward.node();
    let f1 = forward.node();
    let f2 = forward.node();
    forward.edge(f0, f1);
    forward.edge(f0, f2);

    let mut backward = DiGraph::new();
    let b0 = backward.node();
    let b1 = backward.node();
    let b2 = backward.node();
    backward.edge(b0, b2);
    backward.edge(b0, b1);

    assert_eq!(forward.has_edge(f0, f1), backward.has_edge(b0, b1));
    assert_eq!(forward.has_edge(f0, f2), backward.has_edge(b0, b2));
    assert_eq!(forward.has_edge(f0, f0), backward.has_edge(b0, b0));
}

#[test]
fn duplicate_edges_still_report_once() {
    let mut graph = DiGraph::new();
    let n0 = graph.node();
    let n1 = graph.node();
    let e0 = graph.edge(n0, n1);
    let e1 = graph.edge(n0, n1);
    assert_eq!(e0, e1);
    assert!(graph.has_edge(n0, n1));
    assert_eq!(graph.get_edge(0, 1), Some(e0));
}

#[test]
fn get_node_far_out_of_range() {
    let mut graph = DiGraph::new();
    let _n0 = graph.node();
    assert_eq!(graph.get_node(usize::MAX), None);
    let empty = DiGraph::new();
    assert_eq!(empty.get_node(0), None);
}

#[test]
fn get_edge_out_of_range() {
    let mut graph = DiGraph::new();
    let n0 = graph.node();
    let n1 = graph.node();
    graph.edge(n0, n1);
    assert_eq!(graph.get_edge(0, usize::MAX), None);
    assert_eq!(graph.get_edge(usize::MAX, 1), None);
    assert_eq!(graph.get_edge(2, 2), None);
}

#[test]
fn cycle_found_through_already_visited_nodes() {
    // The search leaves n0 through both branches; the cycle back to n0 is
    // found even though its nodes were already visited via the other branch.
    let mut graph = DiGraph::new();
    let n0 = graph.node();
    let n1 = graph.node();
    let n2 = graph.node();
    graph.edge(n0, n1);
    graph.edge(n0, n2);
    graph.edge(n1, n2);
    graph.edge(n2, n0);
    assert!(graph.cycle_from(n0));
    assert!(graph.cycle_from(n1));
    assert!(graph.cycle_from(n2));
}

#[test]
fn long_chain_with_back_edge() {
    let mut graph = DiGraph::new();
    let mut nodes = Vec::new();
    for _ in 0..10 {
        nodes.push(graph.node());
    }
    for i in 0..9 {
        graph.edge(nodes[i], nodes[i + 1]);
    }
    // Without a back edge the chain is acyclic.
    for i in 0..10 {
        assert!(!graph.cycle_from(nodes[i]));
    }
    // A back edge from the middle to the start puts n0..=n5 on a cycle.
    graph.edge(nodes[5], nodes[0]);
    for i in 0..6 {
        assert!(graph.cycle_from(nodes[i]));
    }
    for i in 6..10 {
        assert!(!graph.cycle_from(nodes[i]));
    }
}
