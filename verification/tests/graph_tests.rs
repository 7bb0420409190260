use typeflow::graph::Graph;

#[test]
fn edges_should_resolve_transitivity() {
    let graph = (0..10).fold(Graph::default(), |acc, _| acc.add_node().0);

    let (_, mut new_edges) = [(0, 3), (1, 3), (2, 3), (3, 4)]
        .iter()
        .fold((graph, vec![]), |(g, _), (upstream, downstream)| {
            g.add_edge(*upstream, *downstream)
        });

    let mut expected: Vec<(_, _)> = [0, 1, 2, 3].iter().map(|&lhs| (lhs, 4)).collect();

    new_edges.sort_unstable();
    expected.sort_unstable();
    assert_eq!(expected, new_edges);
}

fn graph_with_nodes(count: usize) -> Graph {
    let mut g = Graph::default();
    let mut i = 0;
    while i < count {
        g.add_node_mut();
        i += 1;
    }
    g
}

#[test]
fn propagation_is_complete() {
    let mut g = graph_with_nodes(5);
    g.add_edge_mut(0, 3);
    g.add_edge_mut(1, 3);
    g.add_edge_mut(2, 3);
    let mut new_edges = g.add_edge_mut(3, 4);
    new_edges.sort_unstable();
    assert_eq!(new_edges, vec![(0, 4), (1, 4), (2, 4), (3, 4)]);
}

#[test]
fn add_edge_is_idempotent() {
    let mut g = graph_with_nodes(2);
    let first = g.add_edge_mut(0, 1);
    assert!(!first.is_empty());
    assert_eq!(first, vec![(0, 1)]);
    let second = g.add_edge_mut(0, 1);
    assert!(second.is_empty());
}

#[test]
fn implied_edge_reports_nothing_new() {
    let mut g = graph_with_nodes(3);
    g.add_edge_mut(0, 1);
    g.add_edge_mut(1, 2);
    // (0, 2) is already implied by the chain, so requesting it adds nothing.
    let report = g.add_edge_mut(0, 2);
    assert!(report.is_empty());
}

#[test]
fn cycle_collapses_reachability() {
    let mut g = graph_with_nodes(3);
    g.add_edge_mut(0, 1);
    g.add_edge_mut(1, 2);
    // Closing the cycle makes every node reach every node, including itself.
    let mut report = g.add_edge_mut(2, 0);
    report.sort_unstable();
    assert_eq!(report, vec![(0, 0), (1, 0), (1, 1), (2, 0), (2, 1), (2, 2)]);
}

#[test]
fn node_ids_are_dense() {
    let mut g = Graph::default();
    assert_eq!(g.add_node_mut(), 0);
    assert_eq!(g.add_node_mut(), 1);
    let (g2, id) = g.add_node();
    assert_eq!(id, 2);
    let (_, id) = g2.add_node();
    assert_eq!(id, 3);
}
