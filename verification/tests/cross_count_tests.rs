use dagviz::order::inversions::{count_crossings_by_sorting, count_crossings_efficient, cross_count_efficient};
use dagviz::order::within_layer::{count_crossings_within_layer, find_node_position_in_layer};
use dagviz::graph::Graph;
use dagviz::order::cross_count::{cross_count, edges_cross};
use dagviz::types::{Edge, EdgeLabel, NodeIndex, NodeLabel};

fn setup_test_graph() -> Graph {
    Graph::new(1)
}

#[test]
fn test_returns_zero_for_empty_layering() {
    let g = setup_test_graph();
    let layering: Vec<Vec<NodeIndex>> = vec![];
    assert_eq!(cross_count(&g, &layering), 0);
}

#[test]
fn test_returns_zero_for_layering_with_no_crossings() {
    let mut g = setup_test_graph();
    let a1 = g.add_node(NodeLabel::default());
    let a2 = g.add_node(NodeLabel::default());
    let b1 = g.add_node(NodeLabel::default());
    let b2 = g.add_node(NodeLabel::default());
    g.add_edge(Edge::new(a1, b1), EdgeLabel::default());
    g.add_edge(Edge::new(a2, b2), EdgeLabel::default());
    let layering = vec![vec![a1, a2], vec![b1, b2]];
    assert_eq!(cross_count(&g, &layering), 0);
}

#[test]
fn test_returns_one_for_layering_with_one_crossing() {
    let mut g = setup_test_graph();
    let a1 = g.add_node(NodeLabel::default());
    let a2 = g.add_node(NodeLabel::default());
    let b1 = g.add_node(NodeLabel::default());
    let b2 = g.add_node(NodeLabel::default());
    g.add_edge(Edge::new(a1, b1), EdgeLabel::default());
    g.add_edge(Edge::new(a2, b2), EdgeLabel::default());
    let layering = vec![vec![a1, a2], vec![b2, b1]];
    assert_eq!(cross_count(&g, &layering), 1);
}

#[test]
fn test_returns_weighted_crossing_count_for_layering_with_one_crossing() {
    let mut g = setup_test_graph();
    let a1 = g.add_node(NodeLabel::default());
    let a2 = g.add_node(NodeLabel::default());
    let b1 = g.add_node(NodeLabel::default());
    let b2 = g.add_node(NodeLabel::default());
    g.add_edge(Edge::new(a1, b1), EdgeLabel { weight: 2, ..Default::default() });
    g.add_edge(Edge::new(a2, b2), EdgeLabel { weight: 3, ..Default::default() });
    let layering = vec![vec![a1, a2], vec![b2, b1]];
    assert_eq!(cross_count(&g, &layering), 6);
}

#[test]
fn test_calculates_crossings_across_layers() {
    let mut g = setup_test_graph();
    let a1 = g.add_node(NodeLabel::default());
    let a2 = g.add_node(NodeLabel::default());
    let b1 = g.add_node(NodeLabel::default());
    let b2 = g.add_node(NodeLabel::default());
    let c1 = g.add_node(NodeLabel::default());
    let c2 = g.add_node(NodeLabel::default());
    g.add_edge(Edge::new(a1, b1), EdgeLabel::default());
    g.add_edge(Edge::new(b1, c1), EdgeLabel::default());
    g.add_edge(Edge::new(a2, b2), EdgeLabel::default());
    g.add_edge(Edge::new(b2, c2), EdgeLabel::default());
    let layering = vec![vec![a1, a2], vec![b2, b1], vec![c1, c2]];
    assert_eq!(cross_count(&g, &layering), 2);
}

#[test]
fn test_works_for_graph_1() {
    let mut g = setup_test_graph();
    let a = g.add_node(NodeLabel::default());
    let b = g.add_node(NodeLabel::default());
    let c = g.add_node(NodeLabel::default());
    let d = g.add_node(NodeLabel::default());
    let e = g.add_node(NodeLabel::default());
    let f = g.add_node(NodeLabel::default());
    let i = g.add_node(NodeLabel::default());
    g.add_edge(Edge::new(a, b), EdgeLabel::default());
    g.add_edge(Edge::new(b, c), EdgeLabel::default());
    g.add_edge(Edge::new(d, e), EdgeLabel::default());
    g.add_edge(Edge::new(e, c), EdgeLabel::default());
    g.add_edge(Edge::new(a, f), EdgeLabel::default());
    g.add_edge(Edge::new(f, i), EdgeLabel::default());
    g.add_edge(Edge::new(a, e), EdgeLabel::default());
    let layering1 = vec![vec![a, d], vec![b, e, f], vec![c, i]];
    assert_eq!(cross_count(&g, &layering1), 1);
    let layering2 = vec![vec![d, a], vec![e, b, f], vec![c, i]];
    assert_eq!(cross_count(&g, &layering2), 0);
}

#[test]
fn test_cross_count() {
    let mut graph = Graph::new(1);
    let a = graph.add_node(NodeLabel::default());
    let b = graph.add_node(NodeLabel::default());
    let c = graph.add_node(NodeLabel::default());
    let d = graph.add_node(NodeLabel::default());
    let edge_ac = Edge::new(a, c);
    let edge_bd = Edge::new(b, d);
    let _ = graph.add_edge(edge_ac, EdgeLabel::default());
    let _ = graph.add_edge(edge_bd, EdgeLabel::default());
    if let Some(label_a) = graph.node_label_mut(a) {
        label_a.rank = Some(0);
    }
    if let Some(label_b) = graph.node_label_mut(b) {
        label_b.rank = Some(0);
    }
    if let Some(label_c) = graph.node_label_mut(c) {
        label_c.rank = Some(1);
    }
    if let Some(label_d) = graph.node_label_mut(d) {
        label_d.rank = Some(1);
    }
    let layering = vec![vec![a, b], vec![c, d]];
    let crossings = cross_count(&graph, &layering);
    assert_eq!(crossings, 0);
}

#[test]
fn test_edges_cross() {
    assert!(edges_cross(&(0, 1), &(1, 0)));
    assert!(!edges_cross(&(0, 0), &(1, 1)));
    assert!(!edges_cross(&(0, 1), &(1, 1)));
}

#[test]
fn crossings_of_a_single_layer_are_zero() {
    let mut g = setup_test_graph();
    let a = g.add_node(NodeLabel::default());
    let b = g.add_node(NodeLabel::default());
    g.add_edge(Edge::new(a, b), EdgeLabel::default());
    assert_eq!(cross_count(&g, &vec![vec![a, b]]), 0);
}

#[test]
fn three_edges_crossing_pairwise() {
    let mut g = setup_test_graph();
    let a1 = g.add_node(NodeLabel::default());
    let a2 = g.add_node(NodeLabel::default());
    let a3 = g.add_node(NodeLabel::default());
    let b1 = g.add_node(NodeLabel::default());
    let b2 = g.add_node(NodeLabel::default());
    let b3 = g.add_node(NodeLabel::default());
    g.add_edge(Edge::new(a1, b1), EdgeLabel::default());
    g.add_edge(Edge::new(a2, b2), EdgeLabel::default());
    g.add_edge(Edge::new(a3, b3), EdgeLabel::default());
    assert_eq!(cross_count(&g, &vec![vec![a1, a2, a3], vec![b3, b2, b1]]), 3);
}

#[test]
fn counting_by_sorting_counts_inverted_lower_ends() {
    assert_eq!(count_crossings_by_sorting(&vec![]), 0);
    assert_eq!(count_crossings_by_sorting(&vec![(0, 1)]), 0);
    assert_eq!(count_crossings_by_sorting(&vec![(0, 1), (1, 0)]), 1);
    // Sorted stably by upper end: (0, 1), (0, 0), (1, 0).
    assert_eq!(count_crossings_by_sorting(&vec![(1, 0), (0, 1), (0, 0)]), 2);
    assert_eq!(count_crossings_by_sorting(&vec![(0, 3), (1, 2), (2, 1), (3, 0)]), 6);
    assert_eq!(count_crossings_by_sorting(&vec![(0, 0), (1, 1), (2, 2)]), 0);
}

#[test]
fn efficient_count_agrees_with_the_weighted_count_for_unit_weights() {
    let mut g = Graph::new(70);
    let a = g.add_node(NodeLabel::default());
    let b = g.add_node(NodeLabel::default());
    let c = g.add_node(NodeLabel::default());
    let d = g.add_node(NodeLabel::default());
    let e = g.add_node(NodeLabel::default());
    g.add_edge(Edge::new(a, d), EdgeLabel::default());
    g.add_edge(Edge::new(b, c), EdgeLabel::default());
    g.add_edge(Edge::new(a, e), EdgeLabel::default());
    g.add_edge(Edge::new(b, d), EdgeLabel::default());
    let layering = vec![vec![a, b], vec![c, d, e]];
    assert_eq!(count_crossings_efficient(&g, &layering[0], &layering[1]), 3);
    assert_eq!(cross_count_efficient(&g, &layering), 3);
    assert_eq!(cross_count(&g, &layering), 3);
    assert_eq!(cross_count_efficient(&g, &vec![]), 0);
}

#[test]
fn crossings_within_a_layer_count_edges_across_a_joined_pair() {
    let mut g = Graph::new(71);
    let a = g.add_node(NodeLabel { rank: Some(0), order: Some(0), ..Default::default() });
    let b = g.add_node(NodeLabel { rank: Some(0), order: Some(1), ..Default::default() });
    let c = g.add_node(NodeLabel { rank: Some(0), order: Some(2), ..Default::default() });
    let y = g.add_node(NodeLabel { rank: Some(1), order: Some(1), ..Default::default() });
    let x = g.add_node(NodeLabel { rank: Some(1), order: Some(0), ..Default::default() });
    let z = g.add_node(NodeLabel::default());
    g.add_edge(Edge::new(a, c), EdgeLabel::default());
    g.add_edge(Edge::new(b, y), EdgeLabel::default());
    assert_eq!(find_node_position_in_layer(&g, x), Some(0));
    assert_eq!(find_node_position_in_layer(&g, y), Some(1));
    assert_eq!(find_node_position_in_layer(&g, c), Some(2));
    assert_eq!(find_node_position_in_layer(&g, z), None);
    assert_eq!(count_crossings_within_layer(&g, &vec![a, b, c]), 1);
    assert_eq!(count_crossings_within_layer(&g, &vec![a, c]), 0);
}

#[test]
fn test_cross_count_zero_difference() {
    let mut graph = Graph::new(1);
    let a = graph.add_node(NodeLabel { rank: Some(0), ..NodeLabel::default() });
    let b = graph.add_node(NodeLabel { rank: Some(0), ..NodeLabel::default() });
    let c = graph.add_node(NodeLabel { rank: Some(1), ..NodeLabel::default() });
    let d = graph.add_node(NodeLabel { rank: Some(1), ..NodeLabel::default() });
    for (s, t) in [(a, c), (a, d), (b, c), (b, d)] {
        let mut label = EdgeLabel::default();
        label.weight = 1;
        graph.add_edge(Edge::new(s, t), label);
    }
    let layering = vec![vec![a, b], vec![c, d]];
    let cc = cross_count(&graph, &layering);
    assert_eq!(cc, 1);
}
