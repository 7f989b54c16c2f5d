use dagviz::rank::network_simplex::{network_simplex_round, SimplexStep};
use dagviz::rank::topological::topological_sort;
use dagviz::graph::Graph;
use dagviz::rank::feasible_tree::{adjust_ranks_for_min_slack, create_auxiliary_graph, feasible_tree, find_min_slack_edge, is_feasible, total_slack};
use dagviz::rank::util::{is_acyclic, longest_path, slack};
use dagviz::types::{Dummy, Edge, EdgeLabel, NodeLabel};
use dagviz::util::normalize_ranks;

#[test]
fn test_longest_path() {
    let mut graph = Graph::new(1);
    let a = graph.add_node(NodeLabel::default());
    let b = graph.add_node(NodeLabel::default());
    let c = graph.add_node(NodeLabel::default());
    let mut label_ab = EdgeLabel::default();
    label_ab.minlen = 2;
    let mut label_bc = EdgeLabel::default();
    label_bc.minlen = 3;
    let _ = graph.add_edge(Edge::new(a, b), label_ab);
    let _ = graph.add_edge(Edge::new(b, c), label_bc);

    longest_path(&mut graph);
    normalize_ranks(&mut graph);

    assert_eq!(graph.node_label(a).unwrap().rank, Some(0));
    assert_eq!(graph.node_label(b).unwrap().rank, Some(2));
    assert_eq!(graph.node_label(c).unwrap().rank, Some(5));
}

#[test]
fn test_is_acyclic() {
    let mut graph = Graph::new(1);
    let a = graph.add_node(NodeLabel::default());
    let b = graph.add_node(NodeLabel::default());
    let _ = graph.add_edge(Edge::new(a, b), EdgeLabel::default());
    assert!(is_acyclic(&graph));
}

#[test]
fn test_feasible_tree() {
    let mut graph = Graph::new(1);
    let a = graph.add_node(NodeLabel::default());
    let b = graph.add_node(NodeLabel::default());
    let c = graph.add_node(NodeLabel::default());
    let mut label_ab = EdgeLabel::default();
    label_ab.minlen = 2;
    let mut label_bc = EdgeLabel::default();
    label_bc.minlen = 3;
    let _ = graph.add_edge(Edge::new(a, b), label_ab);
    let _ = graph.add_edge(Edge::new(b, c), label_bc);

    feasible_tree(&mut graph);

    assert!(is_feasible(&graph));
}

#[test]
fn test_is_feasible() {
    let mut graph = Graph::new(1);
    let a = graph.add_node(NodeLabel::default());
    let b = graph.add_node(NodeLabel::default());
    let mut label = EdgeLabel::default();
    label.minlen = 1;
    let _ = graph.add_edge(Edge::new(a, b), label);
    if let Some(label_a) = graph.node_label_mut(a) {
        label_a.rank = Some(5);
    }
    if let Some(label_b) = graph.node_label_mut(b) {
        label_b.rank = Some(3);
    }
    assert!(!is_feasible(&graph));
}

#[test]
fn longest_path_ranks_a_diamond_as_low_as_possible() {
    let mut g = Graph::new(1);
    let a = g.add_node(NodeLabel::default());
    let b = g.add_node(NodeLabel::default());
    let c = g.add_node(NodeLabel::default());
    let d = g.add_node(NodeLabel::default());
    g.add_edge(Edge::new(a, b), EdgeLabel::default());
    g.add_edge(Edge::new(a, c), EdgeLabel { minlen: 3, ..Default::default() });
    g.add_edge(Edge::new(b, d), EdgeLabel::default());
    g.add_edge(Edge::new(c, d), EdgeLabel::default());
    longest_path(&mut g);
    assert_eq!(g.node_label(d).unwrap().rank, Some(0));
    assert_eq!(g.node_label(b).unwrap().rank, Some(-1));
    assert_eq!(g.node_label(c).unwrap().rank, Some(-1));
    assert_eq!(g.node_label(a).unwrap().rank, Some(-4));
    assert!(is_feasible(&g));
}

#[test]
fn longest_path_skips_edge_dummies() {
    let mut g = Graph::new(1);
    let a = g.add_node(NodeLabel::default());
    let x = g.add_node(NodeLabel { dummy: Some(Dummy::Edge), rank: Some(9), ..Default::default() });
    g.add_edge(Edge::new(a, x), EdgeLabel::default());
    longest_path(&mut g);
    assert_eq!(g.node_label(a).unwrap().rank, Some(0));
    assert_eq!(g.node_label(x).unwrap().rank, Some(9));
}

#[test]
fn slack_is_rank_difference_minus_minlen() {
    let mut g = Graph::new(1);
    let a = g.add_node(NodeLabel { rank: Some(1), ..Default::default() });
    let b = g.add_node(NodeLabel { rank: Some(6), ..Default::default() });
    g.add_edge(Edge::new(a, b), EdgeLabel { minlen: 2, ..Default::default() });
    assert_eq!(slack(&g, &Edge::new(a, b)), 3);
    assert_eq!(total_slack(&g), 3);
    assert_eq!(slack(&g, &Edge::new(b, a)), -6);
}

#[test]
fn find_min_slack_edge_takes_the_first_least() {
    let mut g = Graph::new(1);
    let a = g.add_node(NodeLabel { rank: Some(0), ..Default::default() });
    let b = g.add_node(NodeLabel { rank: Some(2), ..Default::default() });
    let c = g.add_node(NodeLabel { rank: Some(4), ..Default::default() });
    assert_eq!(find_min_slack_edge(&g), None);
    g.add_edge(Edge::new(a, c), EdgeLabel::default());
    g.add_edge(Edge::new(a, b), EdgeLabel::default());
    g.add_edge(Edge::new(b, c), EdgeLabel::default());
    assert_eq!(find_min_slack_edge(&g), Some(Edge::new(a, b)));
}

#[test]
fn feasible_tree_lowers_a_node_only_as_far_as_its_in_edges_allow() {
    let mut g = Graph::new(1);
    let a = g.add_node(NodeLabel::default());
    let b = g.add_node(NodeLabel::default());
    let c = g.add_node(NodeLabel::default());
    g.add_edge(Edge::new(a, b), EdgeLabel::default());
    g.add_edge(Edge::new(b, c), EdgeLabel::default());
    g.add_edge(Edge::new(a, c), EdgeLabel::default());
    feasible_tree(&mut g);
    // a -> c is loose, but b -> c keeps c where it is.
    assert_eq!(g.node_label(a).unwrap().rank, Some(-2));
    assert_eq!(g.node_label(b).unwrap().rank, Some(-1));
    assert_eq!(g.node_label(c).unwrap().rank, Some(0));
    assert!(is_feasible(&g));
}

#[test]
fn feasible_tree_lowers_targets_of_loose_edges() {
    let mut g = Graph::new(1);
    let a = g.add_node(NodeLabel::default());
    let b = g.add_node(NodeLabel::default());
    let c = g.add_node(NodeLabel::default());
    let d = g.add_node(NodeLabel::default());
    g.add_edge(Edge::new(a, b), EdgeLabel::default());
    g.add_edge(Edge::new(b, c), EdgeLabel::default());
    g.add_edge(Edge::new(a, d), EdgeLabel::default());
    feasible_tree(&mut g);
    // The longest path puts d at 0; the pass brings it down to a + 1.
    assert_eq!(g.node_label(a).unwrap().rank, Some(-2));
    assert_eq!(g.node_label(d).unwrap().rank, Some(-1));
    assert!(is_feasible(&g));
}

#[test]
fn feasible_tree_respects_minlen_on_a_graph_with_joins() {
    let mut g = Graph::new(1);
    let a = g.add_node(NodeLabel::default());
    let b = g.add_node(NodeLabel::default());
    let c = g.add_node(NodeLabel::default());
    let d = g.add_node(NodeLabel::default());
    let h = g.add_node(NodeLabel::default());
    let e = g.add_node(NodeLabel::default());
    let gn = g.add_node(NodeLabel::default());
    let f = g.add_node(NodeLabel::default());
    for (s, t) in [(a, b), (b, c), (c, d), (d, h), (a, e), (e, gn), (gn, h), (a, f), (f, gn)] {
        g.add_edge(Edge::new(s, t), EdgeLabel { minlen: 1, ..Default::default() });
    }
    feasible_tree(&mut g);
    normalize_ranks(&mut g);
    for edge in g.edges() {
        let v = g.node_label(edge.source).unwrap().rank.unwrap();
        let w = g.node_label(edge.target).unwrap().rank.unwrap();
        assert!(w - v >= g.edge_label(&edge).unwrap().minlen);
    }
}

#[test]
fn adjust_ranks_repairs_a_violated_edge() {
    let mut g = Graph::new(1);
    let a = g.add_node(NodeLabel { rank: Some(3), ..Default::default() });
    let b = g.add_node(NodeLabel { rank: Some(0), ..Default::default() });
    let c = g.add_node(NodeLabel { rank: Some(0), ..Default::default() });
    g.add_edge(Edge::new(a, b), EdgeLabel { minlen: 2, ..Default::default() });
    g.add_edge(Edge::new(b, c), EdgeLabel::default());
    assert!(!is_feasible(&g));
    adjust_ranks_for_min_slack(&mut g);
    assert!(is_feasible(&g));
    assert_eq!(g.node_label(a).unwrap().rank, Some(3));
    assert_eq!(g.node_label(b).unwrap().rank, Some(5));
    assert_eq!(g.node_label(c).unwrap().rank, Some(6));
}

#[test]
fn topological_sort_takes_nodes_after_their_predecessors() {
    let mut g = Graph::new(95);
    let a = g.add_node(NodeLabel::default());
    let b = g.add_node(NodeLabel::default());
    let c = g.add_node(NodeLabel::default());
    g.add_edge(Edge::new(a, b), EdgeLabel::default());
    g.add_edge(Edge::new(a, c), EdgeLabel::default());
    g.add_edge(Edge::new(b, c), EdgeLabel::default());
    assert_eq!(topological_sort(&g), vec![a, b, c]);
    let mut h = Graph::new(96);
    let x = h.add_node(NodeLabel::default());
    let y = h.add_node(NodeLabel::default());
    let z = h.add_node(NodeLabel::default());
    h.add_edge(Edge::new(x, y), EdgeLabel::default());
    h.add_edge(Edge::new(y, x), EdgeLabel::default());
    assert_eq!(topological_sort(&h), vec![z]);
}

#[test]
fn test_create_auxiliary_graph() {
    let mut graph = Graph::new(1);
    let a = graph.add_node(NodeLabel::default());
    let b = graph.add_node(NodeLabel::default());
    let mut label = EdgeLabel::default();
    label.minlen = 3;
    label.weight = 7;
    let _ = graph.add_edge(Edge::new(a, b), label);

    let aux = create_auxiliary_graph(&graph, 9);
    assert_eq!(aux.graph_id(), 9);
    assert_eq!(aux.node_count(), 4);
    assert_eq!(aux.edge_count(), 5);
    let nodes = aux.node_indices();
    let (source, sink, na, nb) = (nodes[0], nodes[1], nodes[2], nodes[3]);
    assert!(aux.has_edge(&Edge::new(source, na)));
    assert!(aux.has_edge(&Edge::new(source, nb)));
    assert!(aux.has_edge(&Edge::new(na, sink)));
    assert!(aux.has_edge(&Edge::new(nb, sink)));
    let copied = aux.edge_label(&Edge::new(na, nb)).unwrap();
    assert_eq!(copied.minlen, 3);
    assert_eq!(copied.weight, 7);
    assert_eq!(aux.edge_label(&Edge::new(source, na)).unwrap().weight, 1);
}

#[test]
fn test_longest_path_zero_difference() {
    let mut graph = Graph::new(1);
    let a = graph.add_node(NodeLabel::default());
    let b = graph.add_node(NodeLabel::default());
    let c = graph.add_node(NodeLabel::default());
    let mut edge_ab = EdgeLabel::default();
    edge_ab.minlen = 1;
    edge_ab.weight = 1;
    graph.add_edge(Edge::new(a, b), edge_ab);
    let mut edge_bc = EdgeLabel::default();
    edge_bc.minlen = 1;
    edge_bc.weight = 1;
    graph.add_edge(Edge::new(b, c), edge_bc);

    longest_path(&mut graph);

    assert_eq!(graph.node_label(a).unwrap().rank, Some(-2));
    assert_eq!(graph.node_label(b).unwrap().rank, Some(-1));
    assert_eq!(graph.node_label(c).unwrap().rank, Some(0));
}

#[test]
fn grow_tight_tree_moves_the_tree_until_it_spans_the_graph() {
    let mut g = Graph::new(4);
    let a = g.add_node(NodeLabel { rank: Some(0), ..Default::default() });
    let b = g.add_node(NodeLabel { rank: Some(2), ..Default::default() });
    let c = g.add_node(NodeLabel { rank: Some(3), ..Default::default() });
    g.add_edge(Edge::new(a, b), EdgeLabel::default());
    g.add_edge(Edge::new(b, c), EdgeLabel::default());
    let mut in_tree = vec![true, false, false];
    assert!(dagviz::rank::network_simplex::grow_tight_tree(&mut g, &mut in_tree));
    assert_eq!(in_tree, vec![true, true, true]);
    assert_eq!(g.node_label(a).unwrap().rank, Some(1));
    assert_eq!(g.node_label(b).unwrap().rank, Some(2));
    assert_eq!(g.node_label(c).unwrap().rank, Some(3));
}

#[test]
fn grow_tight_tree_stops_where_no_edge_leaves_the_tree() {
    let mut g = Graph::new(4);
    let a = g.add_node(NodeLabel { rank: Some(0), ..Default::default() });
    let b = g.add_node(NodeLabel { rank: Some(3), ..Default::default() });
    let c = g.add_node(NodeLabel { rank: Some(0), ..Default::default() });
    g.add_edge(Edge::new(a, b), EdgeLabel::default());
    let mut in_tree = vec![true, false, false];
    assert!(!dagviz::rank::network_simplex::grow_tight_tree(&mut g, &mut in_tree));
    // a moved up to make a -> b tight and b joined; c has no edge.
    assert_eq!(in_tree, vec![true, true, false]);
    assert_eq!(g.node_label(a).unwrap().rank, Some(2));
    assert_eq!(g.node_label(b).unwrap().rank, Some(3));
    assert_eq!(g.node_label(c).unwrap().rank, Some(0));
}

#[test]
fn grow_tight_tree_moves_a_tree_that_is_the_target_end() {
    let mut g = Graph::new(4);
    let a = g.add_node(NodeLabel { rank: Some(0), ..Default::default() });
    let b = g.add_node(NodeLabel { rank: Some(5), ..Default::default() });
    g.add_edge(Edge::new(a, b), EdgeLabel { minlen: 2, ..Default::default() });
    let mut in_tree = vec![false, true];
    assert!(dagviz::rank::network_simplex::grow_tight_tree(&mut g, &mut in_tree));
    assert_eq!(in_tree, vec![true, true]);
    assert_eq!(g.node_label(a).unwrap().rank, Some(0));
    assert_eq!(g.node_label(b).unwrap().rank, Some(2));
}

#[test]
fn all_ranked_sees_a_node_without_rank() {
    let mut g = Graph::new(4);
    g.add_node(NodeLabel { rank: Some(0), ..Default::default() });
    assert!(dagviz::rank::network_simplex::all_ranked(&g));
    g.add_node(NodeLabel::default());
    assert!(!dagviz::rank::network_simplex::all_ranked(&g));
}

#[test]
fn network_simplex_round_on_an_optimal_tree_changes_nothing() {
    let mut g = Graph::new(4);
    let a = g.add_node(NodeLabel { rank: Some(0), ..Default::default() });
    let b = g.add_node(NodeLabel { rank: Some(1), ..Default::default() });
    g.add_edge(Edge::new(a, b), EdgeLabel { cutvalue: Some(1), ..Default::default() });
    assert_eq!(network_simplex_round(&mut g), SimplexStep::Optimal);
    assert_eq!(g.node_label(a).unwrap().rank, Some(0));
    assert_eq!(g.edge_label(&Edge::new(a, b)).unwrap().cutvalue, Some(1));
}
