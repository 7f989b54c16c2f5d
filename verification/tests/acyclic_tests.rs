use dagviz::acyclic::{find_cycles, is_acyclic, Acyclic};
use dagviz::graph::Graph;
use dagviz::types::{copy_edge_label, Acyclicer, Edge, EdgeLabel, GraphConfig, NodeLabel};

fn setup_test_graph_with_acyclicer(acyclicer: Acyclicer) -> Graph {
    let mut config = GraphConfig::default();
    config.acyclicer = acyclicer;
    Graph::with_config(config, 1)
}

fn sort_edges(mut edges: Vec<Edge>) -> Vec<Edge> {
    edges.sort_by(|a, b| a.source.index().cmp(&b.source.index()).then(a.target.index().cmp(&b.target.index())));
    edges
}

fn setup_test_graph() -> Graph {
    let mut graph = Graph::new(1);
    let _a = graph.add_node(NodeLabel::default());
    let _b = graph.add_node(NodeLabel::default());
    let _c = graph.add_node(NodeLabel::default());
    let _d = graph.add_node(NodeLabel::default());
    graph
}

#[test]
fn test_is_acyclic_empty() {
    let graph = Graph::new(1);
    assert!(is_acyclic(&graph));
}

#[test]
fn test_is_acyclic_simple() {
    let mut graph = setup_test_graph();
    let nodes: Vec<_> = graph.node_indices();
    if nodes.len() >= 2 {
        let edge = Edge::new(nodes[0], nodes[1]);
        graph.add_edge(edge, EdgeLabel::default());
        assert!(is_acyclic(&graph));
    }
}

#[test]
fn test_find_cycles_empty() {
    let graph = Graph::new(1);
    let cycles = find_cycles(&graph);
    assert!(cycles.is_empty());
}

#[test]
fn test_find_cycles_simple() {
    let mut graph = setup_test_graph();
    let nodes: Vec<_> = graph.node_indices();
    if nodes.len() >= 3 {
        graph.add_edge(Edge::new(nodes[0], nodes[1]), EdgeLabel::default());
        graph.add_edge(Edge::new(nodes[1], nodes[2]), EdgeLabel::default());
        graph.add_edge(Edge::new(nodes[2], nodes[0]), EdgeLabel::default());
        let cycles = find_cycles(&graph);
        assert!(!cycles.is_empty());
    }
}

#[test]
fn test_does_not_change_already_acyclic_graph_dfs() {
    let mut g = setup_test_graph_with_acyclicer(Acyclicer::Dfs);
    let a = g.add_node(NodeLabel::default());
    let b = g.add_node(NodeLabel::default());
    let c = g.add_node(NodeLabel::default());
    let d = g.add_node(NodeLabel::default());
    g.add_edge(Edge::new(a, b), EdgeLabel::default());
    g.add_edge(Edge::new(a, c), EdgeLabel::default());
    g.add_edge(Edge::new(b, d), EdgeLabel::default());
    g.add_edge(Edge::new(c, d), EdgeLabel::default());

    Acyclic::run(&mut g);

    let results = sort_edges(g.edges());
    let expected = vec![Edge::new(a, b), Edge::new(a, c), Edge::new(b, d), Edge::new(c, d)];
    assert_eq!(results, expected);
}

#[test]
fn dfs_run_breaks_a_cycle_and_marks_the_reversed_edge() {
    let mut g = setup_test_graph_with_acyclicer(Acyclicer::Dfs);
    let a = g.add_node(NodeLabel::default());
    let b = g.add_node(NodeLabel::default());
    let c = g.add_node(NodeLabel::default());
    let d = g.add_node(NodeLabel::default());
    g.add_edge(Edge::new(a, b), EdgeLabel::default());
    g.add_edge(Edge::new(b, c), EdgeLabel::default());
    g.add_edge(Edge::new(c, d), EdgeLabel::default());
    g.add_edge(Edge::new(d, a), EdgeLabel::default());
    assert!(!is_acyclic(&g));

    Acyclic::run(&mut g);

    assert!(is_acyclic(&g));
    assert!(find_cycles(&g).is_empty());
    assert_eq!(g.edge_count(), 4);
    assert!(!g.has_edge(&Edge::new(d, a)));
    let rev = g.edge_label(&Edge::new(a, d)).unwrap();
    assert_eq!(rev.reversed, Some(true));
    assert_eq!(rev.forward_name, Some("rev_3".to_string()));
}

#[test]
fn undo_restores_the_reversed_edge() {
    let mut g = setup_test_graph_with_acyclicer(Acyclicer::Dfs);
    let a = g.add_node(NodeLabel::default());
    let b = g.add_node(NodeLabel::default());
    g.add_edge(Edge::new(a, b), EdgeLabel { minlen: 2, weight: 3, ..Default::default() });
    g.add_edge(Edge::new(b, a), EdgeLabel { minlen: 3, weight: 4, ..Default::default() });

    Acyclic::run(&mut g);
    assert!(is_acyclic(&g));
    Acyclic::undo(&mut g);

    for e in g.edges() {
        assert_ne!(g.edge_label(&e).unwrap().reversed, Some(true));
    }
    assert!(g.has_edge(&Edge::new(b, a)));
    let l = g.edge_label(&Edge::new(b, a)).unwrap();
    assert_eq!(l.minlen, 3);
    assert_eq!(l.weight, 4);
    assert_eq!(l.forward_name, None);
}

#[test]
fn undo_leaves_unmarked_edges() {
    let mut g = setup_test_graph_with_acyclicer(Acyclicer::Dfs);
    let a = g.add_node(NodeLabel::default());
    let b = g.add_node(NodeLabel::default());
    g.add_edge(Edge::new(a, b), EdgeLabel { minlen: 2, weight: 3, ..Default::default() });
    Acyclic::run(&mut g);
    Acyclic::undo(&mut g);
    let l = g.edge_label(&Edge::new(a, b)).unwrap();
    assert_eq!(l.minlen, 2);
    assert_eq!(l.weight, 3);
    assert_eq!(g.edge_count(), 1);
}

#[test]
fn greedy_run_turns_a_self_loop_in_place() {
    // A node with a loop is neither without edges out nor without edges
    // in, so it is taken as the node of greatest weight balance and its
    // loop joins the set.
    let mut g = setup_test_graph_with_acyclicer(Acyclicer::Greedy);
    let a = g.add_node(NodeLabel::default());
    g.add_edge(Edge::new(a, a), EdgeLabel::default());
    Acyclic::run(&mut g);
    assert_eq!(g.edges(), vec![Edge::new(a, a)]);
    assert_eq!(g.edge_label(&Edge::new(a, a)).unwrap().reversed, Some(true));
}

#[test]
fn self_loop_is_a_cycle() {
    let mut g = Graph::new(1);
    let a = g.add_node(NodeLabel::default());
    g.add_edge(Edge::new(a, a), EdgeLabel::default());
    assert!(!is_acyclic(&g));
    let cycles = find_cycles(&g);
    assert_eq!(cycles, vec![vec![a]]);
}

#[test]
fn find_cycles_reports_the_cycle_path() {
    let mut g = Graph::new(1);
    let a = g.add_node(NodeLabel::default());
    let b = g.add_node(NodeLabel::default());
    let c = g.add_node(NodeLabel::default());
    g.add_edge(Edge::new(a, b), EdgeLabel::default());
    g.add_edge(Edge::new(b, c), EdgeLabel::default());
    g.add_edge(Edge::new(c, b), EdgeLabel::default());
    let cycles = find_cycles(&g);
    assert_eq!(cycles, vec![vec![b, c]]);
}

#[test]
fn test_does_not_change_already_acyclic_graph_greedy() {
    let mut g = setup_test_graph_with_acyclicer(Acyclicer::Greedy);
    let a = g.add_node(NodeLabel::default());
    let b = g.add_node(NodeLabel::default());
    let c = g.add_node(NodeLabel::default());
    let d = g.add_node(NodeLabel::default());
    g.add_edge(Edge::new(a, b), EdgeLabel::default());
    g.add_edge(Edge::new(a, c), EdgeLabel::default());
    g.add_edge(Edge::new(b, d), EdgeLabel::default());
    g.add_edge(Edge::new(c, d), EdgeLabel::default());

    Acyclic::run(&mut g);

    let results = sort_edges(g.edges());
    let expected = vec![Edge::new(a, b), Edge::new(a, c), Edge::new(b, d), Edge::new(c, d)];
    assert_eq!(results, expected);
}

#[test]
fn test_breaks_cycles_in_input_graph() {
    let mut g = setup_test_graph_with_acyclicer(Acyclicer::Greedy);
    let a = g.add_node(NodeLabel::default());
    let b = g.add_node(NodeLabel::default());
    let c = g.add_node(NodeLabel::default());
    let d = g.add_node(NodeLabel::default());
    g.add_edge(Edge::new(a, b), EdgeLabel::default());
    g.add_edge(Edge::new(b, c), EdgeLabel::default());
    g.add_edge(Edge::new(c, d), EdgeLabel::default());
    g.add_edge(Edge::new(d, a), EdgeLabel::default());

    Acyclic::run(&mut g);

    let cycles = find_cycles(&g);
    assert!(cycles.is_empty());
}

#[test]
fn test_undo_does_not_change_edges_where_original_was_acyclic() {
    let mut g = setup_test_graph_with_acyclicer(Acyclicer::Greedy);
    let a = g.add_node(NodeLabel::default());
    let b = g.add_node(NodeLabel::default());
    let mut edge_label = EdgeLabel::default();
    edge_label.minlen = 2;
    edge_label.weight = 3;
    g.add_edge(Edge::new(a, b), copy_edge_label(&edge_label));

    Acyclic::run(&mut g);
    Acyclic::undo(&mut g);

    let retrieved_label = g.edge_label(&Edge::new(a, b));
    assert!(retrieved_label.is_some());
    let retrieved = retrieved_label.unwrap();
    assert_eq!(retrieved.minlen, 2);
    assert_eq!(retrieved.weight, 3);
    assert_eq!(g.edge_count(), 1);
}

#[test]
fn test_greedy_prefers_to_break_cycles_at_low_weight_edges() {
    let mut g = setup_test_graph_with_acyclicer(Acyclicer::Greedy);
    let a = g.add_node(NodeLabel::default());
    let b = g.add_node(NodeLabel::default());
    let c = g.add_node(NodeLabel::default());
    let d = g.add_node(NodeLabel::default());
    let mut default_label = EdgeLabel::default();
    default_label.weight = 2;
    let mut low_weight_label = EdgeLabel::default();
    low_weight_label.weight = 1;
    g.add_edge(Edge::new(a, b), copy_edge_label(&default_label));
    g.add_edge(Edge::new(b, c), copy_edge_label(&default_label));
    g.add_edge(Edge::new(c, d), low_weight_label);
    g.add_edge(Edge::new(d, a), default_label);

    Acyclic::run(&mut g);

    let cycles = find_cycles(&g);
    assert!(cycles.is_empty());
    assert!(!g.has_edge(&Edge::new(c, d)));
}

#[test]
fn test_creates_multi_edge_where_necessary() {
    let mut g = setup_test_graph_with_acyclicer(Acyclicer::Greedy);
    let a = g.add_node(NodeLabel::default());
    let b = g.add_node(NodeLabel::default());
    g.add_edge(Edge::new(a, b), EdgeLabel::default());
    g.add_edge(Edge::new(b, a), EdgeLabel::default());

    Acyclic::run(&mut g);

    let cycles = find_cycles(&g);
    assert!(cycles.is_empty());
    assert_eq!(g.edge_count(), 2);
}

#[test]
fn test_undo_can_restore_previously_reversed_edges() {
    let mut g = setup_test_graph_with_acyclicer(Acyclicer::Greedy);
    let a = g.add_node(NodeLabel::default());
    let b = g.add_node(NodeLabel::default());
    let mut edge1_label = EdgeLabel::default();
    edge1_label.minlen = 2;
    edge1_label.weight = 3;
    let mut edge2_label = EdgeLabel::default();
    edge2_label.minlen = 3;
    edge2_label.weight = 4;
    g.add_edge(Edge::new(a, b), edge1_label);
    g.add_edge(Edge::new(b, a), edge2_label);

    Acyclic::run(&mut g);
    Acyclic::undo(&mut g);

    let retrieved1 = g.edge_label(&Edge::new(a, b));
    let retrieved2 = g.edge_label(&Edge::new(b, a));
    assert!(retrieved1.is_some());
    assert!(retrieved2.is_some());
    let label1 = retrieved1.unwrap();
    let label2 = retrieved2.unwrap();
    assert_eq!(label1.minlen, 2);
    assert_eq!(label1.weight, 3);
    assert_eq!(label2.minlen, 3);
    assert_eq!(label2.weight, 4);
    assert_eq!(g.edge_count(), 2);
}

#[test]
fn test_unknown_acyclicer_still_works() {
    let mut config = GraphConfig::default();
    config.acyclicer = Acyclicer::from_name("unknown-should-still-work");
    let mut g = Graph::with_config(config, 1);
    let a = g.add_node(NodeLabel::default());
    let b = g.add_node(NodeLabel::default());
    let c = g.add_node(NodeLabel::default());
    let d = g.add_node(NodeLabel::default());
    g.add_edge(Edge::new(a, b), EdgeLabel::default());
    g.add_edge(Edge::new(a, c), EdgeLabel::default());
    g.add_edge(Edge::new(b, d), EdgeLabel::default());
    g.add_edge(Edge::new(c, d), EdgeLabel::default());

    Acyclic::run(&mut g);

    let cycles = find_cycles(&g);
    assert!(cycles.is_empty());
}

#[test]
fn acyclicer_names_pick_the_algorithm() {
    assert_eq!(Acyclicer::from_name("greedy"), Acyclicer::Greedy);
    assert_eq!(Acyclicer::from_name("greedy "), Acyclicer::Dfs);
    assert_eq!(Acyclicer::from_name("dfs"), Acyclicer::Dfs);
    assert_eq!(Acyclicer::from_name(""), Acyclicer::Dfs);
}

#[test]
fn run_keeps_labels_on_reversed_edges() {
    let mut g = setup_test_graph_with_acyclicer(Acyclicer::Dfs);
    let a = g.add_node(NodeLabel::default());
    let b = g.add_node(NodeLabel::default());
    g.add_edge(Edge::new(a, b), EdgeLabel { minlen: 2, weight: 5, ..Default::default() });
    g.add_edge(Edge::new(b, a), EdgeLabel { minlen: 3, weight: 7, ..Default::default() });
    Acyclic::run(&mut g);
    // The depth-first search from a reverses b -> a; the reversal stands
    // over a -> b, which is kept as a parallel edge.
    let l = g.edge_label(&Edge::new(a, b)).unwrap();
    assert_eq!(l.reversed, Some(true));
    assert_eq!(l.forward_name, Some("rev_1".to_string()));
    assert_eq!(l.minlen, 3);
    assert_eq!(l.weight, 7);
    assert!(!g.has_edge(&Edge::new(b, a)));
    assert_eq!(g.parallel_label(&Edge::new(a, b)).unwrap().minlen, 2);
    Acyclic::undo(&mut g);
    assert_eq!(g.edge_label(&Edge::new(b, a)).unwrap().minlen, 3);
    assert_eq!(g.edge_label(&Edge::new(b, a)).unwrap().reversed, None);
    assert_eq!(g.edge_label(&Edge::new(a, b)).unwrap().minlen, 2);
    assert!(g.parallel_label(&Edge::new(a, b)).is_none());
}
