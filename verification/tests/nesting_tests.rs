use dagviz::graph::Graph;
use dagviz::nesting::{dummy_nodes, nesting_graph_cleanup, nesting_graph_run, remove_edge_label_proxies};
use dagviz::types::{Dummy, Edge, EdgeLabel, NodeLabel};

#[test]
fn nesting_root_points_to_every_node() {
    let mut g = Graph::new(90);
    let a = g.add_node(NodeLabel::default());
    let b = g.add_node(NodeLabel::default());
    g.add_edge(Edge::new(a, b), EdgeLabel { weight: 3, ..Default::default() });
    let root = nesting_graph_run(&mut g);
    assert_eq!(root.index(), 2);
    assert_eq!(g.node_label(root).unwrap().dummy, Some(Dummy::Root));
    assert_eq!(g.edge_count(), 3);
    assert!(g.has_edge(&Edge::new(root, a)));
    assert!(g.has_edge(&Edge::new(root, b)));
    assert_eq!(g.edge_label(&Edge::new(root, a)).unwrap().weight, 1);
    assert_eq!(dummy_nodes(&g, Dummy::Root), vec![root]);
}

#[test]
fn nesting_cleanup_removes_the_root_and_its_edges() {
    let mut g = Graph::new(91);
    let a = g.add_node(NodeLabel::default());
    let b = g.add_node(NodeLabel::default());
    g.add_edge(Edge::new(a, b), EdgeLabel::default());
    nesting_graph_run(&mut g);
    nesting_graph_cleanup(&mut g);
    assert_eq!(g.node_count(), 2);
    assert_eq!(g.edge_count(), 1);
    assert!(g.has_edge(&Edge::new(a, b)));
    assert!(dummy_nodes(&g, Dummy::Root).is_empty());
}

#[test]
fn removing_proxies_moves_the_last_node_into_their_place() {
    let mut g = Graph::new(92);
    let a = g.add_node(NodeLabel::default());
    let p = g.add_node(NodeLabel { dummy: Some(Dummy::EdgeProxy), ..Default::default() });
    let c = g.add_node(NodeLabel { rank: Some(4), ..Default::default() });
    g.add_edge(Edge::new(a, c), EdgeLabel::default());
    g.add_edge(Edge::new(p, c), EdgeLabel::default());
    remove_edge_label_proxies(&mut g);
    assert_eq!(g.node_count(), 2);
    // c took the place of p.
    assert_eq!(g.node_label(p).unwrap().rank, Some(4));
    assert!(g.has_edge(&Edge::new(a, p)));
    assert_eq!(g.edge_count(), 1);
}
