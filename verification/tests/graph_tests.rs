use dagviz::graph::Graph;
use dagviz::types::{Edge, EdgeLabel, NodeIndex, NodeLabel};

#[test]
fn test_create_empty_graph() {
    let graph = Graph::new(1);
    assert!(graph.is_empty());
    assert_eq!(graph.node_count(), 0);
    assert_eq!(graph.edge_count(), 0);
}

#[test]
fn test_add_node() {
    let mut graph = Graph::new(1);
    let label = NodeLabel::default();
    let node_index = graph.add_node(label);
    assert!(!graph.is_empty());
    assert_eq!(graph.node_count(), 1);
    assert!(graph.has_node(node_index));
}

#[test]
fn test_add_edge() {
    let mut graph = Graph::new(1);
    let node1 = graph.add_node(NodeLabel::default());
    let node2 = graph.add_node(NodeLabel::default());
    let edge = Edge::new(node1, node2);
    let edge_label = EdgeLabel::default();
    let _edge_index = graph.add_edge(edge.clone(), edge_label);
    assert_eq!(graph.edge_count(), 1);
    assert!(graph.has_edge(&edge));
}

#[test]
fn adding_an_existing_edge_replaces_its_label() {
    let mut g = Graph::new(3);
    let a = g.add_node(NodeLabel::default());
    let b = g.add_node(NodeLabel::default());
    let p1 = g.add_edge(Edge::new(a, b), EdgeLabel::default());
    let p2 = g.add_edge(Edge::new(a, b), EdgeLabel { minlen: 4, ..Default::default() });
    assert_eq!(p1, p2);
    assert_eq!(g.edge_count(), 2);
    assert_eq!(g.edge_label(&Edge::new(a, b)).unwrap().minlen, 4);
    assert_eq!(g.parallel_label(&Edge::new(a, b)).unwrap().minlen, 1);
}

#[test]
fn a_parallel_edge_comes_back_after_the_edge_over_it_goes() {
    let mut g = Graph::new(3);
    let a = g.add_node(NodeLabel::default());
    let b = g.add_node(NodeLabel::default());
    g.add_edge(Edge::new(a, b), EdgeLabel { minlen: 2, ..Default::default() });
    g.add_edge(Edge::new(a, b), EdgeLabel { minlen: 5, ..Default::default() });
    assert!(!g.restore_parallel_edge(&Edge::new(a, b)));
    assert_eq!(g.remove_edge(&Edge::new(a, b)).unwrap().minlen, 5);
    assert_eq!(g.edge_count(), 1);
    assert!(!g.has_edge(&Edge::new(a, b)));
    assert!(g.restore_parallel_edge(&Edge::new(a, b)));
    assert_eq!(g.edge_label(&Edge::new(a, b)).unwrap().minlen, 2);
    assert_eq!(g.edge_count(), 1);
    assert!(g.parallel_label(&Edge::new(a, b)).is_none());
    assert!(!g.restore_parallel_edge(&Edge::new(b, a)));
}

#[test]
fn removing_a_node_drops_its_parallel_edges_and_renames_the_last() {
    let mut g = Graph::new(3);
    let a = g.add_node(NodeLabel::default());
    let b = g.add_node(NodeLabel::default());
    let c = g.add_node(NodeLabel::default());
    g.add_edge(Edge::new(a, b), EdgeLabel::default());
    g.add_edge(Edge::new(a, b), EdgeLabel::default());
    g.add_edge(Edge::new(c, b), EdgeLabel { minlen: 6, ..Default::default() });
    g.add_edge(Edge::new(c, b), EdgeLabel::default());
    assert_eq!(g.edge_count(), 4);
    g.remove_node(a);
    // c took the place of a.
    assert_eq!(g.edge_count(), 2);
    assert!(g.parallel_label(&Edge::new(a, b)).is_some());
    assert_eq!(g.parallel_label(&Edge::new(a, b)).unwrap().minlen, 6);
}

#[test]
fn removing_an_edge_returns_its_label() {
    let mut g = Graph::new(3);
    let a = g.add_node(NodeLabel::default());
    let b = g.add_node(NodeLabel::default());
    let c = g.add_node(NodeLabel::default());
    g.add_edge(Edge::new(a, b), EdgeLabel { minlen: 7, ..Default::default() });
    g.add_edge(Edge::new(b, c), EdgeLabel::default());
    let removed = g.remove_edge(&Edge::new(a, b)).unwrap();
    assert_eq!(removed.minlen, 7);
    assert!(g.remove_edge(&Edge::new(a, b)).is_none());
    assert!(!g.has_edge(&Edge::new(a, b)));
    assert!(g.has_edge(&Edge::new(b, c)));
    assert_eq!(g.edge_count(), 1);
}

#[test]
fn neighbours_come_most_recent_edge_first() {
    let mut g = Graph::new(3);
    let a = g.add_node(NodeLabel::default());
    let b = g.add_node(NodeLabel::default());
    let c = g.add_node(NodeLabel::default());
    g.add_edge(Edge::new(a, b), EdgeLabel::default());
    g.add_edge(Edge::new(a, c), EdgeLabel::default());
    g.add_edge(Edge::new(c, b), EdgeLabel::default());
    assert_eq!(g.successors(a), vec![c, b]);
    assert_eq!(g.predecessors(b), vec![c, a]);
    assert_eq!(g.out_edges(a), vec![Edge::new(a, c), Edge::new(a, b)]);
    assert_eq!(g.in_edges(b), vec![Edge::new(c, b), Edge::new(a, b)]);
    assert_eq!(g.edges(), vec![Edge::new(a, b), Edge::new(a, c), Edge::new(c, b)]);
    assert_eq!(g.find_edge(a, c), Some(1));
    assert_eq!(g.find_edge(b, a), None);
}

#[test]
fn parents_and_children() {
    let mut g = Graph::new(3);
    let p = g.add_node(NodeLabel::default());
    let x = g.add_node(NodeLabel::default());
    let y = g.add_node(NodeLabel::default());
    assert_eq!(g.parent(x), None);
    g.set_parent(x, p);
    g.set_parent(y, p);
    assert_eq!(g.parent(x), Some(p));
    assert_eq!(g.children(p), vec![x, y]);
    assert!(g.children(x).is_empty());
}

#[test]
fn node_indices_carry_the_graph_id() {
    let mut g = Graph::new(9);
    let a = g.add_node(NodeLabel::default());
    assert_eq!(g.graph_id(), 9);
    assert!(a.belongs_to_graph(9));
    assert!(!a.belongs_to_graph(8));
    assert_eq!(a.index(), 0);
    let mut b = NodeIndex::new_raw(4, 2);
    b.set_graph_id(9);
    assert_eq!(b, NodeIndex::new_raw(4, 9));
    assert!(!g.has_node(b));
    assert_eq!(g.node_indices(), vec![a]);
}

#[test]
fn test_add_then_remove_edge_restores_edges() {
    let mut graph = Graph::new(5);
    let a = graph.add_node(NodeLabel::default());
    let b = graph.add_node(NodeLabel::default());
    let c = graph.add_node(NodeLabel::default());
    let mut l = EdgeLabel::default();
    l.minlen = 4;
    let _ = graph.add_edge(Edge::new(a, b), l);
    let _ = graph.add_edge(Edge::new(b, c), EdgeLabel::default());
    let before = graph.edges();

    let _ = graph.add_edge(Edge::new(a, c), EdgeLabel::default());
    assert_eq!(graph.edge_count(), 3);
    let removed = graph.remove_edge(&Edge::new(a, c));
    assert!(removed.is_some());
    assert_eq!(graph.edges(), before);
    assert_eq!(graph.edge_label(&Edge::new(a, b)).unwrap().minlen, 4);
}

#[test]
fn graph_ids_are_handed_out_in_turn_and_wrap() {
    let mut next = 1u32;
    assert_eq!(dagviz::graph::get_next_graph_id(&mut next), 1);
    assert_eq!(dagviz::graph::get_next_graph_id(&mut next), 2);
    assert_eq!(next, 3);
    let mut last = u32::MAX;
    assert_eq!(dagviz::graph::get_next_graph_id(&mut last), u32::MAX);
    assert_eq!(last, 0);
}
