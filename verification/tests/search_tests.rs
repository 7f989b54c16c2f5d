use dagviz::graph::Graph;
use dagviz::order::build_layer_graph::find_connected_components;
use dagviz::order::sort_variants::{sort_subgraph_by_degree, sort_subgraph_by_weight, sort_subgraph_topological};
use dagviz::rank::components::{reverse_graph, strongly_connected_components};
use dagviz::search::{reached, Dir};
use dagviz::types::{Edge, EdgeLabel, NodeLabel};

#[test]
fn reached_follows_the_chosen_edges() {
    let mut g = Graph::new(80);
    let a = g.add_node(NodeLabel::default());
    let b = g.add_node(NodeLabel::default());
    let c = g.add_node(NodeLabel::default());
    let d = g.add_node(NodeLabel::default());
    g.add_edge(Edge::new(a, b), EdgeLabel::default());
    g.add_edge(Edge::new(c, b), EdgeLabel::default());
    g.add_edge(Edge::new(b, d), EdgeLabel::default());
    assert_eq!(reached(&g, Dir::Out, a), vec![a, b, d]);
    assert_eq!(reached(&g, Dir::In, b), vec![b, c, a]);
    assert_eq!(reached(&g, Dir::Both, a), vec![a, b, d, c]);
}

#[test]
fn reverse_graph_turns_every_edge_round() {
    let mut g = Graph::new(81);
    let a = g.add_node(NodeLabel { rank: Some(3), ..Default::default() });
    let b = g.add_node(NodeLabel::default());
    g.add_edge(Edge::new(a, b), EdgeLabel { weight: 4, ..Default::default() });
    let r = reverse_graph(&g);
    assert_eq!(r.graph_id(), 81);
    assert_eq!(r.node_count(), 2);
    assert!(r.has_edge(&Edge::new(b, a)));
    assert!(!r.has_edge(&Edge::new(a, b)));
    assert_eq!(r.edge_label(&Edge::new(b, a)).unwrap().weight, 4);
    assert_eq!(r.node_label(a).unwrap().rank, Some(3));
}

#[test]
fn strongly_connected_components_groups_nodes_on_a_cycle() {
    let mut g = Graph::new(82);
    let a = g.add_node(NodeLabel::default());
    let b = g.add_node(NodeLabel::default());
    let c = g.add_node(NodeLabel::default());
    g.add_edge(Edge::new(a, b), EdgeLabel::default());
    g.add_edge(Edge::new(b, a), EdgeLabel::default());
    g.add_edge(Edge::new(b, c), EdgeLabel::default());
    assert_eq!(strongly_connected_components(&g), vec![vec![a, b], vec![c]]);
    assert_eq!(strongly_connected_components(&Graph::new(83)), Vec::<Vec<_>>::new());
}

#[test]
fn connected_components_take_edges_in_either_direction() {
    let mut g = Graph::new(84);
    let a = g.add_node(NodeLabel::default());
    let b = g.add_node(NodeLabel::default());
    let c = g.add_node(NodeLabel::default());
    let d = g.add_node(NodeLabel::default());
    g.add_edge(Edge::new(c, a), EdgeLabel::default());
    g.add_edge(Edge::new(b, d), EdgeLabel::default());
    assert_eq!(find_connected_components(&g), vec![vec![a, c], vec![b, d]]);
}

#[test]
fn topological_subgraph_sort_lists_predecessors_first() {
    let mut g = Graph::new(85);
    let a = g.add_node(NodeLabel::default());
    let b = g.add_node(NodeLabel::default());
    let c = g.add_node(NodeLabel::default());
    g.add_edge(Edge::new(a, c), EdgeLabel::default());
    g.add_edge(Edge::new(b, c), EdgeLabel::default());
    assert_eq!(sort_subgraph_topological(&g, c), vec![b, a, c]);
    g.add_edge(Edge::new(c, a), EdgeLabel::default());
    assert_eq!(sort_subgraph_topological(&g, a), vec![]);
}

#[test]
fn subgraph_sorts_by_degree_and_weight() {
    let mut g = Graph::new(86);
    let a = g.add_node(NodeLabel::default());
    let b = g.add_node(NodeLabel::default());
    let c = g.add_node(NodeLabel::default());
    g.add_edge(Edge::new(a, b), EdgeLabel { weight: 5, ..Default::default() });
    g.add_edge(Edge::new(b, c), EdgeLabel::default());
    // Reached from a: a, b, c. Degrees 1, 2, 1; weights 5, 6, 1.
    assert_eq!(sort_subgraph_by_degree(&g, a), vec![b, a, c]);
    assert_eq!(sort_subgraph_by_weight(&g, a), vec![b, a, c]);
    assert_eq!(sort_subgraph_by_weight(&g, c), vec![b, a, c]);
}
