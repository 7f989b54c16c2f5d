use dagviz::graph::Graph;
use dagviz::order::build_layer_graph::{build_layer_graph, build_layer_graph_components, build_layer_subgraph, build_simple_layer_graph};
use dagviz::order::layer_sort::{init_order_by_degree, init_order_by_weight, init_order_random, init_order_topological};
use dagviz::order::sweep::{find_root, parents_within, sweep_layer_graphs};
use dagviz::types::{Edge, EdgeLabel, NodeLabel};

#[test]
fn test_build_layer_graph() {
    let mut graph = Graph::new(1);
    let a = graph.add_node(NodeLabel::default());
    let b = graph.add_node(NodeLabel::default());
    let c = graph.add_node(NodeLabel::default());

    if let Some(label_a) = graph.node_label_mut(a) {
        label_a.rank = Some(0);
    }
    if let Some(label_b) = graph.node_label_mut(b) {
        label_b.rank = Some(1);
    }
    if let Some(label_c) = graph.node_label_mut(c) {
        label_c.rank = Some(1);
    }

    let edge_ab = Edge::new(a, b);
    let edge_ac = Edge::new(a, c);
    let _ = graph.add_edge(edge_ab, EdgeLabel::default());
    let _ = graph.add_edge(edge_ac, EdgeLabel::default());

    let layer_graph = build_layer_graph(&graph, 1, "in_edges", 2);

    assert_eq!(layer_graph.graph.node_count(), 2);
    assert!(layer_graph.node_mapping.contains_key(&b));
    assert!(layer_graph.node_mapping.contains_key(&c));
}

#[test]
fn test_build_simple_layer_graph() {
    let mut graph = Graph::new(3);
    let a = graph.add_node(NodeLabel::default());
    let b = graph.add_node(NodeLabel::default());

    if let Some(label_a) = graph.node_label_mut(a) {
        label_a.rank = Some(0);
    }
    if let Some(label_b) = graph.node_label_mut(b) {
        label_b.rank = Some(1);
    }

    let layer_graph = build_simple_layer_graph(&graph, 1, 4);

    assert_eq!(layer_graph.node_count(), 1);
    assert!(layer_graph.node_count() > 0);
}

#[test]
fn layer_graph_maps_each_node_to_its_copy_and_has_no_edges() {
    let mut graph = Graph::new(5);
    let a = graph.add_node(NodeLabel { rank: Some(2), order: Some(7), ..Default::default() });
    let b = graph.add_node(NodeLabel { rank: Some(1), ..Default::default() });
    let c = graph.add_node(NodeLabel { rank: Some(2), ..Default::default() });
    graph.add_edge(Edge::new(b, a), EdgeLabel::default());
    graph.add_edge(Edge::new(b, c), EdgeLabel::default());
    for rel in ["in_edges", "out_edges", "all"] {
        let lg = build_layer_graph(&graph, 2, rel, 6);
        assert_eq!(lg.graph.graph_id(), 6);
        assert_eq!(lg.graph.node_count(), 2);
        assert_eq!(lg.graph.edge_count(), 0);
        let ia = *lg.node_mapping.get(&a).unwrap();
        let ic = *lg.node_mapping.get(&c).unwrap();
        assert_eq!(ia.index(), 0);
        assert_eq!(ic.index(), 1);
        assert_eq!(lg.graph.node_label(ia).unwrap().order, Some(7));
        assert!(lg.node_mapping.get(&b).is_none());
    }
}

#[test]
fn find_root_prefers_the_first_node_without_in_edges() {
    let mut g = Graph::new(7);
    let a = g.add_node(NodeLabel::default());
    let b = g.add_node(NodeLabel::default());
    let c = g.add_node(NodeLabel::default());
    g.add_edge(Edge::new(b, a), EdgeLabel::default());
    assert_eq!(find_root(&g), b);
    g.add_edge(Edge::new(c, b), EdgeLabel::default());
    assert_eq!(find_root(&g), c);
    g.add_edge(Edge::new(a, c), EdgeLabel::default());
    assert_eq!(find_root(&g), a);
}

#[test]
fn parents_within_rejects_a_parent_of_another_graph_or_a_cycle() {
    let mut g = Graph::new(8);
    let a = g.add_node(NodeLabel::default());
    let b = g.add_node(NodeLabel::default());
    assert!(parents_within(&g));
    g.set_parent(a, b);
    assert!(parents_within(&g));
    g.set_parent(b, a);
    assert!(!parents_within(&g));
    let mut h = Graph::new(9);
    let x = h.add_node(NodeLabel::default());
    h.add_node(NodeLabel { parent: Some(x), ..Default::default() });
    assert!(parents_within(&h));
    h.add_node(NodeLabel { parent: Some(a), ..Default::default() });
    assert!(!parents_within(&h));
}

#[test]
fn sweep_orders_each_layer_graph_from_its_root() {
    let mut graph = Graph::new(10);
    let a = graph.add_node(NodeLabel { rank: Some(0), ..Default::default() });
    let b = graph.add_node(NodeLabel { rank: Some(0), ..Default::default() });
    graph.add_edge(Edge::new(a, b), EdgeLabel::default());
    let mut lgs = vec![build_layer_graph(&graph, 0, "all", 11), build_layer_graph(&graph, 5, "all", 12)];
    assert!(sweep_layer_graphs(&mut lgs, false));
    // No node of the layer graph has its root as parent, so the subgraph
    // of the root has no children to order.
    let g = &lgs[0].graph;
    let orders: Vec<Option<usize>> = g.node_indices().into_iter().map(|v| g.node_label(v).unwrap().order).collect();
    assert_eq!(orders, vec![None, None]);
    assert_eq!(lgs[1].graph.node_count(), 0);
}

#[test]
fn sweep_fails_where_a_parent_lies_outside_the_layer_graph() {
    let mut graph = Graph::new(13);
    let p = graph.add_node(NodeLabel::default());
    graph.add_node(NodeLabel { rank: Some(0), parent: Some(p), ..Default::default() });
    let mut lgs = vec![build_layer_graph(&graph, 0, "all", 14)];
    assert!(!sweep_layer_graphs(&mut lgs, true));
}

/// Rank 0: a, b, c (orders 0, 1, 2); rank 1: d, e. b has three edges, a
/// two, c none.
fn ranked() -> (Graph, [dagviz::types::NodeIndex; 5]) {
    let mut g = Graph::new(15);
    let a = g.add_node(NodeLabel { rank: Some(0), order: Some(0), ..Default::default() });
    let b = g.add_node(NodeLabel { rank: Some(0), order: Some(1), ..Default::default() });
    let c = g.add_node(NodeLabel { rank: Some(0), order: Some(2), ..Default::default() });
    let d = g.add_node(NodeLabel { rank: Some(1), order: Some(0), ..Default::default() });
    let e = g.add_node(NodeLabel { rank: Some(1), order: Some(1), ..Default::default() });
    g.add_edge(Edge::new(a, d), EdgeLabel { weight: 10, ..Default::default() });
    g.add_edge(Edge::new(a, e), EdgeLabel::default());
    g.add_edge(Edge::new(b, d), EdgeLabel::default());
    g.add_edge(Edge::new(b, e), EdgeLabel::default());
    g.add_edge(Edge::new(e, b), EdgeLabel::default());
    (g, [a, b, c, d, e])
}

#[test]
fn init_order_by_degree_puts_larger_degrees_first() {
    let (g, [a, b, c, d, e]) = ranked();
    let l = init_order_by_degree(&g);
    assert_eq!(l, vec![vec![b, a, c], vec![e, d]]);
}

#[test]
fn init_order_by_weight_puts_heavier_nodes_first() {
    let (g, [a, b, c, d, e]) = ranked();
    let l = init_order_by_weight(&g);
    assert_eq!(l, vec![vec![a, b, c], vec![d, e]]);
}

#[test]
fn init_order_topological_puts_fewer_predecessors_first_and_keeps_ties() {
    let (g, [a, b, c, d, e]) = ranked();
    let l = init_order_topological(&g);
    assert_eq!(l, vec![vec![a, c, b], vec![d, e]]);
}

#[test]
fn init_order_random_keeps_the_nodes_of_each_layer() {
    let (g, [a, b, c, d, e]) = ranked();
    let l = init_order_random(&g);
    assert_eq!(l.len(), 2);
    let mut first = l[0].clone();
    first.sort_by_key(|v| v.index());
    assert_eq!(first, vec![a, b, c]);
    let mut second = l[1].clone();
    second.sort_by_key(|v| v.index());
    assert_eq!(second, vec![d, e]);
}

#[test]
fn test_build_layer_graph_components() {
    let mut graph = Graph::new(1);
    let a = graph.add_node(NodeLabel::default());
    let b = graph.add_node(NodeLabel::default());
    let c = graph.add_node(NodeLabel::default());
    graph.node_label_mut(a).unwrap().rank = Some(2);
    graph.node_label_mut(b).unwrap().rank = Some(1);
    graph.node_label_mut(c).unwrap().rank = Some(2);
    graph.node_label_mut(c).unwrap().order = Some(5);
    let _ = graph.add_edge(Edge::new(a, c), EdgeLabel::default());

    let components = build_layer_graph_components(&graph, 2, 40);
    assert_eq!(components.len(), 2);
    assert_eq!(components[0].graph_id(), 41);
    assert_eq!(components[1].graph_id(), 42);
    for comp in &components {
        assert_eq!(comp.node_count(), 1);
        assert_eq!(comp.edge_count(), 0);
    }
    let first = components[1].node_indices()[0];
    assert_eq!(components[1].node_label(first).unwrap().order, Some(5));

    let wrapped = build_layer_graph_components(&graph, 2, u32::MAX);
    assert_eq!(wrapped[0].graph_id(), 0);
    assert_eq!(wrapped[1].graph_id(), 1);
    assert!(build_layer_graph_components(&graph, 7, 1).is_empty());
}

#[test]
fn test_build_layer_subgraph() {
    let mut graph = Graph::new(3);
    let a = graph.add_node(NodeLabel::default());
    let b = graph.add_node(NodeLabel::default());
    let c = graph.add_node(NodeLabel::default());
    graph.node_label_mut(a).unwrap().rank = Some(0);
    graph.node_label_mut(b).unwrap().rank = Some(0);
    graph.node_label_mut(b).unwrap().order = Some(4);
    graph.node_label_mut(c).unwrap().rank = Some(1);
    let mut label = EdgeLabel::default();
    label.minlen = 2;
    let _ = graph.add_edge(Edge::new(a, b), label);
    let _ = graph.add_edge(Edge::new(b, c), EdgeLabel::default());

    let none = build_layer_subgraph(&graph, 0, |_v| false, 8);
    assert_eq!(none.graph_id(), 8);
    assert_eq!(none.node_count(), 0);
    assert_eq!(none.edge_count(), 0);

    let all = build_layer_subgraph(&graph, 0, |_v| true, 3);
    assert_eq!(all.node_count(), 2);
    // The edge is met from both of its ends and added twice: the second
    // copy stands over the first as a parallel edge.
    assert_eq!(all.edge_count(), 2);
    assert_eq!(all.edges().len(), 1);
    let nodes = all.node_indices();
    assert_eq!(all.edge_label(&Edge::new(nodes[0], nodes[1])).unwrap().minlen, 2);

    let only_b = build_layer_subgraph(&graph, 0, |v| v == b, 3);
    assert_eq!(only_b.node_count(), 1);
    assert_eq!(only_b.edge_count(), 0);
    let first = only_b.node_indices()[0];
    assert_eq!(only_b.node_label(first).unwrap().order, Some(4));
}
