use dagviz::graph::Graph;
use dagviz::order::assign::{assign_order, build_layers};
use dagviz::order::init_order::init_order;
use dagviz::types::{Edge, EdgeLabel, NodeIndex, NodeLabel};

#[test]
fn init_order_searches_from_low_ranks_along_successors() {
    let mut g = Graph::new(1);
    let a = g.add_node(NodeLabel { rank: Some(1), ..Default::default() });
    let b = g.add_node(NodeLabel { rank: Some(0), ..Default::default() });
    let c = g.add_node(NodeLabel { rank: Some(1), ..Default::default() });
    let d = g.add_node(NodeLabel { rank: Some(0), ..Default::default() });
    g.add_edge(Edge::new(b, c), EdgeLabel::default());
    g.add_edge(Edge::new(d, a), EdgeLabel::default());
    let layers = init_order(&g);
    assert_eq!(layers, vec![vec![b, d], vec![c, a]]);
}

#[test]
fn init_order_has_no_layer_for_negative_ranks_only() {
    let mut g = Graph::new(1);
    g.add_node(NodeLabel { rank: Some(-1), ..Default::default() });
    assert_eq!(init_order(&g).len(), 0);
    let empty = Graph::new(2);
    assert_eq!(init_order(&empty), vec![Vec::<NodeIndex>::new()]);
}

#[test]
fn assign_order_writes_positions() {
    let mut g = Graph::new(1);
    let a = g.add_node(NodeLabel::default());
    let b = g.add_node(NodeLabel::default());
    let c = g.add_node(NodeLabel::default());
    let layering = vec![vec![b, NodeIndex::new_raw(usize::MAX, 0), a], vec![c]];
    assign_order(&mut g, &layering);
    assert_eq!(g.node_label(a).unwrap().order, Some(2));
    assert_eq!(g.node_label(b).unwrap().order, Some(0));
    assert_eq!(g.node_label(c).unwrap().order, Some(0));
}

#[test]
fn build_layers_sorts_each_rank_by_order() {
    let mut g = Graph::new(1);
    let a = g.add_node(NodeLabel { rank: Some(0), order: Some(1), ..Default::default() });
    let b = g.add_node(NodeLabel { rank: Some(0), order: Some(0), ..Default::default() });
    let c = g.add_node(NodeLabel { rank: Some(2), ..Default::default() });
    let d = g.add_node(NodeLabel { rank: Some(0), order: Some(1), ..Default::default() });
    let layers = build_layers(&g);
    assert_eq!(layers, vec![vec![b, a, d], vec![], vec![c]]);
}

#[test]
fn init_order_follows_the_search_from_the_nodes_sorted_by_rank() {
    let mut g = Graph::new(3);
    let a = g.add_node(NodeLabel { rank: Some(1), ..Default::default() });
    let b = g.add_node(NodeLabel { rank: Some(0), ..Default::default() });
    let c = g.add_node(NodeLabel { rank: Some(1), ..Default::default() });
    g.add_edge(Edge::new(b, c), EdgeLabel::default());
    g.add_edge(Edge::new(b, a), EdgeLabel::default());
    // b (rank 0) is searched first; its successors come most recent edge
    // first, so a is placed before c.
    assert_eq!(init_order(&g), vec![vec![b], vec![a, c]]);
}

#[test]
fn order_gives_initial_places_and_counts_crossings_until_no_gain() {
    let mut g = Graph::new(5);
    let a = g.add_node(NodeLabel { rank: Some(0), ..Default::default() });
    let b = g.add_node(NodeLabel { rank: Some(0), ..Default::default() });
    let c = g.add_node(NodeLabel { rank: Some(1), ..Default::default() });
    g.add_edge(Edge::new(a, c), EdgeLabel::default());
    let mut counters = dagviz::counters::Counters::new();
    let mut next_id = 10u32;
    assert!(dagviz::order::order(&mut g, &mut counters, false, &mut next_id));
    assert_eq!(g.node_label(a).unwrap().order, Some(0));
    assert_eq!(g.node_label(b).unwrap().order, Some(1));
    assert_eq!(g.node_label(c).unwrap().order, Some(0));
    assert_eq!(counters.init_order, 1);
    // One round finds the count, four more bring no fewer crossings.
    assert_eq!(counters.cross_count, 5);
    // One layer graph below rank 1 and one above rank 0.
    assert_eq!(next_id, 12);

    let mut h = Graph::new(6);
    let x = h.add_node(NodeLabel { rank: Some(0), ..Default::default() });
    let mut k = dagviz::counters::Counters::new();
    assert!(dagviz::order::order(&mut h, &mut k, true, &mut next_id));
    assert_eq!(h.node_label(x).unwrap().order, Some(0));
    assert_eq!(k.cross_count, 0);
}

#[test]
fn order_fails_exactly_where_a_parent_climb_does_not_end_in_its_layer_graph() {
    // b names a parent. Its copy in the layer graph of rank 1 keeps it: with
    // the graph's id the parent is b's copy itself, a cycle; with another id
    // the climb leaves the layer graph. Either way the sweep cannot run.
    let build = |parent: Option<NodeIndex>| {
        let mut g = Graph::new(5);
        let b = g.add_node(NodeLabel { rank: Some(1), parent, ..Default::default() });
        let a = g.add_node(NodeLabel { rank: Some(0), ..Default::default() });
        g.add_edge(Edge::new(a, b), EdgeLabel::default());
        g
    };
    let self_parent = Some(NodeIndex { node_index: 0, which_graph: 5 });
    let mut counters = dagviz::counters::Counters::new();

    let mut g = build(self_parent);
    let mut next_id = 5u32;
    assert!(!dagviz::order::order(&mut g, &mut counters, false, &mut next_id));

    let mut g = build(self_parent);
    let mut next_id = 9u32;
    assert!(!dagviz::order::order(&mut g, &mut counters, false, &mut next_id));

    let mut g = build(None);
    let mut next_id = 5u32;
    assert!(dagviz::order::order(&mut g, &mut counters, false, &mut next_id));

    let mut g = build(self_parent);
    let mut next_id = 5u32;
    assert!(dagviz::order::order(&mut g, &mut counters, true, &mut next_id));
}
