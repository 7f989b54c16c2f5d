use dagviz::graph::Graph;
use dagviz::rank::tree_walk::{
    any_root, exchange_edges, init_cut_values, init_low_lim_values, postorder, preorder, tree_root, update_ranks,
};
use dagviz::types::{Edge, EdgeLabel, NodeIndex, NodeLabel};

fn tree_edge() -> EdgeLabel {
    EdgeLabel { cutvalue: Some(0), ..Default::default() }
}

/// a → b and a → c, both tree edges, with the given ranks.
fn star(ranks: [i32; 3]) -> (Graph, NodeIndex, NodeIndex, NodeIndex) {
    let mut g = Graph::new(40);
    let a = g.add_node(NodeLabel { rank: Some(ranks[0]), ..Default::default() });
    let b = g.add_node(NodeLabel { rank: Some(ranks[1]), ..Default::default() });
    let c = g.add_node(NodeLabel { rank: Some(ranks[2]), ..Default::default() });
    g.add_edge(Edge::new(a, b), tree_edge());
    g.add_edge(Edge::new(a, c), tree_edge());
    (g, a, b, c)
}

#[test]
fn postorder_lists_children_before_their_parent() {
    let (g, a, b, c) = star([0, 1, 1]);
    assert_eq!(postorder(&g), vec![c, b, a]);
}

#[test]
fn postorder_starts_a_new_walk_at_every_unreached_node() {
    let mut g = Graph::new(41);
    let a = g.add_node(NodeLabel::default());
    let b = g.add_node(NodeLabel::default());
    let c = g.add_node(NodeLabel::default());
    // Not a tree edge: the walk from a does not follow it.
    g.add_edge(Edge::new(a, b), EdgeLabel::default());
    g.add_edge(Edge::new(c, b), tree_edge());
    assert_eq!(postorder(&g), vec![a, c, b]);
}

#[test]
fn preorder_lists_a_node_before_its_subtree() {
    let (g, a, b, c) = star([0, 1, 1]);
    assert_eq!(preorder(&g, a), vec![a, c, b]);
    assert_eq!(preorder(&g, b), vec![b, a, c]);
}

#[test]
fn tree_root_is_the_first_node_without_parent() {
    let (mut g, a, b, c) = star([0, 1, 1]);
    assert!(any_root(&g));
    assert_eq!(tree_root(&g), a);
    g.set_parent(a, c);
    assert_eq!(tree_root(&g), b);
    g.set_parent(b, a);
    g.set_parent(c, a);
    assert!(!any_root(&g));
}

#[test]
fn init_low_lim_values_numbers_the_tree_in_postorder() {
    let (mut g, a, b, c) = star([0, 1, 1]);
    init_low_lim_values(&mut g);
    let la = g.node_label(a).unwrap();
    assert_eq!((la.low, la.lim, la.parent), (Some(1), Some(3), None));
    let lc = g.node_label(c).unwrap();
    assert_eq!((lc.low, lc.lim, lc.parent), (Some(1), Some(1), Some(a)));
    let lb = g.node_label(b).unwrap();
    assert_eq!((lb.low, lb.lim, lb.parent), (Some(2), Some(2), Some(a)));
}

#[test]
fn update_ranks_makes_tree_edges_tight() {
    let (mut g, a, b, c) = star([0, 5, 7]);
    init_low_lim_values(&mut g);
    assert!(update_ranks(&mut g));
    assert_eq!(g.node_label(a).unwrap().rank, Some(0));
    assert_eq!(g.node_label(b).unwrap().rank, Some(1));
    assert_eq!(g.node_label(c).unwrap().rank, Some(1));
}

#[test]
fn update_ranks_reports_a_rank_out_of_range() {
    let mut g = Graph::new(42);
    let a = g.add_node(NodeLabel { rank: Some(i32::MAX), ..Default::default() });
    let b = g.add_node(NodeLabel { rank: Some(0), ..Default::default() });
    g.add_edge(Edge::new(a, b), tree_edge());
    init_low_lim_values(&mut g);
    assert!(!update_ranks(&mut g));
}

#[test]
fn init_cut_values_stores_the_cut_value_of_every_tree_edge() {
    let (mut g, a, b, c) = star([0, 1, 1]);
    init_low_lim_values(&mut g);
    assert!(init_cut_values(&mut g));
    assert_eq!(g.edge_label(&Edge::new(a, b)).unwrap().cutvalue, Some(1));
    assert_eq!(g.edge_label(&Edge::new(a, c)).unwrap().cutvalue, Some(1));
}

#[test]
fn exchange_edges_swaps_the_tree_edge_and_renumbers() {
    // a → b → c and a → c, with a → b and b → c in the tree.
    let mut g = Graph::new(43);
    let a = g.add_node(NodeLabel { rank: Some(0), ..Default::default() });
    let b = g.add_node(NodeLabel { rank: Some(1), ..Default::default() });
    let c = g.add_node(NodeLabel { rank: Some(2), ..Default::default() });
    g.add_edge(Edge::new(a, b), tree_edge());
    g.add_edge(Edge::new(b, c), tree_edge());
    g.add_edge(Edge::new(a, c), EdgeLabel::default());
    init_low_lim_values(&mut g);
    assert!(exchange_edges(&mut g, &Edge::new(b, c), &Edge::new(a, c)));
    assert_eq!(g.edge_label(&Edge::new(b, c)).unwrap().cutvalue, None);
    assert!(g.edge_label(&Edge::new(a, c)).unwrap().cutvalue.is_some());
    assert!(g.edge_label(&Edge::new(a, b)).unwrap().cutvalue.is_some());
    assert_eq!(g.node_label(c).unwrap().parent, Some(a));
    assert_eq!(g.node_label(c).unwrap().rank, Some(1));
}
