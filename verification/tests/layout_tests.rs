use dagviz::graph::Graph;
use dagviz::layout::{
    add_border_segments, assign_rank_min_max, make_space_for_edge_labels, normalize_edges, parent_dummy_chains,
    remove_self_edges,
};
use dagviz::types::{Dummy, Edge, EdgeLabel, NodeLabel};

#[test]
fn normalize_edges_splits_a_long_edge_into_a_chain() {
    let mut g = Graph::new(1);
    let a = g.add_node(NodeLabel { rank: Some(0), ..Default::default() });
    let b = g.add_node(NodeLabel { rank: Some(3), ..Default::default() });
    let c = g.add_node(NodeLabel { rank: Some(1), ..Default::default() });
    g.add_edge(Edge::new(a, b), EdgeLabel { weight: 5, ..Default::default() });
    g.add_edge(Edge::new(a, c), EdgeLabel { minlen: 2, ..Default::default() });

    normalize_edges(&mut g);

    assert_eq!(g.node_count(), 5);
    assert!(!g.has_edge(&Edge::new(a, b)));
    assert_eq!(g.edge_label(&Edge::new(a, c)).unwrap().minlen, 2);
    let d1 = g.node_indices()[3];
    let d2 = g.node_indices()[4];
    let l1 = g.node_label(d1).unwrap();
    assert_eq!(l1.rank, Some(1));
    assert_eq!(l1.dummy, Some(Dummy::Edge));
    assert_eq!(l1.edge_obj, Some(Edge::new(a, b)));
    assert_eq!(g.node_label(d2).unwrap().rank, Some(2));
    assert_eq!(g.edge_label(&Edge::new(a, d1)).unwrap().weight, 5);
    assert!(g.has_edge(&Edge::new(d1, d2)));
    assert!(g.has_edge(&Edge::new(d2, b)));
    assert_eq!(g.edge_count(), 4);
    assert_eq!(g.config().dummy_chains, Some(vec![d1]));
}

#[test]
fn normalize_edges_keeps_short_edges() {
    let mut g = Graph::new(1);
    let a = g.add_node(NodeLabel { rank: Some(0), ..Default::default() });
    let b = g.add_node(NodeLabel { rank: Some(1), ..Default::default() });
    let c = g.add_node(NodeLabel::default());
    g.add_edge(Edge::new(a, b), EdgeLabel::default());
    g.add_edge(Edge::new(a, c), EdgeLabel::default());
    normalize_edges(&mut g);
    assert_eq!(g.node_count(), 3);
    assert_eq!(g.edge_count(), 2);
    assert_eq!(g.config().dummy_chains, Some(vec![]));
}

#[test]
fn assign_rank_min_max_records_the_greatest_rank() {
    let mut g = Graph::new(1);
    g.add_node(NodeLabel { rank: Some(2), ..Default::default() });
    g.add_node(NodeLabel { rank: Some(7), ..Default::default() });
    g.add_node(NodeLabel::default());
    assign_rank_min_max(&mut g);
    assert_eq!(g.config().max_rank, Some(7));

    let mut h = Graph::new(2);
    h.add_node(NodeLabel { rank: Some(-3), ..Default::default() });
    assign_rank_min_max(&mut h);
    assert_eq!(h.config().max_rank, Some(0));
}

#[test]
fn remove_self_edges_drops_only_loops() {
    let mut g = Graph::new(1);
    let a = g.add_node(NodeLabel::default());
    let b = g.add_node(NodeLabel::default());
    g.add_edge(Edge::new(a, a), EdgeLabel::default());
    g.add_edge(Edge::new(a, b), EdgeLabel { minlen: 3, ..Default::default() });
    g.add_edge(Edge::new(b, b), EdgeLabel::default());
    remove_self_edges(&mut g);
    assert_eq!(g.edges(), vec![Edge::new(a, b)]);
    assert_eq!(g.edge_label(&Edge::new(a, b)).unwrap().minlen, 3);
}

#[test]
fn make_space_doubles_minimum_lengths() {
    let mut g = Graph::new(1);
    let a = g.add_node(NodeLabel::default());
    let b = g.add_node(NodeLabel::default());
    let c = g.add_node(NodeLabel::default());
    g.add_edge(Edge::new(a, b), EdgeLabel::default());
    g.add_edge(Edge::new(b, c), EdgeLabel { minlen: 3, ..Default::default() });
    make_space_for_edge_labels(&mut g);
    assert_eq!(g.edge_label(&Edge::new(a, b)).unwrap().minlen, 2);
    assert_eq!(g.edge_label(&Edge::new(b, c)).unwrap().minlen, 6);
}

#[test]
fn add_border_segments_builds_both_chains() {
    let mut g = Graph::new(1);
    let s = g.add_node(NodeLabel { min_rank: Some(1), max_rank: Some(3), ..Default::default() });
    let x = g.add_node(NodeLabel { rank: Some(2), ..Default::default() });
    add_border_segments(&mut g);

    assert_eq!(g.node_count(), 8);
    let l = g.node_label(s).unwrap();
    assert_eq!(l.border_left.len(), 3);
    assert_eq!(l.border_right.len(), 3);
    let left = l.border_left.clone();
    let right = l.border_right.clone();
    for k in 0..3 {
        let bl = g.node_label(left[k]).unwrap();
        assert_eq!(bl.rank, Some(1 + k as i32));
        assert_eq!(bl.dummy, Some(Dummy::Border));
        assert_eq!(bl.parent, Some(s));
        assert_eq!(bl.border_type, Some("borderLeft".to_string()));
        let br = g.node_label(right[k]).unwrap();
        assert_eq!(br.border_type, Some("borderRight".to_string()));
        assert_eq!(br.parent, Some(s));
    }
    assert!(g.has_edge(&Edge::new(left[0], left[1])));
    assert!(g.has_edge(&Edge::new(left[1], left[2])));
    assert!(g.has_edge(&Edge::new(right[0], right[1])));
    assert!(g.has_edge(&Edge::new(right[1], right[2])));
    assert_eq!(g.edge_count(), 4);
    assert!(g.node_label(x).unwrap().border_left.is_empty());
}

#[test]
fn parent_dummy_chains_places_a_dummy_under_the_subgraph_spanning_its_rank() {
    let mut g = Graph::new(4);
    let p = g.add_node(NodeLabel { min_rank: Some(0), max_rank: Some(9), ..Default::default() });
    let q = g.add_node(NodeLabel { min_rank: Some(0), max_rank: Some(3), ..Default::default() });
    let a = g.add_node(NodeLabel { rank: Some(0), ..Default::default() });
    let b = g.add_node(NodeLabel { rank: Some(2), ..Default::default() });
    let d = g.add_node(NodeLabel { rank: Some(1), edge_obj: Some(Edge::new(a, b)), ..Default::default() });
    g.set_parent(q, p);
    g.set_parent(a, q);
    g.add_edge(Edge::new(a, d), EdgeLabel::default());
    g.add_edge(Edge::new(d, b), EdgeLabel::default());
    g.dummy_chains = vec![d];

    parent_dummy_chains(&mut g);

    assert_eq!(g.parent(d), Some(q));
    assert_eq!(g.parent(a), Some(q));
    assert_eq!(g.parent(q), Some(p));
    assert_eq!(g.parent(b), None);
}

#[test]
fn parent_dummy_chains_climbs_past_subgraphs_that_end_above_the_dummy() {
    let mut g = Graph::new(5);
    let p = g.add_node(NodeLabel { min_rank: Some(0), max_rank: Some(9), ..Default::default() });
    let q = g.add_node(NodeLabel { min_rank: Some(0), max_rank: Some(3), ..Default::default() });
    let r = g.add_node(NodeLabel { min_rank: Some(0), max_rank: Some(1), ..Default::default() });
    let a = g.add_node(NodeLabel { rank: Some(0), ..Default::default() });
    let b = g.add_node(NodeLabel { rank: Some(3), ..Default::default() });
    let d1 = g.add_node(NodeLabel { rank: Some(1), edge_obj: Some(Edge::new(a, b)), ..Default::default() });
    let d2 = g.add_node(NodeLabel { rank: Some(2), edge_obj: Some(Edge::new(a, b)), ..Default::default() });
    g.set_parent(q, p);
    g.set_parent(r, q);
    g.set_parent(a, r);
    g.add_edge(Edge::new(a, d1), EdgeLabel::default());
    g.add_edge(Edge::new(d1, d2), EdgeLabel::default());
    g.add_edge(Edge::new(d2, b), EdgeLabel::default());
    g.dummy_chains = vec![d1];

    parent_dummy_chains(&mut g);

    // r ends at rank 1, so the first dummy stays in r and the second,
    // at rank 2, climbs to q.
    assert_eq!(g.parent(d1), Some(r));
    assert_eq!(g.parent(d2), Some(q));
}

#[test]
fn parent_dummy_chains_with_no_chains_changes_nothing() {
    let mut g = Graph::new(6);
    let a = g.add_node(NodeLabel { rank: Some(0), ..Default::default() });
    let b = g.add_node(NodeLabel { rank: Some(1), ..Default::default() });
    g.add_edge(Edge::new(a, b), EdgeLabel::default());
    parent_dummy_chains(&mut g);
    assert_eq!(g.parent(a), None);
    assert_eq!(g.parent(b), None);
    assert_eq!(g.edge_count(), 1);
}

#[test]
fn default_edge_lengths_raise_zero_to_one() {
    let mut g = Graph::new(2);
    let a = g.add_node(NodeLabel::default());
    let b = g.add_node(NodeLabel::default());
    g.add_edge(Edge::new(a, b), EdgeLabel { minlen: 0, weight: 0, ..Default::default() });
    g.add_edge(Edge::new(b, a), EdgeLabel { minlen: 3, weight: 5, ..Default::default() });
    dagviz::layout::default_edge_lengths(&mut g);
    let l = g.edge_label(&Edge::new(a, b)).unwrap();
    assert_eq!((l.minlen, l.weight), (1, 1));
    let l = g.edge_label(&Edge::new(b, a)).unwrap();
    assert_eq!((l.minlen, l.weight), (3, 5));
    assert_eq!(g.edges(), vec![Edge::new(a, b), Edge::new(b, a)]);
}
