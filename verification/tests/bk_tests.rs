use dagviz::graph::Graph;
use dagviz::position::bk::{AlignmentDirection, BrandesKoepf, ConflictType};
use dagviz::types::{Dummy, Edge, EdgeLabel, NodeIndex, NodeLabel};

fn four_nodes(da: Option<Dummy>, db: Option<Dummy>, dc: Option<Dummy>, dd: Option<Dummy>) -> (Graph, NodeIndex, NodeIndex, NodeIndex, NodeIndex) {
    let mut g = Graph::new(1);
    let a = g.add_node(NodeLabel { rank: Some(0), order: Some(0), dummy: da, ..Default::default() });
    let b = g.add_node(NodeLabel { rank: Some(0), order: Some(1), dummy: db, ..Default::default() });
    let c = g.add_node(NodeLabel { rank: Some(1), order: Some(0), dummy: dc, ..Default::default() });
    let d = g.add_node(NodeLabel { rank: Some(1), order: Some(1), dummy: dd, ..Default::default() });
    (g, a, b, c, d)
}

fn type1(g: Graph) -> BrandesKoepf {
    let mut bk = BrandesKoepf::new(g);
    bk.build_layers();
    bk.find_type1_conflicts();
    bk
}

#[test]
fn test_find_type1_conflicts_does_not_mark_edges_with_no_conflict() {
    let (mut g, a, b, c, d) = four_nodes(None, None, None, None);
    g.add_edge(Edge::new(a, c), EdgeLabel::default());
    g.add_edge(Edge::new(b, d), EdgeLabel::default());
    let bk = type1(g);
    assert!(!bk.has_conflict(a, c));
    assert!(!bk.has_conflict(b, d));
}

#[test]
fn test_find_type1_conflicts_does_not_mark_type0_conflicts() {
    let (mut g, a, b, c, d) = four_nodes(None, None, None, None);
    g.add_edge(Edge::new(a, d), EdgeLabel::default());
    g.add_edge(Edge::new(b, c), EdgeLabel::default());
    let bk = type1(g);
    assert!(!bk.has_conflict(a, d));
    assert!(!bk.has_conflict(b, c));
}

#[test]
fn test_find_type1_conflicts_does_not_mark_type0_conflicts_with_dummy() {
    let (mut g, a, b, c, d) = four_nodes(Some(Dummy::Border), None, None, None);
    g.add_edge(Edge::new(a, d), EdgeLabel::default());
    g.add_edge(Edge::new(b, c), EdgeLabel::default());
    let bk = type1(g);
    assert!(!bk.has_conflict(a, d));
    assert!(!bk.has_conflict(b, c));
}

#[test]
fn test_find_type1_conflicts_does_mark_type1_conflicts() {
    let (mut g, a, b, c, d) = four_nodes(None, Some(Dummy::Border), Some(Dummy::Border), Some(Dummy::Border));
    g.add_edge(Edge::new(a, d), EdgeLabel::default());
    g.add_edge(Edge::new(b, c), EdgeLabel::default());
    let bk = type1(g);
    assert!(bk.has_conflict(a, d));
    assert!(!bk.has_conflict(b, c));
}

#[test]
fn test_find_type1_conflicts_does_not_mark_type2_conflicts() {
    let b_ = Some(Dummy::Border);
    let (mut g, a, b, c, d) = four_nodes(b_, b_, b_, b_);
    g.add_edge(Edge::new(a, d), EdgeLabel::default());
    g.add_edge(Edge::new(b, c), EdgeLabel::default());
    let bk = type1(g);
    assert!(!bk.has_conflict(a, d));
    assert!(!bk.has_conflict(b, c));
}

#[test]
fn test_vertical_alignment() {
    let (mut g, a, b, c, d) = four_nodes(None, None, None, None);
    g.add_edge(Edge::new(a, c), EdgeLabel::default());
    g.add_edge(Edge::new(b, d), EdgeLabel::default());
    let mut bk = BrandesKoepf::new(g);
    bk.build_layers();
    bk.find_conflicts();
    let layering = vec![vec![a, b], vec![c, d]];
    let alignment = bk.vertical_alignment(&layering, AlignmentDirection::UpLeft);
    assert!(!alignment.root.is_empty());
    assert!(!alignment.align.is_empty());
}

#[test]
fn vertical_alignment_builds_blocks_along_median_predecessors() {
    let (mut g, a, b, c, d) = four_nodes(None, None, None, None);
    g.add_edge(Edge::new(a, c), EdgeLabel::default());
    g.add_edge(Edge::new(b, d), EdgeLabel::default());
    let bk = BrandesKoepf::new(g);
    let layering = vec![vec![a, b], vec![c, d]];
    let al = bk.vertical_alignment(&layering, AlignmentDirection::UpLeft);
    assert_eq!(al.root.get(&a), Some(&a));
    assert_eq!(al.root.get(&b), Some(&b));
    assert_eq!(al.root.get(&c), Some(&a));
    assert_eq!(al.root.get(&d), Some(&b));
    assert_eq!(al.align.get(&a), Some(&c));
    assert_eq!(al.align.get(&c), Some(&a));
    assert_eq!(al.align.get(&b), Some(&d));
    assert_eq!(al.align.get(&d), Some(&b));
}

#[test]
fn vertical_alignment_keeps_nodes_in_layer_order() {
    let (mut g, a, b, c, d) = four_nodes(None, None, None, None);
    g.add_edge(Edge::new(a, d), EdgeLabel::default());
    g.add_edge(Edge::new(b, c), EdgeLabel::default());
    let bk = BrandesKoepf::new(g);
    let layering = vec![vec![b, a], vec![d, c]];
    let al = bk.vertical_alignment(&layering, AlignmentDirection::UpLeft);
    let roots: Vec<_> = al.root.keys().copied().collect();
    let aligns: Vec<_> = al.align.keys().copied().collect();
    assert_eq!(roots, vec![b, a, d, c]);
    assert_eq!(aligns, vec![b, a, d, c]);
}

#[test]
fn vertical_alignment_skips_crossing_and_conflicting_neighbours() {
    let (mut g, a, b, c, d) = four_nodes(None, None, None, None);
    g.add_edge(Edge::new(b, c), EdgeLabel::default());
    g.add_edge(Edge::new(a, d), EdgeLabel::default());
    let mut bk = BrandesKoepf::new(g);
    let layering = vec![vec![a, b], vec![c, d]];
    // c aligns with b, so d may not align with a, which lies left of b.
    let al = bk.vertical_alignment(&layering, AlignmentDirection::UpLeft);
    assert_eq!(al.root.get(&c), Some(&b));
    assert_eq!(al.root.get(&d), Some(&d));
    // With a conflict between b and c, c stays alone and d aligns with a.
    bk.add_conflict(c, b, ConflictType::Type1);
    let al = bk.vertical_alignment(&layering, AlignmentDirection::UpLeft);
    assert_eq!(al.root.get(&c), Some(&c));
    assert_eq!(al.root.get(&d), Some(&a));
    assert_eq!(al.align.get(&a), Some(&d));
}

#[test]
fn downward_alignment_follows_successors() {
    let (mut g, a, b, c, d) = four_nodes(None, None, None, None);
    g.add_edge(Edge::new(a, c), EdgeLabel::default());
    g.add_edge(Edge::new(b, d), EdgeLabel::default());
    let bk = BrandesKoepf::new(g);
    let layering = vec![vec![c, d], vec![a, b]];
    let al = bk.vertical_alignment(&layering, AlignmentDirection::DownLeft);
    assert_eq!(al.root.get(&a), Some(&c));
    assert_eq!(al.root.get(&b), Some(&d));
}

#[test]
fn build_layers_groups_by_rank_and_order() {
    let mut g = Graph::new(1);
    let a = g.add_node(NodeLabel { rank: Some(-1), order: Some(1), ..Default::default() });
    let b = g.add_node(NodeLabel { rank: Some(-1), order: Some(0), ..Default::default() });
    let c = g.add_node(NodeLabel { rank: Some(1), ..Default::default() });
    let _unranked = g.add_node(NodeLabel::default());
    let mut bk = BrandesKoepf::new(g);
    bk.build_layers();
    let d = bk.adjusted_layering(AlignmentDirection::UpLeft);
    assert_eq!(d, vec![vec![b, a], vec![], vec![c]]);
    let dr = bk.adjusted_layering(AlignmentDirection::DownRight);
    assert_eq!(dr, vec![vec![c], vec![], vec![a, b]]);
}

#[test]
fn type2_conflicts_are_found_between_borders() {
    let mut g = Graph::new(1);
    let dummy = Some(Dummy::Edge);
    let border = Some(Dummy::Border);
    let n0 = g.add_node(NodeLabel { rank: Some(0), order: Some(0), dummy, ..Default::default() });
    let n1 = g.add_node(NodeLabel { rank: Some(0), order: Some(1), dummy: border, ..Default::default() });
    let n2 = g.add_node(NodeLabel { rank: Some(0), order: Some(2), dummy, ..Default::default() });
    let s0 = g.add_node(NodeLabel { rank: Some(1), order: Some(0), dummy, ..Default::default() });
    let s1 = g.add_node(NodeLabel { rank: Some(1), order: Some(1), dummy: border, ..Default::default() });
    let s2 = g.add_node(NodeLabel { rank: Some(1), order: Some(2), dummy, ..Default::default() });
    g.add_edge(Edge::new(n2, s0), EdgeLabel::default());
    g.add_edge(Edge::new(n1, s1), EdgeLabel::default());
    g.add_edge(Edge::new(n0, s2), EdgeLabel::default());
    let mut bk = BrandesKoepf::new(g);
    bk.build_layers();
    bk.find_type2_conflicts();
    assert!(bk.has_conflict(n2, s0));
    assert!(bk.has_conflict(s2, n0));
    assert!(!bk.has_conflict(n1, s1));
}

#[test]
fn conflicts_are_symmetric_and_skip_placeholders() {
    let (g, a, b, _c, _d) = four_nodes(None, None, None, None);
    let mut bk = BrandesKoepf::new(g);
    bk.add_conflict(b, a, ConflictType::Type2);
    assert!(bk.has_conflict(a, b));
    assert!(bk.has_conflict(b, a));
    let p = NodeIndex::new_raw(0, 0);
    bk.add_conflict(p, a, ConflictType::Type1);
    assert!(!bk.has_conflict(p, a));
}

#[test]
fn node_queries_read_the_labels() {
    let (g, a, b, c, _d) = four_nodes(Some(Dummy::Border), Some(Dummy::Edge), None, None);
    let bk = BrandesKoepf::new(g);
    assert_eq!(bk.get_node_order(b), Some(1));
    assert!(bk.is_dummy_node(a) && bk.is_dummy_node(b) && !bk.is_dummy_node(c));
    assert!(bk.is_border_node(a) && !bk.is_border_node(b));
    assert_eq!(bk.find_other_inner_segment_node(c), None);
}

#[test]
fn alignments_cover_the_four_directions() {
    let (mut g, a, b, c, d) = four_nodes(None, None, None, None);
    g.add_edge(Edge::new(a, c), EdgeLabel::default());
    g.add_edge(Edge::new(b, d), EdgeLabel::default());
    let mut bk = BrandesKoepf::new(g);
    let all = bk.alignments();
    assert_eq!(all.len(), 4);
    assert_eq!(all[0].0, AlignmentDirection::UpLeft);
    assert_eq!(all[3].0, AlignmentDirection::DownRight);
    assert_eq!(all[0].1, vec![vec![a, b], vec![c, d]]);
    assert_eq!(all[3].1, vec![vec![d, c], vec![b, a]]);
    assert_eq!(all[0].2.root.get(&c), Some(&a));
    assert_eq!(all[3].2.root.get(&a), Some(&c));
}
