use dagviz::position::align::{block_graph_edges, block_roots, Alignment};
use dagviz::types::NodeIndex;
use indexmap::IndexMap;

fn node(i: usize) -> NodeIndex {
    NodeIndex { node_index: i, which_graph: 1 }
}

fn alignment(pairs: &[(NodeIndex, NodeIndex)]) -> Alignment {
    let mut root = IndexMap::new();
    for &(v, r) in pairs {
        root.insert(v, r);
    }
    Alignment { root, align: IndexMap::new() }
}

#[test]
fn block_graph_joins_neighbours_in_different_blocks() {
    let (a, b, c, d) = (node(0), node(1), node(2), node(3));
    let layering = vec![vec![a, b], vec![c, d]];
    let align = alignment(&[(a, a), (b, b), (c, a), (d, b)]);
    assert_eq!(block_graph_edges(&layering, &align), vec![(a, b), (c, d)]);
    assert_eq!(block_roots(&layering, &align), vec![a, b]);
}

#[test]
fn block_graph_skips_neighbours_in_one_block_and_placeholders() {
    let (a, b, c, d) = (node(0), node(1), node(2), node(3));
    let slot = NodeIndex { node_index: usize::MAX, which_graph: 0 };
    let layering = vec![vec![a, slot, b], vec![c, d]];
    let align = alignment(&[(a, a), (b, b), (c, a), (d, a)]);
    assert_eq!(block_graph_edges(&layering, &align), vec![(a, b)]);
    assert_eq!(block_roots(&layering, &align), vec![a, b]);
}

#[test]
fn a_node_without_root_is_its_own_block() {
    let (a, b) = (node(0), node(1));
    let layering = vec![vec![a, b]];
    let align = alignment(&[]);
    assert_eq!(block_graph_edges(&layering, &align), vec![(a, b)]);
    assert_eq!(block_roots(&layering, &align), vec![a, b]);
}
