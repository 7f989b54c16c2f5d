use dagviz::graph::Graph;
use dagviz::order::constraint_graph::ConstraintGraph;
use dagviz::order::sort_subgraph::sort_subgraph;
use dagviz::types::{Edge, EdgeLabel, NodeLabel};

fn labelled(g: &mut Graph, name: &str) -> dagviz::types::NodeIndex {
    let mut label = NodeLabel::default();
    label.label = Some(name.to_string());
    g.add_node(label)
}

#[test]
fn test_sort_simple_subgraph() {
    let mut g = Graph::new(1);
    let cg = ConstraintGraph::new();
    let root = labelled(&mut g, "root");
    let node1 = labelled(&mut g, "node1");
    let node2 = labelled(&mut g, "node2");
    g.set_parent(node1, root);
    g.set_parent(node2, root);
    g.add_edge(Edge::new(node1, node2), EdgeLabel::default());

    let result = sort_subgraph(&g, root, &cg, false);
    assert!(!result.is_empty());
}

#[test]
fn test_sort_empty_subgraph() {
    let mut g = Graph::new(1);
    let cg = ConstraintGraph::new();
    let root = labelled(&mut g, "root");

    let result = sort_subgraph(&g, root, &cg, false);
    assert!(result.is_empty());
}

#[test]
fn test_sort_with_bias() {
    let mut g = Graph::new(1);
    let cg = ConstraintGraph::new();
    let root = labelled(&mut g, "root");
    let node1 = labelled(&mut g, "node1");
    let node2 = labelled(&mut g, "node2");
    g.set_parent(node1, root);
    g.set_parent(node2, root);
    g.add_edge(Edge::new(node1, node2), EdgeLabel::default());

    let result_left = sort_subgraph(&g, root, &cg, false);
    let result_right = sort_subgraph(&g, root, &cg, true);
    assert!(!result_left.is_empty());
    assert!(!result_right.is_empty());
}

#[test]
fn sort_subgraph_lists_children_in_postorder_by_bias() {
    let mut g = Graph::new(2);
    let cg = ConstraintGraph::new();
    let root = labelled(&mut g, "root");
    let a = labelled(&mut g, "a");
    let b = labelled(&mut g, "b");
    let c = labelled(&mut g, "c");
    let outsider = labelled(&mut g, "x");
    for v in [a, b, c] {
        g.set_parent(v, root);
    }
    g.add_edge(Edge::new(a, c), EdgeLabel::default());
    g.add_edge(Edge::new(b, a), EdgeLabel::default());
    g.add_edge(Edge::new(a, outsider), EdgeLabel::default());
    // From a, the right bias tries b before c; the left bias c before b.
    assert_eq!(sort_subgraph(&g, root, &cg, true), vec![b, c, a]);
    assert_eq!(sort_subgraph(&g, root, &cg, false), vec![c, b, a]);
    assert!(sort_subgraph(&g, a, &cg, true).is_empty());
}
