use dagviz::graph::Graph;
use dagviz::order::constraint_graph::{add_subgraph_constraints, ConstraintGraph};
use dagviz::types::{NodeIndex, NodeLabel};

fn labelled(g: &mut Graph, name: &str) -> NodeIndex {
    let mut label = NodeLabel::default();
    label.label = Some(name.to_string());
    g.add_node(label)
}

#[test]
fn test_constraint_graph_creation() {
    let cg = ConstraintGraph::new();
    assert!(cg.is_empty());
}

#[test]
fn constraint_graph_test_add_constraint() {
    let mut cg = ConstraintGraph::new();
    let node1 = NodeIndex::new_raw(0, 1);
    let node2 = NodeIndex::new_raw(1, 1);
    cg.add_constraint(node1, node2);
    assert!(cg.has_constraint(node1, node2));
    assert!(!cg.has_constraint(node2, node1));
}

#[test]
fn test_get_constraints() {
    let mut cg = ConstraintGraph::new();
    let node1 = NodeIndex::new_raw(0, 1);
    let node2 = NodeIndex::new_raw(1, 1);
    let node3 = NodeIndex::new_raw(2, 1);
    cg.add_constraint(node1, node2);
    cg.add_constraint(node1, node3);
    let constraints = cg.get_constraints(node1).unwrap();
    assert_eq!(constraints.len(), 2);
    assert!(constraints.contains(&node2));
    assert!(constraints.contains(&node3));
}

#[test]
fn test_empty_constraint_graph() {
    let cg = ConstraintGraph::new();
    assert!(cg.is_empty());
}

#[test]
fn constraint_graph_tests_test_add_constraint() {
    let mut g = Graph::new(1);
    let node1 = labelled(&mut g, "a");
    let node2 = labelled(&mut g, "b");
    let mut cg = ConstraintGraph::new();
    cg.add_constraint(node1, node2);
    assert!(cg.has_constraint(node1, node2));
    assert!(!cg.is_empty());
}

#[test]
fn test_clear_constraints() {
    let mut g = Graph::new(1);
    let node1 = labelled(&mut g, "a");
    let node2 = labelled(&mut g, "b");
    let mut cg = ConstraintGraph::new();
    cg.add_constraint(node1, node2);
    assert!(!cg.is_empty());
    cg.clear();
    assert!(cg.is_empty());
}

#[test]
fn test_duplicate_constraints() {
    let mut g = Graph::new(1);
    let node1 = labelled(&mut g, "a");
    let node2 = labelled(&mut g, "b");
    let mut cg = ConstraintGraph::new();
    cg.add_constraint(node1, node2);
    cg.add_constraint(node1, node2);
    assert!(cg.has_constraint(node1, node2));
}

#[test]
fn test_flat_set_of_nodes() {
    let mut g = Graph::new(1);
    let mut cg = ConstraintGraph::new();
    let mut node_indices = Vec::new();
    for v in ["a", "b", "c", "d"] {
        node_indices.push(labelled(&mut g, v));
    }
    add_subgraph_constraints(&g, &mut cg, &node_indices);
    assert!(cg.is_empty());
}

#[test]
fn test_contiguous_subgraph_nodes() {
    let mut g = Graph::new(1);
    let mut cg = ConstraintGraph::new();
    let mut node_indices = Vec::new();
    for v in ["a", "b", "c"] {
        let node_id = labelled(&mut g, v);
        node_indices.push(node_id);
        let parent_id = labelled(&mut g, "sg");
        g.set_parent(node_id, parent_id);
    }
    add_subgraph_constraints(&g, &mut cg, &node_indices);
    assert!(!cg.is_empty());
}

#[test]
fn subgraphs_met_out_of_order_are_constrained() {
    let mut g = Graph::new(1);
    let sg1 = labelled(&mut g, "sg1");
    let sg2 = labelled(&mut g, "sg2");
    let a = labelled(&mut g, "a");
    let b = labelled(&mut g, "b");
    let c = labelled(&mut g, "c");
    g.set_parent(a, sg1);
    g.set_parent(b, sg2);
    g.set_parent(c, sg1);
    let mut cg = ConstraintGraph::new();
    add_subgraph_constraints(&g, &mut cg, &[a, c, b]);
    assert!(cg.has_constraint(sg1, sg2));
    assert!(!cg.has_constraint(sg2, sg1));
    assert_eq!(cg.get_all_constraints().len(), 1);
}

#[test]
fn repeated_constraint_is_stored_once() {
    let mut g = Graph::new(1);
    let node1 = labelled(&mut g, "a");
    let node2 = labelled(&mut g, "b");
    let node3 = labelled(&mut g, "c");
    let mut cg = ConstraintGraph::new();
    cg.add_constraint(node1, node2);
    cg.add_constraint(node1, node2);
    assert_eq!(cg.get_constraints(node1), Some(&vec![node2]));
    cg.add_constraint(node1, node3);
    assert_eq!(cg.get_constraints(node1), Some(&vec![node2, node3]));
}
