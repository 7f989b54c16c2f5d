use dagviz::graph::Graph;
use dagviz::layout::{inject_edge_label_proxies, insert_self_edges};
use dagviz::order::constraint_graph::ConstraintGraph;
use dagviz::rank::network_simplex::establish_tree_relationships;
use dagviz::types::{same_text, Dummy, Edge, NodeLabel};
use dagviz::util::add_dummy_node;

#[test]
fn self_loops_get_dummies_after_their_node() {
    let mut g = Graph::new(1);
    let a = g.add_node(NodeLabel { rank: Some(0), order: Some(0), ..Default::default() });
    let b = g.add_node(NodeLabel { rank: Some(0), order: Some(1), ..Default::default() });
    let c = g.add_node(NodeLabel { rank: Some(1), order: Some(0), ..Default::default() });
    let created = insert_self_edges(&mut g, &vec![2, 0, 1]);
    assert_eq!(g.node_count(), 6);
    let ids = g.node_indices();
    let (d1, d2, d3) = (ids[3], ids[4], ids[5]);
    assert_eq!(created, vec![(a, d1), (a, d2), (c, d3)]);
    assert_eq!(g.node_label(a).unwrap().order, Some(0));
    assert_eq!(g.node_label(b).unwrap().order, Some(3));
    assert_eq!(g.node_label(c).unwrap().order, Some(0));
    let l1 = g.node_label(d1).unwrap();
    assert_eq!(l1.dummy, Some(Dummy::SelfEdge));
    assert_eq!(l1.rank, Some(0));
    assert_eq!(l1.order, Some(0));
    assert_eq!(l1.parent, Some(a));
    assert_eq!(l1.edge_obj, Some(Edge::new(a, a)));
    assert_eq!(g.node_label(d2).unwrap().order, Some(1));
    assert_eq!(g.node_label(d3).unwrap().rank, Some(1));
    assert_eq!(g.node_label(d3).unwrap().parent, Some(c));
    assert_eq!(g.edges(), vec![Edge::new(a, d1), Edge::new(a, d2), Edge::new(c, d3)]);
    assert_eq!(g.edge_label(&Edge::new(a, d1)).unwrap().minlen, 1);
}

#[test]
fn no_self_loops_only_sets_orders() {
    let mut g = Graph::new(1);
    let a = g.add_node(NodeLabel { rank: Some(0), order: Some(1), ..Default::default() });
    let b = g.add_node(NodeLabel { rank: Some(0), order: Some(0), ..Default::default() });
    let created = insert_self_edges(&mut g, &vec![0, 0]);
    assert!(created.is_empty());
    assert_eq!(g.node_count(), 2);
    assert_eq!(g.node_label(a).unwrap().order, Some(1));
    assert_eq!(g.node_label(b).unwrap().order, Some(0));
}

#[test]
fn proxies_sit_halfway_between_ranks() {
    let mut g = Graph::new(1);
    let a = g.add_node(NodeLabel { rank: Some(0), ..Default::default() });
    let b = g.add_node(NodeLabel { rank: Some(5), ..Default::default() });
    let c = g.add_node(NodeLabel { rank: Some(1), ..Default::default() });
    let u = g.add_node(NodeLabel::default());
    g.add_edge(Edge::new(a, b), Default::default());
    g.add_edge(Edge::new(b, c), Default::default());
    g.add_edge(Edge::new(a, c), Default::default());
    g.add_edge(Edge::new(a, u), Default::default());
    inject_edge_label_proxies(&mut g, &vec![true, true, false, true]);
    assert_eq!(g.node_count(), 6);
    let ids = g.node_indices();
    let p1 = g.node_label(ids[4]).unwrap();
    assert_eq!(p1.rank, Some(2));
    assert_eq!(p1.dummy, Some(Dummy::EdgeProxy));
    assert_eq!(g.node_label(ids[5]).unwrap().rank, Some(3));
    assert_eq!(g.edge_count(), 4);
}

#[test]
fn dummy_node_names_and_kinds() {
    let mut g = Graph::new(1);
    g.add_node(NodeLabel::default());
    g.add_node(NodeLabel::default());
    let id = add_dummy_node(&mut g, "border", NodeLabel { rank: Some(4), ..Default::default() }, "_bt");
    assert_eq!(id, "_bt2");
    let l = g.node_label(g.node_indices()[2]).unwrap();
    assert_eq!(l.dummy, Some(Dummy::Border));
    assert_eq!(l.rank, Some(4));
    let id = add_dummy_node(&mut g, "nonsense", NodeLabel::default(), "_d");
    assert_eq!(id, "_d3");
    assert_eq!(g.node_label(g.node_indices()[3]).unwrap().dummy, Some(Dummy::Edge));
    assert_eq!(Dummy::from_name("_root"), Some(Dummy::Root));
    assert_eq!(Dummy::from_name("edge-proxy"), Some(Dummy::EdgeProxy));
    assert_eq!(Dummy::from_name("selfedge"), Some(Dummy::SelfEdge));
    assert_eq!(Dummy::from_name("Edge"), None);
    assert!(same_text("abc", "abc"));
    assert!(!same_text("abc", "abd"));
}

#[test]
fn constraints_keep_their_source_order() {
    let mut g = Graph::new(1);
    let a = g.add_node(NodeLabel::default());
    let b = g.add_node(NodeLabel::default());
    let c = g.add_node(NodeLabel::default());
    let mut cg = ConstraintGraph::new();
    cg.add_constraint(b, c);
    cg.add_constraint(a, b);
    cg.add_constraint(b, a);
    let all = cg.get_all_constraints();
    let keys: Vec<_> = all.keys().copied().collect();
    assert_eq!(keys, vec![b, a]);
    assert_eq!(all.get(&b), Some(&vec![c, a]));
}

#[test]
fn tree_search_takes_out_edges_before_in_edges() {
    let mut g = Graph::new(1);
    let a = g.add_node(NodeLabel { rank: Some(0), ..Default::default() });
    let b = g.add_node(NodeLabel { rank: Some(1), ..Default::default() });
    let c = g.add_node(NodeLabel { rank: Some(2), ..Default::default() });
    g.add_edge(Edge::new(a, b), Default::default());
    g.add_edge(Edge::new(b, c), Default::default());
    g.add_edge(Edge::new(a, c), dagviz::types::EdgeLabel { minlen: 2, ..Default::default() });
    assert_eq!(g.out_edges(a), vec![Edge::new(a, c), Edge::new(a, b)]);
    establish_tree_relationships(&mut g, &vec![true, true, true], a);
    assert_eq!(g.parent(a), None);
    assert_eq!(g.parent(c), Some(a));
    assert_eq!(g.parent(b), Some(c));
    let tree_edges = g.edges().into_iter().filter(|e| g.edge_label(e).unwrap().cutvalue == Some(0)).count();
    assert_eq!(tree_edges, 2);
}
