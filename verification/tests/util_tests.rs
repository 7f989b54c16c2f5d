use dagviz::graph::Graph;
use dagviz::types::{Edge, EdgeLabel, NodeIndex, NodeLabel};
use dagviz::util::{
    build_layer_matrix, is_placeholder, max_rank, min_rank, no_time, normalize_ranks, range, range_with_step,
    remove_empty_ranks, time,
};

fn setup_test_graph() -> Graph {
    Graph::new(1)
}

#[test]
fn test_build_layer_matrix() {
    let mut g = setup_test_graph();
    let a = g.add_node(NodeLabel { rank: Some(0), order: Some(0), ..Default::default() });
    let b = g.add_node(NodeLabel { rank: Some(0), order: Some(1), ..Default::default() });
    let c = g.add_node(NodeLabel { rank: Some(1), order: Some(0), ..Default::default() });
    let d = g.add_node(NodeLabel { rank: Some(1), order: Some(1), ..Default::default() });
    let e = g.add_node(NodeLabel { rank: Some(2), order: Some(0), ..Default::default() });

    let matrix = build_layer_matrix(&g);

    assert_eq!(matrix.len(), 3);
    assert_eq!(matrix[0].len(), 2);
    assert_eq!(matrix[1].len(), 2);
    assert_eq!(matrix[2].len(), 1);
    assert!(matrix[0].contains(&a));
    assert!(matrix[0].contains(&b));
    assert!(matrix[1].contains(&c));
    assert!(matrix[1].contains(&d));
    assert!(matrix[2].contains(&e));
}

#[test]
fn test_normalize_ranks_positive() {
    let mut g = setup_test_graph();
    let a = g.add_node(NodeLabel { rank: Some(3), ..Default::default() });
    let b = g.add_node(NodeLabel { rank: Some(2), ..Default::default() });
    let c = g.add_node(NodeLabel { rank: Some(4), ..Default::default() });

    normalize_ranks(&mut g);

    if let Some(a_label) = g.node_label(a) {
        assert_eq!(a_label.rank, Some(1));
    }
    if let Some(b_label) = g.node_label(b) {
        assert_eq!(b_label.rank, Some(0));
    }
    if let Some(c_label) = g.node_label(c) {
        assert_eq!(c_label.rank, Some(2));
    }
}

#[test]
fn test_normalize_ranks_negative() {
    let mut g = setup_test_graph();
    let a = g.add_node(NodeLabel { rank: Some(-3), ..Default::default() });
    let b = g.add_node(NodeLabel { rank: Some(-2), ..Default::default() });

    normalize_ranks(&mut g);

    if let Some(a_label) = g.node_label(a) {
        assert_eq!(a_label.rank, Some(0));
    }
    if let Some(b_label) = g.node_label(b) {
        assert_eq!(b_label.rank, Some(1));
    }
}

#[test]
fn test_normalize_ranks_single_node() {
    let mut g = setup_test_graph();
    let a = g.add_node(NodeLabel { rank: Some(5), ..Default::default() });

    normalize_ranks(&mut g);

    if let Some(a_label) = g.node_label(a) {
        assert_eq!(a_label.rank, Some(0));
    }
}

#[test]
fn test_normalize_ranks_empty_graph() {
    let mut g = setup_test_graph();
    normalize_ranks(&mut g);
    assert!(g.is_empty());
}

#[test]
fn test_time_with_closure() {
    let value = 42;
    let result = time("test_closure", || value * 2);
    assert_eq!(result, 84);
}

#[test]
fn test_build_layer_matrix_empty() {
    let g = setup_test_graph();
    let matrix = build_layer_matrix(&g);
    assert_eq!(matrix.len(), 1);
    assert!(matrix[0].is_empty());
}

#[test]
fn test_build_layer_matrix_single_rank() {
    let mut g = setup_test_graph();
    let a = g.add_node(NodeLabel { rank: Some(0), order: Some(0), ..Default::default() });
    let b = g.add_node(NodeLabel { rank: Some(0), order: Some(1), ..Default::default() });

    let matrix = build_layer_matrix(&g);

    assert_eq!(matrix.len(), 1);
    assert_eq!(matrix[0].len(), 2);
    assert!(matrix[0].contains(&a));
    assert!(matrix[0].contains(&b));
}

#[test]
fn test_build_layer_matrix_with_gaps() {
    let mut g = setup_test_graph();
    let a = g.add_node(NodeLabel { rank: Some(0), order: Some(0), ..Default::default() });
    let b = g.add_node(NodeLabel { rank: Some(2), order: Some(0), ..Default::default() });

    let matrix = build_layer_matrix(&g);

    assert_eq!(matrix.len(), 3);
    assert_eq!(matrix[0].len(), 1);
    assert_eq!(matrix[1].len(), 0);
    assert_eq!(matrix[2].len(), 1);
    assert!(matrix[0].contains(&a));
    assert!(matrix[2].contains(&b));
}

#[test]
fn test_range() {
    assert_eq!(range(0, 5), vec![0, 1, 2, 3, 4]);
    assert_eq!(range_with_step(0, 10, 2), vec![0, 2, 4, 6, 8]);
}

#[test]
fn range_is_empty_when_end_not_after_start() {
    assert_eq!(range(5, 5), Vec::<i32>::new());
    assert_eq!(range(5, 2), Vec::<i32>::new());
    assert_eq!(range(-2, 1), vec![-2, -1, 0]);
}

#[test]
fn range_with_negative_step_counts_down() {
    assert_eq!(range_with_step(10, 0, -3), vec![9, 6, 3, 0]);
    assert_eq!(range_with_step(0, 10, -1), Vec::<i32>::new());
    assert_eq!(range_with_step(0, 7, 3), vec![0, 3, 6]);
}

#[test]
fn no_time_returns_the_closure_result() {
    assert_eq!(no_time("x", || 7 + 5), 12);
}

#[test]
fn placeholder_is_recognised_by_graph_id() {
    assert!(is_placeholder(NodeIndex::new_raw(usize::MAX, 0)));
    assert!(is_placeholder(NodeIndex::new_raw(3, 0)));
    assert!(!is_placeholder(NodeIndex::new_raw(usize::MAX, 7)));
}

#[test]
fn min_and_max_rank_ignore_unranked_nodes() {
    let mut g = setup_test_graph();
    assert_eq!(min_rank(&g), 0);
    assert_eq!(max_rank(&g), 0);
    g.add_node(NodeLabel { rank: Some(4), ..Default::default() });
    g.add_node(NodeLabel::default());
    g.add_node(NodeLabel { rank: Some(-2), ..Default::default() });
    assert_eq!(min_rank(&g), -2);
    assert_eq!(max_rank(&g), 4);
}

#[test]
fn normalize_ranks_keeps_rank_differences() {
    let mut g = setup_test_graph();
    let a = g.add_node(NodeLabel { rank: Some(7), ..Default::default() });
    let b = g.add_node(NodeLabel { rank: Some(10), ..Default::default() });
    let c = g.add_node(NodeLabel::default());
    normalize_ranks(&mut g);
    assert_eq!(g.node_label(a).unwrap().rank, Some(0));
    assert_eq!(g.node_label(b).unwrap().rank, Some(3));
    assert_eq!(g.node_label(c).unwrap().rank, None);
}

#[test]
fn layer_matrix_later_node_takes_a_shared_order_slot() {
    let mut g = setup_test_graph();
    let _a = g.add_node(NodeLabel { rank: Some(0), order: Some(1), ..Default::default() });
    let b = g.add_node(NodeLabel { rank: Some(0), order: Some(1), ..Default::default() });
    let c = g.add_node(NodeLabel { rank: Some(0), ..Default::default() });
    let matrix = build_layer_matrix(&g);
    assert_eq!(matrix.len(), 1);
    assert_eq!(matrix[0], vec![b, c]);
}

#[test]
fn layer_matrix_orders_by_order_attribute() {
    let mut g = setup_test_graph();
    let a = g.add_node(NodeLabel { rank: Some(1), order: Some(2), ..Default::default() });
    let b = g.add_node(NodeLabel { rank: Some(1), order: Some(0), ..Default::default() });
    let c = g.add_node(NodeLabel { rank: Some(1), order: Some(1), ..Default::default() });
    let matrix = build_layer_matrix(&g);
    assert_eq!(matrix.len(), 1);
    assert_eq!(matrix[0], vec![b, c, a]);
}

#[test]
fn remove_empty_ranks_closes_gaps() {
    let mut g = setup_test_graph();
    let a = g.add_node(NodeLabel { rank: Some(0), ..Default::default() });
    let b = g.add_node(NodeLabel { rank: Some(2), ..Default::default() });
    let c = g.add_node(NodeLabel { rank: Some(5), ..Default::default() });
    let e = g.add_node(NodeLabel::default());
    g.add_edge(Edge::new(a, b), EdgeLabel::default());
    remove_empty_ranks(&mut g);
    assert_eq!(g.node_label(a).unwrap().rank, Some(0));
    assert_eq!(g.node_label(b).unwrap().rank, Some(1));
    assert_eq!(g.node_label(c).unwrap().rank, Some(2));
    assert_eq!(g.node_label(e).unwrap().rank, None);
    assert_eq!(g.edge_count(), 1);
}
