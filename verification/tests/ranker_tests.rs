use dagviz::rank::ranker::{network_simplex, SimplexRun};
use dagviz::graph::Graph;
use dagviz::types::{Edge, EdgeLabel, GraphConfig, NodeLabel, Ranker};
use dagviz::util::normalize_ranks;

fn rank(g: &mut Graph) {
    assert!(dagviz::rank::ranker::rank(g, 0, u64::MAX));
}

fn setup_test_graph() -> Graph {
    let mut config = GraphConfig::default();
    config.ranker = Ranker::NetworkSimplex;
    Graph::with_config(config, 1)
}

fn setup_test_graph_with_ranker(ranker: Ranker) -> Graph {
    let mut config = GraphConfig::default();
    config.ranker = ranker;
    Graph::with_config(config, 1)
}

#[test]
fn test_respects_minlen_attribute_network_simplex() {
    let mut g = setup_test_graph_with_ranker(Ranker::NetworkSimplex);

    let a = g.add_node(NodeLabel::default());
    let b = g.add_node(NodeLabel::default());
    let c = g.add_node(NodeLabel::default());
    let d = g.add_node(NodeLabel::default());
    let h = g.add_node(NodeLabel::default());

    let e = g.add_node(NodeLabel::default());
    let g_node = g.add_node(NodeLabel::default());

    let f = g.add_node(NodeLabel::default());

    g.add_edge(
        Edge::new(a, b),
        EdgeLabel {
            minlen: 1,
            ..Default::default()
        },
    );
    g.add_edge(
        Edge::new(b, c),
        EdgeLabel {
            minlen: 1,
            ..Default::default()
        },
    );
    g.add_edge(
        Edge::new(c, d),
        EdgeLabel {
            minlen: 1,
            ..Default::default()
        },
    );
    g.add_edge(
        Edge::new(d, h),
        EdgeLabel {
            minlen: 1,
            ..Default::default()
        },
    );
    g.add_edge(
        Edge::new(a, e),
        EdgeLabel {
            minlen: 1,
            ..Default::default()
        },
    );
    g.add_edge(
        Edge::new(e, g_node),
        EdgeLabel {
            minlen: 1,
            ..Default::default()
        },
    );
    g.add_edge(
        Edge::new(g_node, h),
        EdgeLabel {
            minlen: 1,
            ..Default::default()
        },
    );
    g.add_edge(
        Edge::new(a, f),
        EdgeLabel {
            minlen: 1,
            ..Default::default()
        },
    );
    g.add_edge(
        Edge::new(f, g_node),
        EdgeLabel {
            minlen: 1,
            ..Default::default()
        },
    );

    rank(&mut g);

    normalize_ranks(&mut g);

    for edge in g.edges() {
        if let (Some(v_label), Some(w_label)) =
            (g.node_label(edge.source), g.node_label(edge.target))
        {
            if let (Some(v_rank), Some(w_rank)) = (v_label.rank, w_label.rank) {
                if let Some(edge_label) = g.edge_label(&edge) {
                    let minlen = edge_label.minlen;
                    assert!(w_rank - v_rank >= minlen as i32);
                }
            }
        }
    }
}

#[test]
fn test_respects_minlen_attribute_feasible_tree() {
    let mut g = setup_test_graph_with_ranker(Ranker::FeasibleTree);

    let a = g.add_node(NodeLabel::default());
    let b = g.add_node(NodeLabel::default());
    let c = g.add_node(NodeLabel::default());
    let d = g.add_node(NodeLabel::default());
    let h = g.add_node(NodeLabel::default());

    let e = g.add_node(NodeLabel::default());
    let g_node = g.add_node(NodeLabel::default());

    let f = g.add_node(NodeLabel::default());

    g.add_edge(
        Edge::new(a, b),
        EdgeLabel {
            minlen: 1,
            ..Default::default()
        },
    );
    g.add_edge(
        Edge::new(b, c),
        EdgeLabel {
            minlen: 1,
            ..Default::default()
        },
    );
    g.add_edge(
        Edge::new(c, d),
        EdgeLabel {
            minlen: 1,
            ..Default::default()
        },
    );
    g.add_edge(
        Edge::new(d, h),
        EdgeLabel {
            minlen: 1,
            ..Default::default()
        },
    );
    g.add_edge(
        Edge::new(a, e),
        EdgeLabel {
            minlen: 1,
            ..Default::default()
        },
    );
    g.add_edge(
        Edge::new(e, g_node),
        EdgeLabel {
            minlen: 1,
            ..Default::default()
        },
    );
    g.add_edge(
        Edge::new(g_node, h),
        EdgeLabel {
            minlen: 1,
            ..Default::default()
        },
    );
    g.add_edge(
        Edge::new(a, f),
        EdgeLabel {
            minlen: 1,
            ..Default::default()
        },
    );
    g.add_edge(
        Edge::new(f, g_node),
        EdgeLabel {
            minlen: 1,
            ..Default::default()
        },
    );

    rank(&mut g);

    normalize_ranks(&mut g);

    for edge in g.edges() {
        if let (Some(v_label), Some(w_label)) =
            (g.node_label(edge.source), g.node_label(edge.target))
        {
            if let (Some(v_rank), Some(w_rank)) = (v_label.rank, w_label.rank) {
                if let Some(edge_label) = g.edge_label(&edge) {
                    let minlen = edge_label.minlen;
                    assert!(w_rank - v_rank >= minlen as i32);
                }
            }
        }
    }
}

#[test]
fn test_respects_minlen_attribute_longest_path() {
    let mut g = setup_test_graph_with_ranker(Ranker::LongestPath);

    let a = g.add_node(NodeLabel::default());
    let b = g.add_node(NodeLabel::default());
    let c = g.add_node(NodeLabel::default());
    let d = g.add_node(NodeLabel::default());
    let h = g.add_node(NodeLabel::default());

    let e = g.add_node(NodeLabel::default());
    let g_node = g.add_node(NodeLabel::default());

    let f = g.add_node(NodeLabel::default());

    g.add_edge(
        Edge::new(a, b),
        EdgeLabel {
            minlen: 1,
            ..Default::default()
        },
    );
    g.add_edge(
        Edge::new(b, c),
        EdgeLabel {
            minlen: 1,
            ..Default::default()
        },
    );
    g.add_edge(
        Edge::new(c, d),
        EdgeLabel {
            minlen: 1,
            ..Default::default()
        },
    );
    g.add_edge(
        Edge::new(d, h),
        EdgeLabel {
            minlen: 1,
            ..Default::default()
        },
    );
    g.add_edge(
        Edge::new(a, e),
        EdgeLabel {
            minlen: 1,
            ..Default::default()
        },
    );
    g.add_edge(
        Edge::new(e, g_node),
        EdgeLabel {
            minlen: 1,
            ..Default::default()
        },
    );
    g.add_edge(
        Edge::new(g_node, h),
        EdgeLabel {
            minlen: 1,
            ..Default::default()
        },
    );
    g.add_edge(
        Edge::new(a, f),
        EdgeLabel {
            minlen: 1,
            ..Default::default()
        },
    );
    g.add_edge(
        Edge::new(f, g_node),
        EdgeLabel {
            minlen: 1,
            ..Default::default()
        },
    );

    rank(&mut g);

    normalize_ranks(&mut g);

    for edge in g.edges() {
        if let (Some(v_label), Some(w_label)) =
            (g.node_label(edge.source), g.node_label(edge.target))
        {
            if let (Some(v_rank), Some(w_rank)) = (v_label.rank, w_label.rank) {
                if let Some(edge_label) = g.edge_label(&edge) {
                    let minlen = edge_label.minlen;
                    assert!(w_rank - v_rank >= minlen as i32);
                }
            }
        }
    }
}

#[test]
fn test_respects_minlen_attribute_tight_tree() {
    let mut g = setup_test_graph_with_ranker(Ranker::TightTree);

    let a = g.add_node(NodeLabel::default());
    let b = g.add_node(NodeLabel::default());
    let c = g.add_node(NodeLabel::default());
    let d = g.add_node(NodeLabel::default());
    let h = g.add_node(NodeLabel::default());

    let e = g.add_node(NodeLabel::default());
    let g_node = g.add_node(NodeLabel::default());

    let f = g.add_node(NodeLabel::default());

    g.add_edge(
        Edge::new(a, b),
        EdgeLabel {
            minlen: 1,
            ..Default::default()
        },
    );
    g.add_edge(
        Edge::new(b, c),
        EdgeLabel {
            minlen: 1,
            ..Default::default()
        },
    );
    g.add_edge(
        Edge::new(c, d),
        EdgeLabel {
            minlen: 1,
            ..Default::default()
        },
    );
    g.add_edge(
        Edge::new(d, h),
        EdgeLabel {
            minlen: 1,
            ..Default::default()
        },
    );
    g.add_edge(
        Edge::new(a, e),
        EdgeLabel {
            minlen: 1,
            ..Default::default()
        },
    );
    g.add_edge(
        Edge::new(e, g_node),
        EdgeLabel {
            minlen: 1,
            ..Default::default()
        },
    );
    g.add_edge(
        Edge::new(g_node, h),
        EdgeLabel {
            minlen: 1,
            ..Default::default()
        },
    );
    g.add_edge(
        Edge::new(a, f),
        EdgeLabel {
            minlen: 1,
            ..Default::default()
        },
    );
    g.add_edge(
        Edge::new(f, g_node),
        EdgeLabel {
            minlen: 1,
            ..Default::default()
        },
    );

    rank(&mut g);

    normalize_ranks(&mut g);

    for edge in g.edges() {
        if let (Some(v_label), Some(w_label)) =
            (g.node_label(edge.source), g.node_label(edge.target))
        {
            if let (Some(v_rank), Some(w_rank)) = (v_label.rank, w_label.rank) {
                if let Some(edge_label) = g.edge_label(&edge) {
                    let minlen = edge_label.minlen;
                    assert!(w_rank - v_rank >= minlen as i32);
                }
            }
        }
    }
}

#[test]
fn test_can_rank_single_node_graph() {
    let mut g = setup_test_graph();
    let a = g.add_node(NodeLabel::default());

    rank(&mut g);

    normalize_ranks(&mut g);

    if let Some(label) = g.node_label(a) {
        assert_eq!(label.rank, Some(0));
    }
}

#[test]
fn rank_with_no_ranker_changes_nothing() {
    let mut g = setup_test_graph_with_ranker(Ranker::NoRanking);
    let a = g.add_node(NodeLabel { rank: Some(7), ..Default::default() });
    assert!(dagviz::rank::ranker::rank(&mut g, 0, u64::MAX));
    assert_eq!(g.node_label(a).unwrap().rank, Some(7));
}

#[test]
fn rank_refuses_ranks_too_large_for_its_arithmetic() {
    let mut g = setup_test_graph_with_ranker(Ranker::LongestPath);
    let a = g.add_node(NodeLabel { rank: Some(i32::MAX), ..Default::default() });
    assert!(!dagviz::rank::ranker::rank(&mut g, 0, u64::MAX));
    assert_eq!(g.node_label(a).unwrap().rank, Some(i32::MAX));
}

#[test]
fn network_simplex_on_a_diamond_is_optimal() {

    let mut g = setup_test_graph();
    let a = g.add_node(NodeLabel::default());
    let b = g.add_node(NodeLabel::default());
    let c = g.add_node(NodeLabel::default());
    let d = g.add_node(NodeLabel::default());
    for (s, t) in [(a, b), (a, c), (b, d), (c, d)] {
        g.add_edge(Edge::new(s, t), EdgeLabel::default());
    }
    assert_eq!(network_simplex(&mut g, 0, u64::MAX), SimplexRun::Optimal);
    let r = |v| g.node_label(v).unwrap().rank.unwrap();
    assert_eq!((r(b) - r(a), r(c) - r(a), r(d) - r(b), r(d) - r(c)), (1, 1, 1, 1));
}

#[test]
fn network_simplex_stops_at_the_round_limit() {

    let mut g = setup_test_graph();
    g.add_node(NodeLabel::default());
    // With no round allowed, the run stops before it can find that no cut
    // value is negative.
    assert_eq!(network_simplex(&mut g, 0, 0), SimplexRun::RoundLimit);
}
