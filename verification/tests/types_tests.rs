use dagviz::types::{
    Acyclicer, Align, Direction, EdgeLabel, GraphConfig, LabelPosition, NodeIndex, NodeLabel, PathType, RankDirection,
    Ranker,
};

#[test]
fn defaults_of_labels_and_configuration() {
    let e = EdgeLabel::default();
    assert_eq!(e.minlen, 1);
    assert_eq!(e.weight, 1);
    assert_eq!(e.labelpos, LabelPosition::Center);
    assert_eq!(e.path_type, PathType::Bezier);
    assert_eq!(e.reversed, None);
    let n = NodeLabel::default();
    assert_eq!(n.rank, None);
    assert!(n.border_left.is_empty());
    let c = GraphConfig::default();
    assert_eq!(c.ranker, Ranker::NetworkSimplex);
    assert_eq!(c.rankdir, RankDirection::TopBottom);
    assert_eq!(c.acyclicer, Acyclicer::Greedy);
    assert_eq!(c.direction, Direction::TopToBottom);
    assert_eq!(c.align, Align::Center);
    assert_eq!(c.minlen, 1);
    assert_eq!(NodeIndex::default(), NodeIndex::new_raw(0, 0));
}
