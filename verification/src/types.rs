//! Core value types shared by every phase of the layout.
use vstd::prelude::*;
use vstd::string::StrSliceExecFns;

verus! {

/// Index of a node, together with the id of the graph that owns it.
#[derive(Clone, Copy, Debug, PartialEq, Eq, Hash, Structural)]
pub struct NodeIndex {
    /// Position of the node in its graph.
    pub node_index: usize,
    /// Id of the graph the node belongs to.
    pub which_graph: u32,
}

impl NodeIndex {
    /// Builds an index from its raw parts.
    pub fn new_raw(usize_index: usize, which_graph: u32) -> (r: NodeIndex)
        ensures
            r.node_index == usize_index,
            r.which_graph == which_graph,
    {
        NodeIndex { node_index: usize_index, which_graph }
    }

    /// Does this index belong to the graph with id `graph_id`?
    pub fn belongs_to_graph(&self, graph_id: u32) -> (r: bool)
        ensures
            r == (self.which_graph == graph_id),
    {
        self.which_graph == graph_id
    }

    /// Re-labels the index as belonging to graph `graph_id`.
    pub fn set_graph_id(&mut self, graph_id: u32)
        ensures
            final(self).which_graph == graph_id,
            final(self).node_index == old(self).node_index,
    {
        self.which_graph = graph_id;
    }

    /// The position of the node.
    pub fn index(&self) -> (r: usize)
        ensures
            r == self.node_index,
    {
        self.node_index
    }
}

impl Default for NodeIndex {
    fn default() -> (r: NodeIndex)
        ensures
            r.node_index == 0,
            r.which_graph == 0,
    {
        NodeIndex { node_index: 0, which_graph: 0 }
    }
}

/// A directed edge, identified by its two end points.
#[derive(Clone, Copy, Debug, PartialEq, Eq, Hash, Structural)]
pub struct Edge {
    pub source: NodeIndex,
    pub target: NodeIndex,
}

impl Edge {
    pub fn new(source: NodeIndex, target: NodeIndex) -> (r: Edge)
        ensures
            r.source == source,
            r.target == target,
    {
        Edge { source, target }
    }
}

/// Kind of a node the layout inserted itself.
#[derive(Clone, Copy, Debug, PartialEq, Eq, Structural)]
pub enum Dummy {
    /// A node on a long edge.
    Edge,
    /// Stands in for an edge label.
    EdgeProxy,
    /// A border node of a subgraph.
    Border,
    /// Carries a self loop.
    SelfEdge,
    /// The root of the nesting graph.
    Root,
}

/// The kind of dummy node `name` names: "edge", "edge-proxy", "border",
/// "selfedge", and "root" or "_root"; none for any other name.
pub open spec fn dummy_named(name: Seq<char>) -> Option<Dummy> {
    if name == "edge"@ {
        Some(Dummy::Edge)
    } else if name == "edge-proxy"@ {
        Some(Dummy::EdgeProxy)
    } else if name == "border"@ {
        Some(Dummy::Border)
    } else if name == "selfedge"@ {
        Some(Dummy::SelfEdge)
    } else if name == "root"@ || name == "_root"@ {
        Some(Dummy::Root)
    } else {
        None
    }
}

/// Whether the strings `a` and `b` hold the same characters.
pub fn same_text(a: &str, b: &str) -> (r: bool)
    ensures
        r == (a@ == b@),
{
    let n = a.unicode_len();
    if n != b.unicode_len() {
        return false;
    }
    let mut i: usize = 0;
    while i < n
        invariant
            i <= n,
            n == a@.len(),
            n == b@.len(),
            forall|k: int| 0 <= k < i ==> a@[k] == b@[k],
        decreases n - i,
    {
        if a.get_char(i) != b.get_char(i) {
            return false;
        }
        i += 1;
    }
    proof {
        assert(a@ =~= b@);
    }
    true
}

impl Dummy {
    /// The kind of dummy node `name` names, if any (see `dummy_named`).
    pub fn from_name(name: &str) -> (r: Option<Dummy>)
        ensures
            r == dummy_named(name@),
    {
        if same_text(name, "edge") {
            Some(Dummy::Edge)
        } else if same_text(name, "edge-proxy") {
            Some(Dummy::EdgeProxy)
        } else if same_text(name, "border") {
            Some(Dummy::Border)
        } else if same_text(name, "selfedge") {
            Some(Dummy::SelfEdge)
        } else if same_text(name, "root") || same_text(name, "_root") {
            Some(Dummy::Root)
        } else {
            None
        }
    }
}

/// Algorithm used to assign ranks.
#[derive(Clone, Copy, Debug, PartialEq, Eq, Structural)]
pub enum Ranker {
    NetworkSimplex,
    FeasibleTree,
    LongestPath,
    TightTree,
    /// No ranking is performed.
    NoRanking,
}

impl Default for Ranker {
    fn default() -> (r: Ranker)
        ensures
            r == Ranker::NetworkSimplex,
    {
        Ranker::NetworkSimplex
    }
}

/// Direction in which ranks grow.
#[derive(Clone, Copy, Debug, PartialEq, Eq, Structural)]
pub enum RankDirection {
    TopBottom,
    BottomTop,
    LeftRight,
    RightLeft,
}

impl Default for RankDirection {
    fn default() -> (r: RankDirection)
        ensures
            r == RankDirection::TopBottom,
    {
        RankDirection::TopBottom
    }
}

/// Where an edge label sits relative to its edge.
#[derive(Clone, Copy, Debug, PartialEq, Eq, Structural)]
pub enum LabelPosition {
    Center,
    Left,
    Right,
    Top,
    Bottom,
}

impl Default for LabelPosition {
    fn default() -> (r: LabelPosition)
        ensures
            r == LabelPosition::Center,
    {
        LabelPosition::Center
    }
}

/// Shape of an edge path.
#[derive(Clone, Copy, Debug, PartialEq, Eq, Structural)]
pub enum PathType {
    Line,
    Bezier,
    Polyline,
    Orthogonal,
}

impl Default for PathType {
    fn default() -> (r: PathType)
        ensures
            r == PathType::Bezier,
    {
        PathType::Bezier
    }
}

/// Layout direction.
#[derive(Clone, Copy, Debug, PartialEq, Eq, Structural)]
pub enum Direction {
    TopToBottom,
    BottomToTop,
    LeftToRight,
    RightToLeft,
}

/// Alignment of nodes within their rank.
#[derive(Clone, Copy, Debug, PartialEq, Eq, Structural)]
pub enum Align {
    Center,
    Left,
    Right,
    Top,
    Bottom,
}

/// Algorithm used to break cycles.
#[derive(Clone, Copy, Debug, PartialEq, Eq, Structural)]
pub enum Acyclicer {
    /// The greedy feedback arc set heuristic (the configuration string "greedy").
    Greedy,
    /// Depth-first search: reverses every back edge (any other string).
    Dfs,
}

impl Acyclicer {
    /// The algorithm a configuration string names: "greedy" names the
    /// greedy heuristic, every other string the depth-first search.
    pub fn from_name(name: &str) -> (r: Acyclicer)
        ensures
            r == (if name@ == "greedy"@ {
                Acyclicer::Greedy
            } else {
                Acyclicer::Dfs
            }),
    {
        let word = "greedy";
        proof {
            reveal_strlit("greedy");
        }
        if name.unicode_len() != 6 {
            return Acyclicer::Dfs;
        }
        let mut i: usize = 0;
        while i < 6
            invariant
                i <= 6,
                name@.len() == 6,
                word@ == "greedy"@,
                word@.len() == 6,
                forall|k: int| 0 <= k < i ==> name@[k] == word@[k],
            decreases 6 - i,
        {
            if name.get_char(i) != word.get_char(i) {
                return Acyclicer::Dfs;
            }
            i += 1;
        }
        proof {
            assert(name@ =~= word@);
        }
        Acyclicer::Greedy
    }
}

/// The combinatorial attributes of a node.
#[derive(Debug)]
pub struct NodeLabel {
    pub label: Option<String>,
    pub rank: Option<i32>,
    pub order: Option<usize>,
    pub hidden: bool,
    pub parent: Option<NodeIndex>,
    pub dummy: Option<Dummy>,
    pub min_rank: Option<i32>,
    pub max_rank: Option<i32>,
    pub border_left: Vec<NodeIndex>,
    pub border_right: Vec<NodeIndex>,
    pub border_top: Option<NodeIndex>,
    pub border_bottom: Option<NodeIndex>,
    pub edge_obj: Option<Edge>,
    pub low: Option<i32>,
    pub lim: Option<i32>,
    /// Which side of its subgraph a border node stands on.
    pub border_type: Option<String>,
}

/// The combinatorial attributes of an edge.
#[derive(Debug)]
pub struct EdgeLabel {
    pub label: Option<String>,
    /// Least rank difference between the edge's target and source.
    pub minlen: i32,
    /// Weight of the edge in crossing counts and in the ranking objective.
    pub weight: u32,
    pub hidden: bool,
    pub path_type: PathType,
    /// Set when cycle breaking reversed the edge.
    pub reversed: Option<bool>,
    /// Name kept for a reversed edge.
    pub forward_name: Option<String>,
    pub labelpos: LabelPosition,
    /// Cut value of a tree edge in the network simplex; `Some` marks tree edges.
    pub cutvalue: Option<i32>,
}

impl EdgeLabel {
    /// The attributes of a freshly created edge: minimum length 1, weight 1.
    pub open spec fn is_default(self) -> bool {
        &&& self.label is None
        &&& self.minlen == 1
        &&& self.weight == 1
        &&& !self.hidden
        &&& self.path_type == PathType::Bezier
        &&& self.reversed is None
        &&& self.forward_name is None
        &&& self.labelpos == LabelPosition::Center
        &&& self.cutvalue is None
    }
}

impl Default for EdgeLabel {
    fn default() -> (r: EdgeLabel)
        ensures
            r.is_default(),
    {
        EdgeLabel {
            label: None,
            minlen: 1,
            weight: 1,
            hidden: false,
            path_type: PathType::Bezier,
            reversed: None,
            forward_name: None,
            labelpos: LabelPosition::Center,
            cutvalue: None,
        }
    }
}

impl NodeLabel {
    /// A label with every attribute unset.
    pub open spec fn is_default(&self) -> bool {
        &&& self.label is None
        &&& self.rank is None
        &&& self.order is None
        &&& !self.hidden
        &&& self.parent is None
        &&& self.dummy is None
        &&& self.min_rank is None
        &&& self.max_rank is None
        &&& self.border_left@.len() == 0
        &&& self.border_right@.len() == 0
        &&& self.border_top is None
        &&& self.border_bottom is None
        &&& self.edge_obj is None
        &&& self.low is None
        &&& self.lim is None
        &&& self.border_type is None
    }
}

impl Default for NodeLabel {
    fn default() -> (r: NodeLabel)
        ensures
            r.is_default(),
    {
        NodeLabel {
            label: None,
            rank: None,
            order: None,
            hidden: false,
            parent: None,
            dummy: None,
            min_rank: None,
            max_rank: None,
            border_left: Vec::new(),
            border_right: Vec::new(),
            border_top: None,
            border_bottom: None,
            edge_obj: None,
            low: None,
            lim: None,
            border_type: None,
        }
    }
}

/// The combinatorial part of a graph's configuration.
#[derive(Debug)]
pub struct GraphConfig {
    /// Default minimum edge length.
    pub minlen: i32,
    pub use_network_simplex: bool,
    pub use_brandes_koepf: bool,
    pub direction: Direction,
    pub align: Align,
    pub ranker: Ranker,
    pub rankdir: RankDirection,
    pub acyclicer: Acyclicer,
    /// Largest rank, once known.
    pub max_rank: Option<i32>,
    /// First dummy node of every long edge, once edges are normalized.
    pub dummy_chains: Option<Vec<NodeIndex>>,
}

impl Default for GraphConfig {
    fn default() -> (r: GraphConfig)
        ensures
            r.minlen == 1,
            r.use_network_simplex,
            r.use_brandes_koepf,
            r.direction == Direction::TopToBottom,
            r.align == Align::Center,
            r.ranker == Ranker::NetworkSimplex,
            r.rankdir == RankDirection::TopBottom,
            r.acyclicer == Acyclicer::Greedy,
            r.max_rank is None,
            r.dummy_chains is None,
    {
        GraphConfig {
            minlen: 1,
            use_network_simplex: true,
            use_brandes_koepf: true,
            direction: Direction::TopToBottom,
            align: Align::Center,
            ranker: Ranker::NetworkSimplex,
            rankdir: RankDirection::TopBottom,
            acyclicer: Acyclicer::Greedy,
            max_rank: None,
            dummy_chains: None,
        }
    }
}

/// `a` carries the attributes of `b`, its lists by their content.
pub open spec fn same_attrs(a: NodeLabel, b: NodeLabel) -> bool {
    &&& a == NodeLabel { border_left: a.border_left, border_right: a.border_right, ..b }
    &&& a.border_left@ == b.border_left@
    &&& a.border_right@ == b.border_right@
}

/// A copy of the label `l`.
pub fn copy_label(l: &NodeLabel) -> (r: NodeLabel)
    ensures
        same_attrs(r, *l),
{
    let label = match &l.label {
        Some(s) => Some(s.clone()),
        None => None,
    };
    let border_type = match &l.border_type {
        Some(s) => Some(s.clone()),
        None => None,
    };
    let mut border_left: Vec<NodeIndex> = Vec::new();
    let mut i: usize = 0;
    while i < l.border_left.len()
        invariant
            i <= l.border_left@.len(),
            border_left@ == l.border_left@.take(i as int),
        decreases l.border_left@.len() - i,
    {
        border_left.push(l.border_left[i]);
        proof {
            assert(l.border_left@.take(i + 1) =~= l.border_left@.take(i as int).push(l.border_left@[i as int]));
        }
        i += 1;
    }
    let mut border_right: Vec<NodeIndex> = Vec::new();
    let mut i: usize = 0;
    while i < l.border_right.len()
        invariant
            i <= l.border_right@.len(),
            border_right@ == l.border_right@.take(i as int),
        decreases l.border_right@.len() - i,
    {
        border_right.push(l.border_right[i]);
        proof {
            assert(l.border_right@.take(i + 1) =~= l.border_right@.take(i as int).push(l.border_right@[i as int]));
        }
        i += 1;
    }
    proof {
        assert(l.border_left@.take(l.border_left@.len() as int) =~= l.border_left@);
        assert(l.border_right@.take(l.border_right@.len() as int) =~= l.border_right@);
    }
    NodeLabel {
        label,
        rank: l.rank,
        order: l.order,
        hidden: l.hidden,
        parent: l.parent,
        dummy: l.dummy,
        min_rank: l.min_rank,
        max_rank: l.max_rank,
        border_left,
        border_right,
        border_top: l.border_top,
        border_bottom: l.border_bottom,
        edge_obj: l.edge_obj,
        low: l.low,
        lim: l.lim,
        border_type,
    }
}

/// A copy of the edge label `l`.
pub fn copy_edge_label(l: &EdgeLabel) -> (r: EdgeLabel)
    ensures
        r == *l,
{
    let label = match &l.label {
        Some(s) => Some(s.clone()),
        None => None,
    };
    let forward_name = match &l.forward_name {
        Some(s) => Some(s.clone()),
        None => None,
    };
    EdgeLabel {
        label,
        minlen: l.minlen,
        weight: l.weight,
        hidden: l.hidden,
        path_type: l.path_type,
        reversed: l.reversed,
        forward_name,
        labelpos: l.labelpos,
        cutvalue: l.cutvalue,
    }
}

/// The attributes of a freshly created edge.
pub open spec fn default_edge_label() -> EdgeLabel {
    EdgeLabel {
        label: None,
        minlen: 1,
        weight: 1,
        hidden: false,
        path_type: PathType::Bezier,
        reversed: None,
        forward_name: None,
        labelpos: LabelPosition::Center,
        cutvalue: None,
    }
}

} // verus!
