//! The directed graph every phase of the layout works on.
//!
//! Nodes are numbered `0..n` and carry a [`NodeLabel`]; every [`NodeIndex`]
//! also names the graph it belongs to. Edges are identified by their end
//! points and kept, with their [`EdgeLabel`], in an insertion-ordered map.
use vstd::prelude::*;
use indexmap::IndexMap;
use crate::index_map::{
    edge_entries, edge_map_get, edge_map_get_index, edge_map_get_mut, edge_map_insert,
    edge_map_len, edge_map_new, edge_map_swap_remove, has_key, key_pos, keys_unique, entry_map, lemma_inserted,
};
use crate::types::{Edge, EdgeLabel, GraphConfig, NodeIndex, NodeLabel};

verus! {

/// The edges incident on `v` (leaving `v` when `out`, entering it
/// otherwise), most recently inserted first.
pub open spec fn incident(s: Seq<(Edge, EdgeLabel)>, v: NodeIndex, out: bool) -> Seq<Edge>
    decreases s.len(),
{
    if s.len() == 0 {
        Seq::empty()
    } else {
        let e = s[0].0;
        let rest = incident(s.drop_first(), v, out);
        if (out && e.source == v) || (!out && e.target == v) {
            rest.push(e)
        } else {
            rest
        }
    }
}

/// An edge is among the incident edges of `v` exactly when it is a key of
/// the map with the right end point at `v`.
pub proof fn lemma_incident_contains(s: Seq<(Edge, EdgeLabel)>, v: NodeIndex, out: bool, e: Edge)
    ensures
        incident(s, v, out).contains(e) <==> (exists|i: int| 0 <= i < s.len() && #[trigger] s[i].0 == e)
            && (if out { e.source == v } else { e.target == v }),
    decreases s.len(),
{
    if s.len() > 0 {
        lemma_incident_contains(s.drop_first(), v, out, e);
        let rest = incident(s.drop_first(), v, out);
        if exists|i: int| 0 <= i < s.len() && #[trigger] s[i].0 == e {
            let i = choose|i: int| 0 <= i < s.len() && #[trigger] s[i].0 == e;
            if i > 0 {
                assert(s.drop_first()[i - 1].0 == e);
            }
        }
        if exists|i: int| 0 <= i < s.drop_first().len() && #[trigger] s.drop_first()[i].0 == e {
            let i = choose|i: int| 0 <= i < s.drop_first().len() && #[trigger] s.drop_first()[i].0 == e;
            assert(s[i + 1].0 == e);
        }
        let x = s[0].0;
        if (out && x.source == v) || (!out && x.target == v) {
            assert(rest.push(x).contains(e) <==> rest.contains(e) || x == e) by {
                if rest.push(x).contains(e) {
                    let k = choose|k: int| 0 <= k < rest.push(x).len() && rest.push(x)[k] == e;
                    if k < rest.len() {
                        assert(rest[k] == e);
                    }
                }
                if rest.contains(e) {
                    let k = choose|k: int| 0 <= k < rest.len() && rest[k] == e;
                    assert(rest.push(x)[k] == e);
                }
                if x == e {
                    assert(rest.push(x)[rest.len() as int] == e);
                }
            }
        }
    }
}

/// Every edge among the incident edges of `v` is a key of the map.
pub proof fn lemma_incident_index(s: Seq<(Edge, EdgeLabel)>, v: NodeIndex, out: bool, k: int)
    requires
        0 <= k < incident(s, v, out).len(),
    ensures
        exists|i: int| 0 <= i < s.len() && #[trigger] s[i].0 == incident(s, v, out)[k],
        if out { incident(s, v, out)[k].source == v } else { incident(s, v, out)[k].target == v },
{
    let e = incident(s, v, out)[k];
    assert(incident(s, v, out).contains(e));
    lemma_incident_contains(s, v, out, e);
}

/// Edge `e` has `v` as an end point.
pub open spec fn incident_to(e: Edge, v: NodeIndex) -> bool {
    e.source == v || e.target == v
}

/// The position of the last entry of `s` with key `e`, or -1.
pub open spec fn last_pos(s: Seq<(Edge, EdgeLabel)>, e: Edge) -> int
    decreases s.len(),
{
    if s.len() == 0 {
        -1
    } else if s.last().0 == e {
        s.len() - 1
    } else {
        last_pos(s.drop_last(), e)
    }
}

pub proof fn lemma_last_pos(s: Seq<(Edge, EdgeLabel)>, e: Edge, i: int)
    requires
        0 <= i <= s.len(),
        forall|j: int| i <= j < s.len() ==> s[j].0 != e,
    ensures
        last_pos(s, e) == last_pos(s.take(i), e),
        -1 <= last_pos(s, e) < s.len(),
        last_pos(s, e) >= 0 ==> s[last_pos(s, e)].0 == e,
        last_pos(s, e) < 0 ==> forall|j: int| 0 <= j < s.len() ==> s[j].0 != e,
    decreases s.len(),
{
    if s.len() > 0 {
        if i == s.len() {
            assert(s.take(i) =~= s);
        }
        lemma_last_pos(s.drop_last(), e, if i == s.len() { s.len() - 1 } else { i });
        if s.last().0 != e {
            assert(s.drop_last().take(if i == s.len() { s.len() - 1 } else { i }) =~= s.take(if i == s.len() {
                s.len() - 1
            } else {
                i
            }));
            if i == s.len() {
                assert(s.take(s.len() - 1) =~= s.drop_last());
            }
            assert forall|j: int| 0 <= j < s.len() && last_pos(s, e) < 0 implies s[j].0 != e by {
                if j < s.len() - 1 {
                    assert(s.drop_last()[j] == s[j]);
                }
            }
        } else {
            assert(i == s.len());
        }
    }
}

/// The parallel edges that stay when node `v` goes and node `last` takes its
/// place: those at `v` are dropped, and end points at `last` become `v`.
pub open spec fn kept_parallel(s: Seq<(Edge, EdgeLabel)>, v: NodeIndex, last: NodeIndex) -> Seq<(Edge, EdgeLabel)>
    decreases s.len(),
{
    if s.len() == 0 {
        Seq::empty()
    } else {
        let k = kept_parallel(s.drop_last(), v, last);
        if incident_to(s.last().0, v) {
            k
        } else {
            k.push((rename_end(s.last().0, last, v), s.last().1))
        }
    }
}

/// Edge `e` with every end point `from` replaced by `to`.
pub open spec fn rename_end(e: Edge, from: NodeIndex, to: NodeIndex) -> Edge {
    Edge {
        source: if e.source == from { to } else { e.source },
        target: if e.target == from { to } else { e.target },
    }
}

/// The edge map built by `remove_node` once the entries from position `m`
/// of `s` on have been moved: those not at `v`, with `last` renamed `v`.
pub open spec fn removal_view(s: Seq<(Edge, EdgeLabel)>, v: NodeIndex, last: NodeIndex, m: int) -> Map<Edge, EdgeLabel> {
    Map::new(
        |x: Edge| !incident_to(x, last) && exists|k: int| m <= k < s.len() && #[trigger] s[k].0 == rename_end(x, v, last),
        |x: Edge| s[key_pos(s, rename_end(x, v, last))].1,
    )
}

proof fn lemma_removal_step(s: Seq<(Edge, EdgeLabel)>, v: NodeIndex, last: NodeIndex, m: int, kept: bool)
    requires
        keys_unique(s),
        0 < m <= s.len(),
        kept == !incident_to(s[m - 1].0, v),
        v.node_index <= last.node_index,
        v.which_graph == last.which_graph,
    ensures
        kept ==> removal_view(s, v, last, m - 1) == removal_view(s, v, last, m).insert(
            rename_end(s[m - 1].0, last, v),
            s[m - 1].1,
        ),
        !kept ==> removal_view(s, v, last, m - 1) == removal_view(s, v, last, m),
{
    let key = s[m - 1].0;
    lemma_key_pos_unique(s, key, m - 1);
    let a = removal_view(s, v, last, m - 1);
    let b = removal_view(s, v, last, m);
    if kept {
        let x = rename_end(key, last, v);
        assert(rename_end(x, v, last) == key);
        assert(!incident_to(x, last));
        assert forall|y: Edge| #[trigger] a.dom().contains(y) <==> b.dom().contains(y) || y == x by {
            if a.dom().contains(y) {
                let k = choose|k: int| m - 1 <= k < s.len() && #[trigger] s[k].0 == rename_end(y, v, last);
                if k == m - 1 {
                    assert(y == x);
                } else {
                    assert(b.dom().contains(y));
                }
            }
            if b.dom().contains(y) {
                let k = choose|k: int| m <= k < s.len() && #[trigger] s[k].0 == rename_end(y, v, last);
                assert(a.dom().contains(y));
            }
            if y == x {
                assert(s[m - 1].0 == rename_end(y, v, last));
            }
        }
        assert(a =~= b.insert(x, s[m - 1].1));
    } else {
        assert forall|y: Edge| #[trigger] a.dom().contains(y) <==> b.dom().contains(y) by {
            if a.dom().contains(y) {
                let k = choose|k: int| m - 1 <= k < s.len() && #[trigger] s[k].0 == rename_end(y, v, last);
                if k == m - 1 {
                    assert(incident_to(rename_end(y, v, last), v));
                    assert(false);
                }
                assert(b.dom().contains(y));
            }
            if b.dom().contains(y) {
                let k = choose|k: int| m <= k < s.len() && #[trigger] s[k].0 == rename_end(y, v, last);
                assert(a.dom().contains(y));
            }
        }
        assert(a =~= b);
    }
}


/// A directed graph with labelled nodes and labelled edges.
pub struct Graph {
    nodes: Vec<NodeLabel>,
    edge_map: IndexMap<Edge, EdgeLabel>,
    /// Edges added between end points that already had an edge, oldest
    /// first: the edge added last between two end points is the one that
    /// `edge_map` holds, the earlier ones wait here.
    parallel: Vec<(Edge, EdgeLabel)>,
    config: GraphConfig,
    /// First dummy node of every chain of dummy nodes.
    pub dummy_chains: Vec<NodeIndex>,
    graph_id: u32,
}

impl Graph {
    /// The node labels, by node position.
    pub closed spec fn node_seq(&self) -> Seq<NodeLabel> {
        self.nodes@
    }

    /// The edges with their labels, in map order.
    pub closed spec fn entries(&self) -> Seq<(Edge, EdgeLabel)> {
        edge_entries(self.edge_map)
    }

    /// The edges that an edge added later between the same end points
    /// stands over, oldest first.
    pub closed spec fn parallel_edges(&self) -> Seq<(Edge, EdgeLabel)> {
        self.parallel@
    }

    /// The first dummy node of every chain, as recorded in the graph.
    pub closed spec fn dummy_heads(&self) -> Seq<NodeIndex> {
        self.dummy_chains@
    }

    /// The id that every node index of this graph carries.
    pub closed spec fn id(&self) -> u32 {
        self.graph_id
    }

    /// The configuration.
    pub closed spec fn config_spec(&self) -> GraphConfig {
        self.config
    }

    /// The number of nodes.
    pub open spec fn n(&self) -> nat {
        self.node_seq().len()
    }

    /// The index of the node at position `i`.
    pub open spec fn node_at(&self, i: int) -> NodeIndex {
        NodeIndex { node_index: i as usize, which_graph: self.id() }
    }

    /// `v` is a node of this graph.
    pub open spec fn contains_node(&self, v: NodeIndex) -> bool {
        v.which_graph == self.id() && v.node_index < self.n()
    }

    /// The label of node `v`.
    pub open spec fn label_of(&self, v: NodeIndex) -> NodeLabel {
        self.node_seq()[v.node_index as int]
    }

    /// The edges, in map order.
    pub open spec fn edge_seq(&self) -> Seq<Edge> {
        self.entries().map_values(|p: (Edge, EdgeLabel)| p.0)
    }

    /// `e` is an edge of this graph.
    pub open spec fn has_edge_spec(&self, e: Edge) -> bool {
        has_key(self.entries(), e)
    }

    /// The label of edge `e` (meaningful when `e` is an edge).
    pub open spec fn edge_label_spec(&self, e: Edge) -> EdgeLabel {
        self.entries()[key_pos(self.entries(), e)].1
    }

    /// Edges leaving `v`, most recent first.
    pub open spec fn out_edges_spec(&self, v: NodeIndex) -> Seq<Edge> {
        incident(self.entries(), v, true)
    }

    /// Edges entering `v`, most recent first.
    pub open spec fn in_edges_spec(&self, v: NodeIndex) -> Seq<Edge> {
        incident(self.entries(), v, false)
    }

    /// Well formed: edge keys are unique and join nodes of this graph.
    pub open spec fn wf(&self) -> bool {
        &&& self.n() <= usize::MAX
        &&& keys_unique(self.entries())
        &&& forall|i: int|
            0 <= i < self.entries().len() ==> self.contains_node(#[trigger] self.entries()[i].0.source)
                && self.contains_node(self.entries()[i].0.target)
    }

    /// An empty graph with the default configuration and id `graph_id`.
    pub fn new(graph_id: u32) -> (g: Graph)
        ensures
            g.wf(),
            g.id() == graph_id,
            g.n() == 0,
            g.entries().len() == 0,
            g.parallel_edges().len() == 0,
            g.config_spec().ranker == crate::types::Ranker::NetworkSimplex,
            g.config_spec().acyclicer == crate::types::Acyclicer::Greedy,
            g.config_spec().minlen == 1,
    {
        Graph::with_config(GraphConfig::default(), graph_id)
    }

    /// An empty graph with configuration `config` and id `graph_id`.
    pub fn with_config(config: GraphConfig, graph_id: u32) -> (g: Graph)
        ensures
            g.wf(),
            g.id() == graph_id,
            g.n() == 0,
            g.entries().len() == 0,
            g.parallel_edges().len() == 0,
            g.config_spec() == config,
    {
        Graph {
            nodes: Vec::new(),
            edge_map: edge_map_new(),
            parallel: Vec::new(),
            config,
            dummy_chains: Vec::new(),
            graph_id,
        }
    }

    /// The id of this graph.
    pub fn graph_id(&self) -> (r: u32)
        ensures
            r == self.id(),
    {
        self.graph_id
    }

    /// Adds a node; returns its index.
    pub fn add_node(&mut self, label: NodeLabel) -> (v: NodeIndex)
        requires
            old(self).wf(),
            old(self).n() < usize::MAX,
        ensures
            final(self).wf(),
            final(self).node_seq() == old(self).node_seq().push(label),
            final(self).entries() == old(self).entries(),
            final(self).id() == old(self).id(),
            final(self).config_spec() == old(self).config_spec(),
            v == old(self).node_at(old(self).n() as int),
            final(self).parallel_edges() == old(self).parallel_edges(),
            final(self).dummy_heads() == old(self).dummy_heads(),
    {
        let i = self.nodes.len();
        let ghost old_g = *self;
        self.nodes.push(label);
        proof {
            assert forall|k: int|
                0 <= k < self.entries().len() implies self.contains_node(#[trigger] self.entries()[k].0.source)
                && self.contains_node(self.entries()[k].0.target) by {
                assert(old_g.contains_node(old_g.entries()[k].0.source));
                assert(old_g.contains_node(old_g.entries()[k].0.target));
            }
        }
        NodeIndex { node_index: i, which_graph: self.graph_id }
    }

    /// The edge from `source` to `target`, both nodes of this graph.
    pub fn create_edge(&self, source: NodeIndex, target: NodeIndex) -> (e: Edge)
        requires
            source.which_graph == self.id(),
            target.which_graph == self.id(),
        ensures
            e == (Edge { source, target }),
    {
        let mut edge = Edge::new(source, target);
        edge.source.set_graph_id(self.graph_id);
        edge.target.set_graph_id(self.graph_id);
        edge
    }

    /// The edge from `source` to `target`, for look-ups.
    pub fn create_query_edge(&self, source: NodeIndex, target: NodeIndex) -> (e: Edge)
        requires
            source.which_graph == self.id(),
            target.which_graph == self.id(),
        ensures
            e == (Edge { source, target }),
    {
        self.create_edge(source, target)
    }

    /// Adds the edge `edge` with label `label`. Where an edge between the
    /// same end points exists, the new edge takes its place in the edge map
    /// and the earlier one is kept beside it as a parallel edge. Returns the
    /// position of the edge in the edge map.
    pub fn add_edge(&mut self, edge: Edge, label: EdgeLabel) -> (r: usize)
        requires
            old(self).wf(),
            old(self).contains_node(edge.source),
            old(self).contains_node(edge.target),
        ensures
            final(self).wf(),
            final(self).node_seq() == old(self).node_seq(),
            final(self).id() == old(self).id(),
            final(self).config_spec() == old(self).config_spec(),
            old(self).has_edge_spec(edge) ==> final(self).entries() == old(self).entries().update(
                key_pos(old(self).entries(), edge),
                (edge, label),
            ) && r == key_pos(old(self).entries(), edge),
            !old(self).has_edge_spec(edge) ==> final(self).entries() == old(self).entries().push(
                (edge, label),
            ) && r == old(self).entries().len(),
            final(self).has_edge_spec(edge),
            final(self).edge_label_spec(edge) == label,
            final(self).parallel_edges() == if old(self).has_edge_spec(edge) {
                old(self).parallel_edges().push((edge, old(self).edge_label_spec(edge)))
            } else {
                old(self).parallel_edges()
            },
            final(self).dummy_heads() == old(self).dummy_heads(),
    {
        let ghost old_s = self.entries();
        let pos = self.find_pos(&edge);
        let earlier = edge_map_insert(&mut self.edge_map, edge, label);
        if let Some(l) = earlier {
            self.parallel.push((edge, l));
        }
        let ghost s = self.entries();
        proof {
            if has_key(old_s, edge) {
                let p = key_pos(old_s, edge);
                assert forall|i: int, j: int|
                    #![trigger s[i], s[j]]
                    0 <= i < s.len() && 0 <= j < s.len() && i != j implies s[i].0 != s[j].0 by {
                    assert(old_s[i].0 == s[i].0 && old_s[j].0 == s[j].0);
                }
                assert(s[p].0 == edge);
                assert(has_key(s, edge));
                lemma_key_pos_unique(s, edge, p);
            } else {
                assert forall|i: int, j: int|
                    #![trigger s[i], s[j]]
                    0 <= i < s.len() && 0 <= j < s.len() && i != j implies s[i].0 != s[j].0 by {
                    if i < old_s.len() && j < old_s.len() {
                        assert(old_s[i].0 == s[i].0 && old_s[j].0 == s[j].0);
                    } else if i < old_s.len() {
                        assert(old_s[i].0 == s[i].0);
                    } else if j < old_s.len() {
                        assert(old_s[j].0 == s[j].0);
                    }
                }
                let p = old_s.len() as int;
                assert(s[p].0 == edge);
                assert(has_key(s, edge));
                lemma_key_pos_unique(s, edge, p);
            }
            assert forall|i: int|
                0 <= i < s.len() implies self.contains_node(#[trigger] s[i].0.source)
                && self.contains_node(s[i].0.target) by {
                if i < old_s.len() && s[i].0 != edge {
                    assert(old_s[i].0 == s[i].0);
                }
            }
        }
        pos
    }

    /// The position `add_edge` reports for `edge`.
    fn find_pos(&self, edge: &Edge) -> (r: usize)
        requires
            self.wf(),
        ensures
            self.has_edge_spec(*edge) ==> r == key_pos(self.entries(), *edge),
            !self.has_edge_spec(*edge) ==> r == self.entries().len(),
    {
        let len = edge_map_len(&self.edge_map);
        let mut i: usize = 0;
        while i < len
            invariant
                self.wf(),
                len == self.entries().len(),
                i <= len,
                forall|j: int| 0 <= j < i ==> self.entries()[j].0 != *edge,
            decreases len - i,
        {
            let entry = edge_map_get_index(&self.edge_map, i);
            if let Some((k, _)) = entry {
                if k == *edge {
                    proof {
                        lemma_key_pos_unique(self.entries(), *edge, i as int);
                    }
                    return i;
                }
            }
            i += 1;
        }
        i
    }

    /// The label of node `v`, if `v` is a node of this graph.
    pub fn node_label(&self, v: NodeIndex) -> (r: Option<&NodeLabel>)
        requires
            v.which_graph == self.id(),
        ensures
            r is Some <==> self.contains_node(v),
            r matches Some(l) ==> *l == self.label_of(v),
    {
        if v.node_index < self.nodes.len() {
            Some(&self.nodes[v.node_index])
        } else {
            None
        }
    }

    /// A mutable reference to the label of node `v`, if `v` is a node.
    pub fn node_label_mut(&mut self, v: NodeIndex) -> (r: Option<&mut NodeLabel>)
        requires
            v.which_graph == old(self).id(),
        ensures
            old(self).contains_node(v) ==> (r matches Some(l) && *l == old(self).label_of(v)
                && final(self).node_seq() == old(self).node_seq().update(v.node_index as int, *final(l))),
            !old(self).contains_node(v) ==> (r is None && final(self).node_seq() == old(self).node_seq()),
            final(self).entries() == old(self).entries(),
            final(self).id() == old(self).id(),
            final(self).config_spec() == old(self).config_spec(),
            final(self).dummy_heads() == old(self).dummy_heads(),
            final(self).parallel_edges() == old(self).parallel_edges(),
    {
        if v.node_index < self.nodes.len() {
            Some(&mut self.nodes[v.node_index])
        } else {
            None
        }
    }

    /// The label of edge `e`, if it is an edge.
    pub fn edge_label(&self, e: &Edge) -> (r: Option<&EdgeLabel>)
        ensures
            r is Some <==> self.has_edge_spec(*e),
            r matches Some(l) ==> *l == self.edge_label_spec(*e),
    {
        edge_map_get(&self.edge_map, e)
    }

    /// A mutable reference to the label of edge `e`, if it is an edge.
    pub fn edge_label_mut(&mut self, e: &Edge) -> (r: Option<&mut EdgeLabel>)
        ensures
            old(self).has_edge_spec(*e) ==> (r matches Some(l) && *l == old(self).edge_label_spec(*e)
                && final(self).entries() == old(self).entries().update(
                    key_pos(old(self).entries(), *e),
                    (*e, *final(l)),
                )),
            !old(self).has_edge_spec(*e) ==> (r is None && final(self).entries() == old(self).entries()),
            final(self).node_seq() == old(self).node_seq(),
            final(self).id() == old(self).id(),
            final(self).config_spec() == old(self).config_spec(),
            final(self).dummy_heads() == old(self).dummy_heads(),
            final(self).parallel_edges() == old(self).parallel_edges(),
    {
        edge_map_get_mut(&mut self.edge_map, e)
    }
    /// The indices of all nodes, in order.
    pub fn node_indices(&self) -> (r: Vec<NodeIndex>)
        ensures
            r@.len() == self.n(),
            forall|i: int| 0 <= i < self.n() ==> #[trigger] r@[i] == self.node_at(i),
    {
        let mut r: Vec<NodeIndex> = Vec::new();
        let n = self.nodes.len();
        let mut i: usize = 0;
        while i < n
            invariant
                n == self.n(),
                i <= n,
                r@.len() == i,
                forall|k: int| 0 <= k < i ==> #[trigger] r@[k] == self.node_at(k),
            decreases n - i,
        {
            r.push(NodeIndex { node_index: i, which_graph: self.graph_id });
            i += 1;
        }
        r
    }

    /// All edges, in map order.
    pub fn edges(&self) -> (r: Vec<Edge>)
        ensures
            r@ == self.edge_seq(),
    {
        let mut r: Vec<Edge> = Vec::new();
        let len = edge_map_len(&self.edge_map);
        let mut i: usize = 0;
        while i < len
            invariant
                len == self.entries().len(),
                i <= len,
                r@ == self.edge_seq().take(i as int),
            decreases len - i,
        {
            let entry = edge_map_get_index(&self.edge_map, i);
            if let Some((k, _)) = entry {
                r.push(k);
            }
            proof {
                assert(self.edge_seq().take(i + 1) =~= self.edge_seq().take(i as int).push(self.edge_seq()[i as int]));
            }
            i += 1;
        }
        proof {
            assert(self.edge_seq().take(len as int) =~= self.edge_seq());
        }
        r
    }

    /// The edges incident on `v`, most recent first.
    fn incident_edges(&self, v: NodeIndex, out: bool) -> (r: Vec<Edge>)
        ensures
            r@ == incident(self.entries(), v, out),
    {
        let mut r: Vec<Edge> = Vec::new();
        let len = edge_map_len(&self.edge_map);
        let mut i: usize = len;
        let ghost s = self.entries();
        proof {
            assert(s.subrange(len as int, len as int).len() == 0);
        }
        while i > 0
            invariant
                s == self.entries(),
                len == s.len(),
                i <= len,
                r@ == incident(s.subrange(i as int, len as int), v, out),
            decreases i,
        {
            i -= 1;
            proof {
                assert(s.subrange(i as int, len as int).drop_first() =~= s.subrange(i + 1, len as int));
            }
            let entry = edge_map_get_index(&self.edge_map, i);
            if let Some((k, _)) = entry {
                if (out && k.source == v) || (!out && k.target == v) {
                    r.push(k);
                }
            }
        }
        proof {
            assert(s.subrange(0, len as int) =~= s);
        }
        r
    }

    /// The edges leaving `v`, most recent first.
    pub fn out_edges(&self, v: NodeIndex) -> (r: Vec<Edge>)
        requires
            v.which_graph == self.id(),
        ensures
            r@ == self.out_edges_spec(v),
    {
        self.incident_edges(v, true)
    }

    /// The edges entering `v`, most recent first.
    pub fn in_edges(&self, v: NodeIndex) -> (r: Vec<Edge>)
        requires
            v.which_graph == self.id(),
        ensures
            r@ == self.in_edges_spec(v),
    {
        self.incident_edges(v, false)
    }

    /// The targets of the edges leaving `v`, most recent edge first.
    pub fn successors(&self, v: NodeIndex) -> (r: Vec<NodeIndex>)
        requires
            v.which_graph == self.id(),
        ensures
            r@ == self.out_edges_spec(v).map_values(|e: Edge| e.target),
    {
        let es = self.incident_edges(v, true);
        let mut r: Vec<NodeIndex> = Vec::new();
        let mut i: usize = 0;
        while i < es.len()
            invariant
                i <= es@.len(),
                r@ == es@.take(i as int).map_values(|e: Edge| e.target),
            decreases es@.len() - i,
        {
            r.push(es[i].target);
            proof {
                assert(es@.take(i + 1).map_values(|e: Edge| e.target) =~= es@.take(i as int).map_values(|e: Edge| e.target).push(es@[i as int].target));
            }
            i += 1;
        }
        proof {
            assert(es@.take(es@.len() as int) =~= es@);
        }
        r
    }

    /// The sources of the edges entering `v`, most recent edge first.
    pub fn predecessors(&self, v: NodeIndex) -> (r: Vec<NodeIndex>)
        requires
            v.which_graph == self.id(),
        ensures
            r@ == self.in_edges_spec(v).map_values(|e: Edge| e.source),
    {
        let es = self.incident_edges(v, false);
        let mut r: Vec<NodeIndex> = Vec::new();
        let mut i: usize = 0;
        while i < es.len()
            invariant
                i <= es@.len(),
                r@ == es@.take(i as int).map_values(|e: Edge| e.source),
            decreases es@.len() - i,
        {
            r.push(es[i].source);
            proof {
                assert(es@.take(i + 1).map_values(|e: Edge| e.source) =~= es@.take(i as int).map_values(|e: Edge| e.source).push(es@[i as int].source));
            }
            i += 1;
        }
        proof {
            assert(es@.take(es@.len() as int) =~= es@);
        }
        r
    }

    /// The configuration.
    pub fn config(&self) -> (r: &GraphConfig)
        ensures
            *r == self.config_spec(),
    {
        &self.config
    }

    /// A mutable reference to the configuration.
    pub fn config_mut(&mut self) -> (r: &mut GraphConfig)
        ensures
            *r == old(self).config_spec(),
            final(self).config_spec() == *final(r),
            final(self).node_seq() == old(self).node_seq(),
            final(self).entries() == old(self).entries(),
            final(self).id() == old(self).id(),
            final(self).parallel_edges() == old(self).parallel_edges(),
            final(self).dummy_heads() == old(self).dummy_heads(),
    {
        &mut self.config
    }

    /// Replaces the configuration.
    pub fn set_config(&mut self, config: GraphConfig)
        ensures
            final(self).config_spec() == config,
            final(self).node_seq() == old(self).node_seq(),
            final(self).entries() == old(self).entries(),
            final(self).id() == old(self).id(),
            final(self).parallel_edges() == old(self).parallel_edges(),
            final(self).dummy_heads() == old(self).dummy_heads(),
    {
        self.config = config;
    }

    /// The position of the edge from `source` to `target` in the edge map.
    pub fn find_edge(&self, source: NodeIndex, target: NodeIndex) -> (r: Option<usize>)
        requires
            self.wf(),
            source.which_graph == self.id(),
            target.which_graph == self.id(),
        ensures
            r is Some <==> self.has_edge_spec(Edge { source, target }),
            r matches Some(p) ==> p == key_pos(self.entries(), Edge { source, target }),
    {
        let edge = Edge::new(source, target);
        if edge_map_get(&self.edge_map, &edge).is_some() {
            Some(self.find_pos(&edge))
        } else {
            None
        }
    }

    /// Does the graph have no node?
    pub fn is_empty(&self) -> (r: bool)
        ensures
            r == (self.n() == 0),
    {
        self.nodes.len() == 0
    }

    /// The number of nodes.
    pub fn node_count(&self) -> (r: usize)
        ensures
            r == self.n(),
    {
        self.nodes.len()
    }

    /// The first dummy node of every chain.
    pub fn dummy_chain_heads(&self) -> (r: &Vec<NodeIndex>)
        ensures
            r@ == self.dummy_heads(),
    {
        &self.dummy_chains
    }

    /// The number of edges, parallel ones included (at most `usize::MAX`).
    pub fn edge_count(&self) -> (r: usize)
        ensures
            r == if self.entries().len() + self.parallel_edges().len() > usize::MAX {
                usize::MAX as int
            } else {
                (self.entries().len() + self.parallel_edges().len()) as int
            },
    {
        edge_map_len(&self.edge_map).saturating_add(self.parallel.len())
    }

    /// Is `v` a node of this graph?
    pub fn has_node(&self, v: NodeIndex) -> (r: bool)
        requires
            v.which_graph == self.id(),
        ensures
            r == self.contains_node(v),
    {
        v.node_index < self.nodes.len()
    }

    /// Is `e` an edge of this graph?
    pub fn has_edge(&self, e: &Edge) -> (r: bool)
        ensures
            r == self.has_edge_spec(*e),
    {
        edge_map_get(&self.edge_map, e).is_some()
    }

    /// Removes edge `e`; the last edge of the map takes its place. Returns
    /// its label. Parallel edges between the same end points stay kept.
    pub fn remove_edge(&mut self, e: &Edge) -> (r: Option<EdgeLabel>)
        requires
            old(self).wf(),
        ensures
            final(self).wf(),
            old(self).has_edge_spec(*e) ==> (r matches Some(l) && l == old(self).edge_label_spec(*e)
                && final(self).entries() == old(self).entries().update(
                    key_pos(old(self).entries(), *e),
                    old(self).entries().last(),
                ).drop_last()),
            !old(self).has_edge_spec(*e) ==> (r is None && final(self).entries() == old(self).entries()),
            !final(self).has_edge_spec(*e),
            final(self).parallel_edges() == old(self).parallel_edges(),
            final(self).dummy_heads() == old(self).dummy_heads(),
            final(self).node_seq() == old(self).node_seq(),
            final(self).id() == old(self).id(),
            final(self).config_spec() == old(self).config_spec(),
    {
        let ghost old_s = self.entries();
        let ghost old_g = *self;
        let r = edge_map_swap_remove(&mut self.edge_map, e);
        let ghost s = self.entries();
        proof {
            if has_key(old_s, *e) {
                let p = key_pos(old_s, *e);
                let last = old_s.len() - 1;
                assert forall|i: int| 0 <= i < s.len() implies (i == p && #[trigger] s[i] == old_s[last]) || (i != p && s[i] == old_s[i]) by {}
                assert forall|i: int, j: int|
                    #![trigger s[i], s[j]]
                    0 <= i < s.len() && 0 <= j < s.len() && i != j implies s[i].0 != s[j].0 by {
                    let oi = if i == p { last } else { i };
                    let oj = if j == p { last } else { j };
                    assert(s[i] == old_s[oi] && s[j] == old_s[oj]);
                }
                assert forall|i: int|
                    0 <= i < s.len() implies self.contains_node(#[trigger] s[i].0.source)
                    && self.contains_node(s[i].0.target) by {
                    let oi = if i == p { last } else { i };
                    assert(s[i] == old_s[oi]);
                    assert(old_g.contains_node(old_s[oi].0.source));
                    assert(old_g.contains_node(old_s[oi].0.target));
                }
                if has_key(s, *e) {
                    let q = key_pos(s, *e);
                    let oq = if q == p { last } else { q };
                    assert(s[q] == old_s[oq]);
                    assert(old_s[p].0 == *e);
                    assert(old_s[oq].0 == *e);
                }
                assert(keys_unique(s));
            } else {
                assert(s == old_s);
                assert forall|i: int|
                    0 <= i < s.len() implies self.contains_node(#[trigger] s[i].0.source)
                    && self.contains_node(s[i].0.target) by {
                    assert(old_g.contains_node(old_s[i].0.source));
                    assert(old_g.contains_node(old_s[i].0.target));
                }
            }
            assert(self.wf());
        }
        r
    }

    /// The label of the parallel edge kept last between the end points of
    /// `e`, if one is kept.
    pub fn parallel_label(&self, e: &Edge) -> (r: Option<&EdgeLabel>)
        ensures
            r is Some <==> last_pos(self.parallel_edges(), *e) >= 0,
            r matches Some(l) ==> *l == self.parallel_edges()[last_pos(self.parallel_edges(), *e)].1,
    {
        let ghost s = self.parallel@;
        let mut i: usize = self.parallel.len();
        while i > 0
            invariant
                s == self.parallel@,
                i <= s.len(),
                forall|j: int| i <= j < s.len() ==> s[j].0 != *e,
            ensures
                i == 0 || s[i - 1].0 == *e,
            decreases i,
        {
            if self.parallel[i - 1].0 == *e {
                break;
            }
            i -= 1;
        }
        proof {
            lemma_last_pos(s, *e, i as int);
        }
        if i == 0 {
            return None;
        }
        proof {
            assert(s.take(i as int).last() == s[i - 1]);
        }
        Some(&self.parallel[i - 1].1)
    }

    /// Where `e` is not an edge but parallel edges between its end points
    /// are kept, the one kept last becomes the edge `e` again, at the end of
    /// the edge map. Returns whether one did.
    pub fn restore_parallel_edge(&mut self, e: &Edge) -> (r: bool)
        requires
            old(self).wf(),
        ensures
            final(self).wf(),
            final(self).node_seq() == old(self).node_seq(),
            final(self).id() == old(self).id(),
            final(self).config_spec() == old(self).config_spec(),
            final(self).dummy_heads() == old(self).dummy_heads(),
            r == (!old(self).has_edge_spec(*e) && last_pos(old(self).parallel_edges(), *e) >= 0 && old(
                self,
            ).contains_node(e.source) && old(self).contains_node(e.target)),
            r ==> final(self).entries() == old(self).entries().push(
                (*e, old(self).parallel_edges()[last_pos(old(self).parallel_edges(), *e)].1),
            ) && final(self).parallel_edges() == old(self).parallel_edges().remove(
                last_pos(old(self).parallel_edges(), *e),
            ),
            !r ==> final(self).entries() == old(self).entries() && final(self).parallel_edges()
                == old(self).parallel_edges(),
    {
        let ghost s = self.parallel@;
        if edge_map_get(&self.edge_map, e).is_some() {
            return false;
        }
        if e.source.which_graph != self.graph_id || e.target.which_graph != self.graph_id
            || e.source.node_index >= self.nodes.len() || e.target.node_index >= self.nodes.len() {
            return false;
        }
        let mut i: usize = self.parallel.len();
        while i > 0
            invariant
                s == self.parallel@,
                i <= s.len(),
                forall|j: int| i <= j < s.len() ==> s[j].0 != *e,
            ensures
                i == 0 || s[i - 1].0 == *e,
            decreases i,
        {
            if self.parallel[i - 1].0 == *e {
                break;
            }
            i -= 1;
        }
        proof {
            lemma_last_pos(s, *e, i as int);
        }
        if i == 0 {
            proof {
                assert(s.take(0).len() == 0);
            }
            return false;
        }
        proof {
            lemma_last_pos(s, *e, i as int);
            assert(s.take(i as int).last() == s[i - 1]);
            assert(s.take(i as int).last().0 == *e);
        }
        let (x, l) = self.parallel.remove(i - 1);
        self.add_edge(x, l);
        true
    }

    /// The edges with their labels, as a map.
    pub open spec fn edge_view(&self) -> Map<Edge, EdgeLabel> {
        entry_map(self.entries())
    }

    /// Removes node `v` with its edges. The last node takes the place of
    /// `v`, and its edges follow it; nothing else is renumbered. Returns
    /// the label of `v`, or `None` when `v` is not a node.
    pub fn remove_node(&mut self, v: NodeIndex) -> (r: Option<NodeLabel>)
        requires
            old(self).wf(),
            v.which_graph == old(self).id(),
        ensures
            final(self).wf(),
            final(self).id() == old(self).id(),
            final(self).config_spec() == old(self).config_spec(),
            !old(self).contains_node(v) ==> r is None && final(self).node_seq() == old(self).node_seq()
                && final(self).entries() == old(self).entries(),
            old(self).contains_node(v) ==> {
                let last = old(self).node_at(old(self).n() - 1);
                &&& r == Some(old(self).label_of(v))
                &&& final(self).n() == old(self).n() - 1
                &&& forall|i: int| 0 <= i < final(self).n() ==> #[trigger] final(self).node_seq()[i] == if i == v.node_index {
                    old(self).node_seq()[old(self).n() - 1]
                } else {
                    old(self).node_seq()[i]
                }
                &&& final(self).edge_view() == Map::new(
                    |x: Edge| !incident_to(x, last) && old(self).has_edge_spec(rename_end(x, v, last)),
                    |x: Edge| old(self).edge_label_spec(rename_end(x, v, last)),
                )
                &&& final(self).parallel_edges() == kept_parallel(old(self).parallel_edges(), v, last)
            },
            !old(self).contains_node(v) ==> final(self).parallel_edges() == old(self).parallel_edges(),
            final(self).dummy_heads() == old(self).dummy_heads(),
    {
        if v.node_index >= self.nodes.len() {
            return None;
        }
        let n = self.nodes.len();
        let last = NodeIndex { node_index: n - 1, which_graph: self.graph_id };
        let ghost g0 = *self;
        let ghost s0 = self.entries();
        let mut old_map = edge_map_new();
        std::mem::swap(&mut old_map, &mut self.edge_map);
        proof {
            assert(edge_entries(old_map) == s0);
            assert(s0.take(s0.len() as int) =~= s0);
            assert(entry_map(edge_entries(self.edge_map)) =~= removal_view(s0, v, last, s0.len() as int));
        }
        let mut m = edge_map_len(&old_map);
        while m > 0
            invariant
                g0.wf(),
                s0 == g0.entries(),
                n == g0.n(),
                v.node_index < n,
                last == g0.node_at(n - 1),
                v.which_graph == g0.id(),
                m <= s0.len(),
                edge_entries(old_map) == s0.take(m as int),
                m == edge_entries(old_map).len(),
                keys_unique(edge_entries(self.edge_map)),
                entry_map(edge_entries(self.edge_map)) == removal_view(s0, v, last, m as int),
                self.nodes@ == g0.node_seq(),
                self.graph_id == g0.id(),
                self.config == g0.config_spec(),
                self.parallel@ == g0.parallel_edges(),
                self.dummy_chains@ == g0.dummy_heads(),
            decreases m,
        {
            let key = edge_map_get_index(&old_map, m - 1).unwrap().0;
            let ghost pre = edge_entries(old_map);
            proof {
                assert(pre[m - 1] == s0[m - 1]);
                assert forall|i: int, j: int| #![trigger pre[i], pre[j]] 0 <= i < pre.len() && 0 <= j < pre.len() && i != j implies pre[i].0 != pre[j].0 by {
                    assert(pre[i] == s0[i] && pre[j] == s0[j]);
                }
                lemma_key_pos_unique(pre, key, m - 1);
                lemma_key_pos_unique(s0, key, m - 1);
            }
            let l = edge_map_swap_remove(&mut old_map, &key).unwrap();
            proof {
                assert(edge_entries(old_map) =~= s0.take(m - 1));
            }
            if key.source != v && key.target != v {
                let x = Edge {
                    source: if key.source == last { v } else { key.source },
                    target: if key.target == last { v } else { key.target },
                };
                proof {
                    lemma_inserted(edge_entries(self.edge_map), x, l);
                    lemma_removal_step(s0, v, last, m as int, true);
                }
                edge_map_insert(&mut self.edge_map, x, l);
            } else {
                proof {
                    lemma_removal_step(s0, v, last, m as int, false);
                }
            }
            m = edge_map_len(&old_map);
        }
        let label = self.nodes.swap_remove(v.node_index);
        proof {
            assert(self.edge_view() =~= Map::new(
                |x: Edge| !incident_to(x, last) && g0.has_edge_spec(rename_end(x, v, last)),
                |x: Edge| g0.edge_label_spec(rename_end(x, v, last)),
            )) by {
                assert forall|x: Edge| #[trigger] removal_view(s0, v, last, 0).dom().contains(x) <==> (!incident_to(x, last) && g0.has_edge_spec(rename_end(x, v, last))) by {
                    if g0.has_edge_spec(rename_end(x, v, last)) {
                        let k = choose|k: int| 0 <= k < s0.len() && #[trigger] s0[k].0 == rename_end(x, v, last);
                    }
                }
            }
            let s = self.entries();
            assert forall|i: int| 0 <= i < s.len() implies self.contains_node(#[trigger] s[i].0.source) && self.contains_node(s[i].0.target) by {
                let x = s[i].0;
                assert(has_key(s, x));
                assert(self.edge_view().dom().contains(x));
                let e = rename_end(x, v, last);
                let k = key_pos(s0, e);
                assert(s0[k].0 == e);
                assert(g0.contains_node(s0[k].0.source));
                assert(g0.contains_node(s0[k].0.target));
            }
        }
        proof {
            assert(self.wf());
        }
        let ghost ga = *self;
        let mut old_par: Vec<(Edge, EdgeLabel)> = Vec::new();
        std::mem::swap(&mut old_par, &mut self.parallel);
        let ghost p0 = old_par@;
        let len = old_par.len();
        let mut i: usize = 0;
        proof {
            assert(p0.subrange(0, len as int) =~= p0);
            assert(p0.take(0) =~= Seq::<(Edge, EdgeLabel)>::empty());
        }
        while i < len
            invariant
                p0 == g0.parallel_edges(),
                len == p0.len(),
                i <= len,
                old_par@ == p0.subrange(i as int, len as int),
                self.parallel@ == kept_parallel(p0.take(i as int), v, last),
                ga.wf(),
                self.entries() == ga.entries(),
                self.node_seq() == ga.node_seq(),
                self.id() == ga.id(),
                self.config_spec() == ga.config_spec(),
                self.dummy_heads() == ga.dummy_heads(),
            decreases len - i,
        {
            let (x, l) = old_par.remove(0);
            proof {
                assert(x == p0[i as int].0);
                assert(p0.take(i + 1).drop_last() =~= p0.take(i as int));
                assert(p0.take(i + 1).last() == p0[i as int]);
            }
            if x.source != v && x.target != v {
                let y = Edge {
                    source: if x.source == last { v } else { x.source },
                    target: if x.target == last { v } else { x.target },
                };
                self.parallel.push((y, l));
            }
            i += 1;
            proof {
                assert(old_par@ =~= p0.subrange(i as int, len as int));
            }
        }
        proof {
            assert(p0.take(len as int) =~= p0);
            assert forall|i: int| 0 <= i < self.entries().len() implies self.contains_node(#[trigger] self.entries()[i].0.source)
                && self.contains_node(self.entries()[i].0.target) by {
                assert(ga.contains_node(ga.entries()[i].0.source));
                assert(ga.contains_node(ga.entries()[i].0.target));
            }
            assert(self.wf());
        }
        Some(label)
    }

    /// The nodes whose parent is `parent`, in node order.
    pub fn children(&self, parent: NodeIndex) -> (r: Vec<NodeIndex>)
        requires
            parent.which_graph == self.id(),
        ensures
            r@ == self.children_spec(parent, self.n() as int),
    {
        let mut r: Vec<NodeIndex> = Vec::new();
        let n = self.nodes.len();
        let mut i: usize = 0;
        while i < n
            invariant
                n == self.n(),
                i <= n,
                r@ == self.children_spec(parent, i as int),
            decreases n - i,
        {
            if self.nodes[i].parent == Some(parent) {
                r.push(NodeIndex { node_index: i, which_graph: self.graph_id });
            }
            i += 1;
        }
        r
    }

    /// The children of `parent` among the first `k` nodes, in node order.
    pub open spec fn children_spec(&self, parent: NodeIndex, k: int) -> Seq<NodeIndex>
        decreases k,
    {
        if k <= 0 {
            Seq::empty()
        } else {
            let rest = self.children_spec(parent, k - 1);
            if self.node_seq()[k - 1].parent == Some(parent) {
                rest.push(self.node_at(k - 1))
            } else {
                rest
            }
        }
    }

    /// Makes `parent` the parent of `child` (when `child` is a node).
    pub fn set_parent(&mut self, child: NodeIndex, parent: NodeIndex)
        requires
            child.which_graph == old(self).id(),
            parent.which_graph == old(self).id(),
        ensures
            old(self).contains_node(child) ==> final(self).node_seq() == old(self).node_seq().update(
                child.node_index as int,
                NodeLabel { parent: Some(parent), ..old(self).label_of(child) },
            ),
            !old(self).contains_node(child) ==> final(self).node_seq() == old(self).node_seq(),
            final(self).entries() == old(self).entries(),
            final(self).id() == old(self).id(),
            final(self).config_spec() == old(self).config_spec(),
            final(self).dummy_heads() == old(self).dummy_heads(),
            final(self).parallel_edges() == old(self).parallel_edges(),
    {
        if let Some(label) = self.node_label_mut(child) {
            label.parent = Some(parent);
        }
    }

    /// The parent of `child`, if `child` is a node and has one.
    pub fn parent(&self, child: NodeIndex) -> (r: Option<NodeIndex>)
        requires
            child.which_graph == self.id(),
        ensures
            self.contains_node(child) ==> r == self.label_of(child).parent,
            !self.contains_node(child) ==> r is None,
    {
        match self.node_label(child) {
            Some(l) => l.parent,
            None => None,
        }
    }

}

/// In a map with unique keys, the entry at `p` with key `k` is the one
/// `key_pos` names.
pub proof fn lemma_key_pos_unique<V>(s: Seq<(Edge, V)>, k: Edge, p: int)
    requires
        keys_unique(s),
        0 <= p < s.len(),
        s[p].0 == k,
    ensures
        has_key(s, k),
        key_pos(s, k) == p,
{
    assert(has_key(s, k));
    let q = key_pos(s, k);
    assert(s[q].0 == k);
    if q != p {
        assert(s[p].0 != s[q].0);
    }
}

/// Giving edge `e` a new label keeps the graph well formed and changes
/// the label of `e` alone.
pub proof fn lemma_relabel_edge(g0: &Graph, g1: &Graph, e: Edge, l: EdgeLabel)
    requires
        g0.wf(),
        g0.has_edge_spec(e),
        g1.entries() == g0.entries().update(key_pos(g0.entries(), e), (e, l)),
        g1.n() == g0.n(),
        g1.id() == g0.id(),
    ensures
        g1.wf(),
        forall|x: Edge| #[trigger] g1.has_edge_spec(x) == g0.has_edge_spec(x),
        g1.edge_label_spec(e) == l,
        forall|x: Edge| x != e && g0.has_edge_spec(x) ==> #[trigger] g1.edge_label_spec(x) == g0.edge_label_spec(x),
        g1.edge_seq() == g0.edge_seq(),
{
    let s = g0.entries();
    let t = g1.entries();
    let p = key_pos(s, e);
    assert(s[p].0 == e);
    assert forall|a: int, b: int| #![trigger t[a], t[b]] 0 <= a < t.len() && 0 <= b < t.len() && a != b implies t[a].0 != t[b].0 by {
        assert(s[a].0 != s[b].0);
    }
    assert forall|q: int| 0 <= q < t.len() implies g1.contains_node(#[trigger] t[q].0.source) && g1.contains_node(t[q].0.target) by {
        assert(g0.contains_node(s[q].0.source));
        assert(g0.contains_node(s[q].0.target));
    }
    assert forall|x: Edge| #[trigger] g1.has_edge_spec(x) == g0.has_edge_spec(x) by {
        if has_key(s, x) {
            let i = choose|i: int| 0 <= i < s.len() && #[trigger] s[i].0 == x;
            assert(t[i].0 == x);
        }
        if has_key(t, x) {
            let i = choose|i: int| 0 <= i < t.len() && #[trigger] t[i].0 == x;
            assert(s[i].0 == x);
        }
    }
    lemma_key_pos_unique(t, e, p);
    assert forall|x: Edge| x != e && g0.has_edge_spec(x) implies #[trigger] g1.edge_label_spec(x) == g0.edge_label_spec(x) by {
        let i = key_pos(s, x);
        assert(s[i].0 == x);
        assert(t[i].0 == x);
        lemma_key_pos_unique(t, x, i);
    }
    assert(g1.edge_seq() =~= g0.edge_seq());
}

/// Removing edge `e` leaves every other edge, with its label.
pub proof fn lemma_remove_keeps_others(g0: &Graph, g1: &Graph, e: Edge, x: Edge)
    requires
        g0.wf(),
        g1.wf(),
        g0.has_edge_spec(e),
        g1.entries() == g0.entries().update(key_pos(g0.entries(), e), g0.entries().last()).drop_last(),
        x != e,
    ensures
        g1.has_edge_spec(x) == g0.has_edge_spec(x),
        g0.has_edge_spec(x) ==> g1.edge_label_spec(x) == g0.edge_label_spec(x),
{
    let s = g0.entries();
    let t = g1.entries();
    let p = key_pos(s, e);
    assert(s[p].0 == e);
    if g0.has_edge_spec(x) {
        let i = key_pos(s, x);
        assert(s[i].0 == x);
        assert(i != p);
        if i == s.len() - 1 {
            assert(t[p] == s[i]);
            lemma_key_pos_unique(t, x, p);
        } else {
            assert(t[i] == s[i]);
            lemma_key_pos_unique(t, x, i);
        }
    }
    if g1.has_edge_spec(x) {
        let j = key_pos(t, x);
        assert(t[j].0 == x);
        if j == p {
            assert(s[s.len() - 1].0 == x);
        } else {
            assert(s[j].0 == x);
        }
    }
}

/// Adding edge `e` leaves every other edge, with its label.
pub proof fn lemma_add_keeps_others(g0: &Graph, g1: &Graph, e: Edge, label: EdgeLabel, x: Edge)
    requires
        g0.wf(),
        g1.wf(),
        g0.has_edge_spec(e) ==> g1.entries() == g0.entries().update(key_pos(g0.entries(), e), (e, label)),
        !g0.has_edge_spec(e) ==> g1.entries() == g0.entries().push((e, label)),
        x != e,
    ensures
        g1.has_edge_spec(x) == g0.has_edge_spec(x),
        g0.has_edge_spec(x) ==> g1.edge_label_spec(x) == g0.edge_label_spec(x),
{
    let s = g0.entries();
    let t = g1.entries();
    if g0.has_edge_spec(x) {
        let i = key_pos(s, x);
        assert(s[i].0 == x);
        if g0.has_edge_spec(e) {
            assert(i != key_pos(s, e));
        }
        assert(t[i] == s[i]);
        lemma_key_pos_unique(t, x, i);
    }
    if g1.has_edge_spec(x) {
        let j = key_pos(t, x);
        assert(t[j].0 == x);
        if g0.has_edge_spec(e) {
            assert(s[j].0 == x);
        } else {
            assert(j < s.len());
            assert(s[j].0 == x);
        }
    }
}

/// Changing node labels keeps a graph well formed.
pub proof fn lemma_wf_same_shape(ga: &Graph, gb: &Graph)
    requires
        ga.wf(),
        gb.entries() == ga.entries(),
        gb.n() == ga.n(),
        gb.id() == ga.id(),
    ensures
        gb.wf(),
{
    assert forall|i: int| 0 <= i < gb.entries().len() implies gb.contains_node(#[trigger] gb.entries()[i].0.source)
        && gb.contains_node(gb.entries()[i].0.target) by {
        assert(ga.contains_node(ga.entries()[i].0.source));
        assert(ga.contains_node(ga.entries()[i].0.target));
    }
}

/// Adding an edge that was not there and then removing it gives back the
/// edges of the graph, in the same order and with the same labels.
pub proof fn lemma_add_then_remove_edge(g0: &Graph, g1: &Graph, g2: &Graph, e: Edge, l: EdgeLabel)
    requires
        g0.wf(),
        g1.wf(),
        !g0.has_edge_spec(e),
        g1.entries() == g0.entries().push((e, l)),
        g2.entries() == g1.entries().update(key_pos(g1.entries(), e), g1.entries().last()).drop_last(),
    ensures
        g2.entries() == g0.entries(),
        g2.edge_view() == g0.edge_view(),
{
    let t = g1.entries();
    let p = t.len() - 1;
    assert(t[p].0 == e);
    lemma_key_pos_unique(t, e, p);
    assert(g2.entries() =~= g0.entries());
}

/// Hands out the id held by the graph id counter `next_id` and advances
/// the counter by one, wrapping after `u32::MAX` as an atomic `fetch_add`
/// does.
pub fn get_next_graph_id(next_id: &mut u32) -> (r: u32)
    ensures
        r == *old(next_id),
        *final(next_id) == crate::counters::bump(*old(next_id)),
{
    let r = *next_id;
    *next_id = r.wrapping_add(1);
    r
}

} // verus!
