//! The nesting root that ties every node to one source while ranking, and
//! the removal of the nodes the layout inserted of a given kind.
use vstd::prelude::*;
use crate::graph::{Graph, incident_to, rename_end};
use crate::types::{Dummy, Edge, EdgeLabel, NodeIndex, NodeLabel};

verus! {

/// The label of a nesting root: kind `Root`, every other attribute unset.
pub open spec fn is_root_label(l: NodeLabel) -> bool {
    &&& l.dummy == Some(Dummy::Root)
    &&& (NodeLabel { dummy: None, ..l }).is_default()
}

/// `gb` is `ga` with a new root node of kind `Root` and an edge with the
/// default attributes from it to every earlier node, in node order.
pub open spec fn nested(ga: &Graph, gb: &Graph, root: NodeIndex) -> bool {
    &&& gb.wf()
    &&& gb.id() == ga.id()
    &&& gb.config_spec() == ga.config_spec()
    &&& root == ga.node_at(ga.n() as int)
    &&& gb.n() == ga.n() + 1
    &&& forall|i: int| 0 <= i < ga.n() ==> #[trigger] gb.node_seq()[i] == ga.node_seq()[i]
    &&& is_root_label(gb.node_seq()[ga.n() as int])
    &&& gb.entries().len() == ga.entries().len() + ga.n()
    &&& forall|k: int| 0 <= k < ga.entries().len() ==> #[trigger] gb.entries()[k] == ga.entries()[k]
    &&& forall|i: int|
        0 <= i < ga.n() ==> {
            let p = #[trigger] gb.entries()[ga.entries().len() + i];
            &&& p.0 == Edge { source: root, target: ga.node_at(i) }
            &&& p.1.is_default()
        }
}

/// Adds the nesting root: a node of kind `Root` with an edge from it to
/// every other node. Returns the root.
pub fn nesting_graph_run(graph: &mut Graph) -> (root: NodeIndex)
    requires
        old(graph).wf(),
        old(graph).n() + 1 < usize::MAX,
    ensures
        nested(&*old(graph), &*final(graph), root),
{
    let ghost g0 = *graph;
    let mut root_label = NodeLabel::default();
    root_label.dummy = Some(Dummy::Root);
    let root = graph.add_node(root_label);
    let nodes = graph.node_indices();
    let mut i: usize = 0;
    while i < nodes.len()
        invariant
            g0.wf(),
            graph.wf(),
            graph.id() == g0.id(),
            graph.config_spec() == g0.config_spec(),
            root == g0.node_at(g0.n() as int),
            graph.n() == g0.n() + 1,
            nodes@.len() == g0.n() + 1,
            forall|k: int| 0 <= k < graph.n() ==> #[trigger] nodes@[k] == graph.node_at(k),
            forall|k: int| 0 <= k < g0.n() ==> #[trigger] graph.node_seq()[k] == g0.node_seq()[k],
            is_root_label(graph.node_seq()[g0.n() as int]),
            i <= g0.n() + 1,
            graph.entries().len() == g0.entries().len() + (if i <= g0.n() { i as int } else { g0.n() as int }),
            forall|k: int| 0 <= k < g0.entries().len() ==> #[trigger] graph.entries()[k] == g0.entries()[k],
            forall|j: int|
                0 <= j < i && j < g0.n() ==> {
                    let p = #[trigger] graph.entries()[g0.entries().len() + j];
                    &&& p.0 == Edge { source: root, target: g0.node_at(j) }
                    &&& p.1.is_default()
                },
        decreases g0.n() + 1 - i,
    {
        let v = nodes[i];
        if v != root {
            proof {
                assert(i < g0.n());
                assert(!graph.has_edge_spec(Edge { source: root, target: v })) by {
                    if graph.has_edge_spec(Edge { source: root, target: v }) {
                        let q = choose|q: int| 0 <= q < graph.entries().len() && #[trigger] graph.entries()[q].0 == Edge { source: root, target: v };
                        if q < g0.entries().len() {
                            assert(graph.entries()[q] == g0.entries()[q]);
                            assert(g0.contains_node(g0.entries()[q].0.source));
                        } else {
                            let j = q - g0.entries().len();
                            assert(graph.entries()[g0.entries().len() + j].0.target == g0.node_at(j));
                        }
                    }
                }
            }
            let ghost gb = *graph;
            graph.add_edge(Edge::new(root, v), EdgeLabel::default());
            proof {
                assert forall|k: int| 0 <= k < g0.entries().len() implies #[trigger] graph.entries()[k] == g0.entries()[k] by {
                    assert(graph.entries()[k] == gb.entries()[k]);
                }
                assert forall|j: int| 0 <= j < i + 1 && j < g0.n() implies {
                    let p = #[trigger] graph.entries()[g0.entries().len() + j];
                    &&& p.0 == Edge { source: root, target: g0.node_at(j) }
                    &&& p.1.is_default()
                } by {
                    if j < i {
                        assert(graph.entries()[g0.entries().len() + j] == gb.entries()[g0.entries().len() + j]);
                    }
                }
            }
        } else {
            proof {
                assert(i == g0.n());
            }
        }
        i += 1;
    }
    root
}

/// The nodes at positions below `k` of kind `kind`, in order.
pub open spec fn kind_positions(g: &Graph, kind: Dummy, k: int) -> Seq<NodeIndex>
    decreases k,
{
    if k <= 0 {
        Seq::empty()
    } else if g.node_seq()[k - 1].dummy == Some(kind) {
        kind_positions(g, kind, k - 1).push(g.node_at(k - 1))
    } else {
        kind_positions(g, kind, k - 1)
    }
}

/// The nodes of kind `kind`, in order.
pub open spec fn nodes_of_kind(g: &Graph, kind: Dummy) -> Seq<NodeIndex> {
    kind_positions(g, kind, g.n() as int)
}

/// The nodes of kind `kind`, in order.
pub fn dummy_nodes(graph: &Graph, kind: Dummy) -> (r: Vec<NodeIndex>)
    ensures
        r@ == nodes_of_kind(graph, kind),
{
    let nodes = graph.node_indices();
    let mut r: Vec<NodeIndex> = Vec::new();
    let mut i: usize = 0;
    while i < nodes.len()
        invariant
            nodes@.len() == graph.n(),
            forall|k: int| 0 <= k < graph.n() ==> #[trigger] nodes@[k] == graph.node_at(k),
            i <= graph.n(),
            r@ == kind_positions(graph, kind, i as int),
        decreases graph.n() - i,
    {
        let v = nodes[i];
        if graph.node_label(v).unwrap().dummy == Some(kind) {
            r.push(v);
        }
        i += 1;
    }
    r
}

/// `gb` is `ga` after `remove_node(v)`: unchanged when `v` is no node,
/// else with the last node in the place of `v` and the edges of `v` gone.
pub open spec fn node_removed(ga: &Graph, gb: &Graph, v: NodeIndex) -> bool {
    &&& ga.wf()
    &&& v.which_graph == ga.id()
    &&& gb.wf()
    &&& gb.id() == ga.id()
    &&& gb.config_spec() == ga.config_spec()
    &&& !ga.contains_node(v) ==> gb.node_seq() == ga.node_seq() && gb.entries() == ga.entries()
    &&& ga.contains_node(v) ==> {
        let last = ga.node_at(ga.n() - 1);
        &&& gb.n() == ga.n() - 1
        &&& forall|i: int| 0 <= i < gb.n() ==> #[trigger] gb.node_seq()[i] == if i == v.node_index {
            ga.node_seq()[ga.n() - 1]
        } else {
            ga.node_seq()[i]
        }
        &&& gb.edge_view() == Map::new(
            |x: Edge| !incident_to(x, last) && ga.has_edge_spec(rename_end(x, v, last)),
            |x: Edge| ga.edge_label_spec(rename_end(x, v, last)),
        )
    }
}

/// `gs` are the graphs after removing the first `k` nodes of `vs` in
/// turn.
pub open spec fn removal_trace(gs: Seq<Graph>, vs: Seq<NodeIndex>, k: int) -> bool {
    &&& 0 <= k <= vs.len()
    &&& gs.len() == k + 1
    &&& forall|j: int| 0 <= j < k ==> #[trigger] node_removed(&gs[j], &gs[j + 1], vs[j])
}

/// Removes, one after the other, the nodes that were of kind `kind` when
/// the call began, by the indices they had then.
fn remove_dummies(graph: &mut Graph, kind: Dummy) -> (r: Ghost<Seq<Graph>>)
    requires
        old(graph).wf(),
    ensures
        ({
            let gs = r@;
            &&& removal_trace(gs, nodes_of_kind(&*old(graph), kind), nodes_of_kind(&*old(graph), kind).len() as int)
            &&& gs[0] == *old(graph)
            &&& gs.last() == *final(graph)
        }),
{
    let ghost g0 = *graph;
    let vs = dummy_nodes(graph, kind);
    proof {
        lemma_kind_positions(graph, kind, graph.n() as int);
    }
    let ghost mut gs: Seq<Graph> = seq![*graph];
    let mut k: usize = 0;
    while k < vs.len()
        invariant
            vs@ == nodes_of_kind(&g0, kind),
            forall|j: int| 0 <= j < vs@.len() ==> (#[trigger] vs@[j]).which_graph == g0.id(),
            k <= vs@.len(),
            removal_trace(gs, vs@, k as int),
            gs[0] == g0,
            gs[k as int] == *graph,
            graph.wf(),
            graph.id() == g0.id(),
        decreases vs@.len() - k,
    {
        let ghost ga = *graph;
        graph.remove_node(vs[k]);
        proof {
            let gs1 = gs.push(*graph);
            assert(gs1[k as int] == ga);
            assert(node_removed(&gs1[k as int], &gs1[k + 1], vs@[k as int]));
            assert forall|j: int| 0 <= j < k + 1 implies #[trigger] node_removed(&gs1[j], &gs1[j + 1], vs@[j]) by {
                if j < k {
                    assert(gs1[j] == gs[j] && gs1[j + 1] == gs[j + 1]);
                    assert(node_removed(&gs[j], &gs[j + 1], vs@[j]));
                }
            }
            gs = gs1;
        }
        k += 1;
    }
    Ghost(gs)
}

/// The nodes listed are nodes of `g`, of kind `kind`, in increasing order.
proof fn lemma_kind_positions(g: &Graph, kind: Dummy, k: int)
    requires
        0 <= k <= g.n(),
        g.n() <= usize::MAX,
    ensures
        forall|j: int| 0 <= j < kind_positions(g, kind, k).len() ==> {
            let v = #[trigger] kind_positions(g, kind, k)[j];
            &&& v.which_graph == g.id()
            &&& v.node_index < k
        },
    decreases k,
{
    if k > 0 {
        lemma_kind_positions(g, kind, k - 1);
        let s = kind_positions(g, kind, k - 1);
        if g.node_seq()[k - 1].dummy == Some(kind) {
            let t = s.push(g.node_at(k - 1));
            assert forall|j: int| 0 <= j < t.len() implies {
                let v = #[trigger] t[j];
                &&& v.which_graph == g.id()
                &&& v.node_index < k
            } by {
                if j < s.len() {
                    assert(t[j] == s[j]);
                }
            }
        }
    }
}

/// Removes the nesting root(s): the nodes of kind `Root`, one after the
/// other, by the indices they had when the call began.
pub fn nesting_graph_cleanup(graph: &mut Graph)
    requires
        old(graph).wf(),
    ensures
        exists|gs: Seq<Graph>|
            #[trigger] removal_trace(gs, nodes_of_kind(&*old(graph), Dummy::Root), nodes_of_kind(&*old(graph), Dummy::Root).len() as int)
                && gs[0] == *old(graph) && gs.last() == *final(graph),
{
    let ghost g0 = *graph;
    let r = remove_dummies(graph, Dummy::Root);
    proof {
        assert(removal_trace(r@, nodes_of_kind(&g0, Dummy::Root), nodes_of_kind(&g0, Dummy::Root).len() as int));
    }
}

/// Removes the edge label proxies: the nodes of kind `EdgeProxy`, one
/// after the other, by the indices they had when the call began.
pub fn remove_edge_label_proxies(graph: &mut Graph)
    requires
        old(graph).wf(),
    ensures
        exists|gs: Seq<Graph>|
            #[trigger] removal_trace(gs, nodes_of_kind(&*old(graph), Dummy::EdgeProxy), nodes_of_kind(&*old(graph), Dummy::EdgeProxy).len() as int)
                && gs[0] == *old(graph) && gs.last() == *final(graph),
{
    let ghost g0 = *graph;
    let r = remove_dummies(graph, Dummy::EdgeProxy);
    proof {
        assert(removal_trace(r@, nodes_of_kind(&g0, Dummy::EdgeProxy), nodes_of_kind(&g0, Dummy::EdgeProxy).len() as int));
    }
}

} // verus!
