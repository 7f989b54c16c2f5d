//! The graph of the nodes of one rank, which the ordering sweeps sort.
use vstd::prelude::*;
use indexmap::IndexMap;
use vstd::string::StringSliceAdditionalSpecFns;
use crate::graph::{incident, Graph};
use crate::index_map::{has_key, inserted, key_pos, node_map_get, node_map_get_index, node_map_insert, node_map_len, node_map_new, node_pair_entries};
use crate::types::{copy_edge_label, copy_label, same_attrs, Edge, EdgeLabel, NodeIndex};

verus! {

/// The nodes of one rank copied into a graph of their own, with the node
/// of the layer graph that stands for each of them.
pub struct LayerGraph {
    pub graph: Graph,
    pub node_mapping: IndexMap<NodeIndex, NodeIndex>,
}

/// The nodes at positions below `k` whose rank is `r`, in order.
pub open spec fn rank_positions(g: &Graph, r: i32, k: int) -> Seq<NodeIndex>
    decreases k,
{
    if k <= 0 {
        Seq::empty()
    } else if g.node_seq()[k - 1].rank == Some(r) {
        rank_positions(g, r, k - 1).push(g.node_at(k - 1))
    } else {
        rank_positions(g, r, k - 1)
    }
}

/// The nodes of rank `r`, in order.
pub open spec fn nodes_of_rank(g: &Graph, r: i32) -> Seq<NodeIndex> {
    rank_positions(g, r, g.n() as int)
}

/// The nodes listed below `k` are nodes of rank `r` below `k`, each once.
pub proof fn lemma_rank_positions(g: &Graph, r: i32, k: int)
    requires
        g.wf(),
        0 <= k <= g.n(),
    ensures
        forall|j: int| 0 <= j < rank_positions(g, r, k).len() ==> {
            let v = #[trigger] rank_positions(g, r, k)[j];
            &&& g.contains_node(v)
            &&& v.node_index < k
            &&& g.label_of(v).rank == Some(r)
        },
        forall|a: int, b: int| 0 <= a < b < rank_positions(g, r, k).len() ==>
            (#[trigger] rank_positions(g, r, k)[a]).node_index < (#[trigger] rank_positions(g, r, k)[b]).node_index,
        rank_positions(g, r, k).len() <= k,
    decreases k,
{
    if k > 0 {
        lemma_rank_positions(g, r, k - 1);
        let s = rank_positions(g, r, k - 1);
        if g.node_seq()[k - 1].rank == Some(r) {
            let t = s.push(g.node_at(k - 1));
            assert forall|j: int| 0 <= j < t.len() implies {
                let v = #[trigger] t[j];
                &&& g.contains_node(v)
                &&& v.node_index < k
                &&& g.label_of(v).rank == Some(r)
            } by {
                if j < s.len() {
                    assert(t[j] == s[j]);
                }
            }
            assert forall|a: int, b: int| 0 <= a < b < t.len() implies (#[trigger] t[a]).node_index < (#[trigger] t[b]).node_index by {
                assert(t[a] == s[a]);
                if b < s.len() {
                    assert(t[b] == s[b]);
                }
            }
        }
    }
}

/// The nodes of rank `rank`, in node order.
pub(crate) fn rank_nodes(graph: &Graph, rank: i32) -> (r: Vec<NodeIndex>)
    requires
        graph.wf(),
    ensures
        r@ == nodes_of_rank(graph, rank),
{
    let nodes = graph.node_indices();
    let mut r: Vec<NodeIndex> = Vec::new();
    let mut i: usize = 0;
    while i < nodes.len()
        invariant
            graph.wf(),
            nodes@.len() == graph.n(),
            forall|k: int| 0 <= k < graph.n() ==> #[trigger] nodes@[k] == graph.node_at(k),
            i <= graph.n(),
            r@ == rank_positions(graph, rank, i as int),
        decreases graph.n() - i,
    {
        let v = nodes[i];
        if graph.node_label(v).unwrap().rank == Some(rank) {
            r.push(v);
        }
        i += 1;
    }
    r
}

/// `g` holds copies of the labels of `src`'s nodes `sel`, in order.
pub open spec fn copies_of(g: &Graph, src: &Graph, sel: Seq<NodeIndex>) -> bool {
    &&& g.n() == sel.len()
    &&& forall|j: int| 0 <= j < sel.len() ==> same_attrs(#[trigger] g.node_seq()[j], src.label_of(sel[j]))
}

/// Every key of the map is a node of `g` of rank `r`.
pub open spec fn keys_of_rank(g: &Graph, m: Seq<(NodeIndex, NodeIndex)>, r: i32) -> bool {
    forall|i: int| 0 <= i < m.len() ==> {
        let v = (#[trigger] m[i]).0;
        g.contains_node(v) && g.label_of(v).rank == Some(r)
    }
}

/// For every mapped node, the edges into it from mapped nodes one rank
/// above, joined in the layer graph. No mapped node is one rank above
/// another, since all have rank `rank`, so the layer graph stays as it is.
fn add_in_edges_to_layer_graph(
    graph: &Graph,
    layer_graph: &mut Graph,
    node_mapping: &IndexMap<NodeIndex, NodeIndex>,
    rank: i32,
)
    requires
        graph.wf(),
        old(layer_graph).wf(),
        keys_of_rank(graph, node_pair_entries(*node_mapping), rank),
    ensures
        *final(layer_graph) == *old(layer_graph),
{
    let mut edges_to_add: Vec<(Edge, EdgeLabel)> = Vec::new();
    let n = node_map_len(node_mapping);
    let ghost m = node_pair_entries(*node_mapping);
    let mut i: usize = 0;
    while i < n
        invariant
            graph.wf(),
            n == m.len(),
            m == node_pair_entries(*node_mapping),
            keys_of_rank(graph, m, rank),
            i <= n,
            edges_to_add@.len() == 0,
        decreases n - i,
    {
        let (orig, layer_id) = node_map_get_index(node_mapping, i).unwrap();
        proof {
            assert(m[i as int].0 == orig);
        }
        let ins = graph.in_edges(orig);
        let mut j: usize = 0;
        while j < ins.len()
            invariant
                graph.wf(),
                m == node_pair_entries(*node_mapping),
                keys_of_rank(graph, m, rank),
                j <= ins@.len(),
                edges_to_add@.len() == 0,
            decreases ins@.len() - j,
        {
            let edge = ins[j];
            if edge.source.which_graph == graph.graph_id() {
                if let Some(sl) = graph.node_label(edge.source) {
                    if let Some(sr) = sl.rank {
                        if (sr as i64) == (rank as i64) - 1 {
                            if let Some(source_layer_id) = node_map_get(node_mapping, &edge.source) {
                                proof {
                                    let p = key_pos(m, edge.source);
                                    assert(m[p].0 == edge.source);
                                    assert(graph.label_of(edge.source).rank == Some(rank));
                                    assert(false);
                                }
                                if let Some(el) = graph.edge_label(&edge) {
                                    edges_to_add.push((Edge::new(source_layer_id, layer_id), copy_edge_label(el)));
                                }
                            }
                        }
                    }
                }
            }
            j += 1;
        }
        i += 1;
    }
    let mut k: usize = 0;
    while k < edges_to_add.len()
        invariant
            edges_to_add@.len() == 0,
        decreases edges_to_add@.len() - k,
    {
        k += 1;
    }
}

/// For every mapped node, the edges out of it to mapped nodes one rank
/// below, joined in the layer graph; as with the in-edges, there are none.
fn add_out_edges_to_layer_graph(
    graph: &Graph,
    layer_graph: &mut Graph,
    node_mapping: &IndexMap<NodeIndex, NodeIndex>,
    rank: i32,
)
    requires
        graph.wf(),
        old(layer_graph).wf(),
        keys_of_rank(graph, node_pair_entries(*node_mapping), rank),
    ensures
        *final(layer_graph) == *old(layer_graph),
{
    let mut edges_to_add: Vec<(Edge, EdgeLabel)> = Vec::new();
    let n = node_map_len(node_mapping);
    let ghost m = node_pair_entries(*node_mapping);
    let mut i: usize = 0;
    while i < n
        invariant
            graph.wf(),
            n == m.len(),
            m == node_pair_entries(*node_mapping),
            keys_of_rank(graph, m, rank),
            i <= n,
            edges_to_add@.len() == 0,
        decreases n - i,
    {
        let (orig, layer_id) = node_map_get_index(node_mapping, i).unwrap();
        proof {
            assert(m[i as int].0 == orig);
        }
        let outs = graph.out_edges(orig);
        let mut j: usize = 0;
        while j < outs.len()
            invariant
                graph.wf(),
                m == node_pair_entries(*node_mapping),
                keys_of_rank(graph, m, rank),
                j <= outs@.len(),
                edges_to_add@.len() == 0,
            decreases outs@.len() - j,
        {
            let edge = outs[j];
            if edge.target.which_graph == graph.graph_id() {
                if let Some(tl) = graph.node_label(edge.target) {
                    if let Some(tr) = tl.rank {
                        if (tr as i64) == (rank as i64) + 1 {
                            if let Some(target_layer_id) = node_map_get(node_mapping, &edge.target) {
                                proof {
                                    let p = key_pos(m, edge.target);
                                    assert(m[p].0 == edge.target);
                                    assert(graph.label_of(edge.target).rank == Some(rank));
                                    assert(false);
                                }
                                if let Some(el) = graph.edge_label(&edge) {
                                    edges_to_add.push((Edge::new(layer_id, target_layer_id), copy_edge_label(el)));
                                }
                            }
                        }
                    }
                }
            }
            j += 1;
        }
        i += 1;
    }
    let mut k: usize = 0;
    while k < edges_to_add.len()
        invariant
            edges_to_add@.len() == 0,
        decreases edges_to_add@.len() - k,
    {
        k += 1;
    }
}

/// Both the in-edges and the out-edges of the mapped nodes; there are
/// none to add.
fn add_all_edges_to_layer_graph(
    graph: &Graph,
    layer_graph: &mut Graph,
    node_mapping: &IndexMap<NodeIndex, NodeIndex>,
    rank: i32,
)
    requires
        graph.wf(),
        old(layer_graph).wf(),
        keys_of_rank(graph, node_pair_entries(*node_mapping), rank),
    ensures
        *final(layer_graph) == *old(layer_graph),
{
    add_in_edges_to_layer_graph(graph, layer_graph, node_mapping, rank);
    add_out_edges_to_layer_graph(graph, layer_graph, node_mapping, rank);
}

/// The two strings hold the same bytes.
fn same_text(a: &str, b: &str) -> (r: bool)
    ensures
        r == (a.spec_bytes() == b.spec_bytes()),
{
    let x = a.as_bytes();
    let y = b.as_bytes();
    if x.len() != y.len() {
        return false;
    }
    let mut i: usize = 0;
    while i < x.len()
        invariant
            x@ == a.spec_bytes(),
            y@ == b.spec_bytes(),
            x@.len() == y@.len(),
            i <= x@.len(),
            forall|k: int| 0 <= k < i ==> x@[k] == y@[k],
        decreases x@.len() - i,
    {
        if x[i] != y[i] {
            return false;
        }
        i += 1;
    }
    proof {
        assert(x@ =~= y@);
    }
    true
}

/// The layer graph of rank `rank`, with id `graph_id`: a copy of the label
/// of every node of that rank, in node order, and the map from each such
/// node to its copy. The edges it would take in (`"in_edges"`), out
/// (`"out_edges"`) or both (otherwise) join nodes one rank apart, and the
/// layer graph holds a single rank, so it has none.
pub fn build_layer_graph(graph: &Graph, rank: i32, relationship: &str, graph_id: u32) -> (r: LayerGraph)
    requires
        graph.wf(),
    ensures
        r.graph.wf(),
        r.graph.id() == graph_id,
        r.graph.entries().len() == 0,
        copies_of(&r.graph, graph, nodes_of_rank(graph, rank)),
        node_pair_entries(r.node_mapping) == Seq::new(
            nodes_of_rank(graph, rank).len(),
            |j: int| (nodes_of_rank(graph, rank)[j], r.graph.node_at(j)),
        ),
{
    let mut layer_graph = Graph::new(graph_id);
    let mut node_mapping = node_map_new();
    let nodes = graph.node_indices();
    let mut i: usize = 0;
    while i < nodes.len()
        invariant
            graph.wf(),
            nodes@.len() == graph.n(),
            forall|k: int| 0 <= k < graph.n() ==> #[trigger] nodes@[k] == graph.node_at(k),
            i <= graph.n(),
            layer_graph.wf(),
            layer_graph.id() == graph_id,
            layer_graph.entries().len() == 0,
            copies_of(&layer_graph, graph, rank_positions(graph, rank, i as int)),
            node_pair_entries(node_mapping) == Seq::new(
                rank_positions(graph, rank, i as int).len(),
                |j: int| (rank_positions(graph, rank, i as int)[j], layer_graph.node_at(j)),
            ),
        decreases graph.n() - i,
    {
        let v = nodes[i];
        proof {
            lemma_rank_positions(graph, rank, i as int);
        }
        let label = graph.node_label(v).unwrap();
        if label.rank == Some(rank) {
            let ghost before = rank_positions(graph, rank, i as int);
            let ghost m0 = node_pair_entries(node_mapping);
            let w = layer_graph.add_node(copy_label(label));
            proof {
                assert(!has_key(m0, v)) by {
                    if has_key(m0, v) {
                        let p = choose|p: int| 0 <= p < m0.len() && #[trigger] m0[p].0 == v;
                        assert(before[p].node_index < i);
                    }
                }
            }
            node_map_insert(&mut node_mapping, v, w);
            proof {
                let after = rank_positions(graph, rank, i + 1);
                assert(after == before.push(v));
                assert forall|j: int| 0 <= j < after.len() implies same_attrs(#[trigger] layer_graph.node_seq()[j], graph.label_of(after[j])) by {
                    if j < before.len() {
                        assert(layer_graph.node_seq()[j] == layer_graph.node_seq()[j]);
                    }
                }
                assert(node_pair_entries(node_mapping) =~= Seq::new(after.len(), |j: int| (after[j], layer_graph.node_at(j))));
            }
        }
        i += 1;
    }
    proof {
        lemma_rank_positions(graph, rank, graph.n() as int);
        let m = node_pair_entries(node_mapping);
        assert forall|i: int| 0 <= i < m.len() implies {
            let v = (#[trigger] m[i]).0;
            graph.contains_node(v) && graph.label_of(v).rank == Some(rank)
        } by {
            assert(m[i].0 == nodes_of_rank(graph, rank)[i]);
        }
    }
    if same_text(relationship, "in_edges") {
        add_in_edges_to_layer_graph(graph, &mut layer_graph, &node_mapping, rank);
    } else if same_text(relationship, "out_edges") {
        add_out_edges_to_layer_graph(graph, &mut layer_graph, &node_mapping, rank);
    } else {
        add_all_edges_to_layer_graph(graph, &mut layer_graph, &node_mapping, rank);
    }
    LayerGraph { graph: layer_graph, node_mapping }
}

/// A graph with id `graph_id` holding a copy of the label of every node of
/// rank `rank`, in node order, and no edges.
pub fn build_simple_layer_graph(graph: &Graph, rank: i32, graph_id: u32) -> (r: Graph)
    requires
        graph.wf(),
    ensures
        r.wf(),
        r.id() == graph_id,
        r.entries().len() == 0,
        copies_of(&r, graph, nodes_of_rank(graph, rank)),
{
    let mut layer_graph = Graph::new(graph_id);
    let nodes = graph.node_indices();
    let mut i: usize = 0;
    while i < nodes.len()
        invariant
            graph.wf(),
            nodes@.len() == graph.n(),
            forall|k: int| 0 <= k < graph.n() ==> #[trigger] nodes@[k] == graph.node_at(k),
            i <= graph.n(),
            layer_graph.wf(),
            layer_graph.id() == graph_id,
            layer_graph.entries().len() == 0,
            copies_of(&layer_graph, graph, rank_positions(graph, rank, i as int)),
        decreases graph.n() - i,
    {
        let v = nodes[i];
        proof {
            lemma_rank_positions(graph, rank, i as int);
        }
        let label = graph.node_label(v).unwrap();
        if label.rank == Some(rank) {
            let ghost before = rank_positions(graph, rank, i as int);
            layer_graph.add_node(copy_label(label));
            proof {
                let after = rank_positions(graph, rank, i + 1);
                assert(after == before.push(v));
                assert forall|j: int| 0 <= j < after.len() implies same_attrs(#[trigger] layer_graph.node_seq()[j], graph.label_of(after[j])) by {
                    if j < before.len() {
                        assert(layer_graph.node_seq()[j] == layer_graph.node_seq()[j]);
                    }
                }
            }
        }
        i += 1;
    }
    layer_graph
}

/// The components found by searching `g` along edges in either
/// direction from its nodes at positions `k` on, skipping nodes reached
/// already (`vis`): each search gives the nodes it enters.
pub open spec fn connected_from(g: &Graph, vis: Seq<bool>, k: int) -> Seq<Seq<NodeIndex>>
    decreases g.n() - k,
{
    if k < 0 || k >= g.n() {
        Seq::empty()
    } else {
        let v = g.node_at(k);
        let w = crate::search::restart(crate::rank::tree_walk::fresh_walk(g.n()), vis);
        if crate::rank::tree_walk::unvisited(w, v) {
            let w1 = crate::search::search(g, crate::search::Dir::Both, w, v, None, g.n() + 1);
            if w1.1.len() > 0 {
                seq![w1.1] + connected_from(g, w1.0, k + 1)
            } else {
                connected_from(g, w1.0, k + 1)
            }
        } else {
            connected_from(g, vis, k + 1)
        }
    }
}

/// Unless `node` was visited, searches from it along edges in either
/// direction and appends each node it reaches to `component`.
fn dfs_component(
    graph: &Graph,
    node: NodeIndex,
    visited: &mut Vec<bool>,
    component: &mut Vec<NodeIndex>,
    Ghost(w): Ghost<crate::rank::tree_walk::Walk>,
)
    requires
        graph.wf(),
        graph.contains_node(node),
        old(visited)@ == w.0,
        old(component)@ == w.1,
        w.0.len() == graph.n(),
    ensures
        final(visited)@ == crate::search::search(graph, crate::search::Dir::Both, w, node, None, graph.n() + 1).0,
        final(component)@ == crate::search::search(graph, crate::search::Dir::Both, w, node, None, graph.n() + 1).1,
        final(visited)@.len() == old(visited)@.len(),
{
    if visited[node.node_index] {
        return;
    }
    let mut finished: Vec<NodeIndex> = Vec::new();
    proof {
        crate::rank::tree_walk::lemma_unseen_le(w.0);
    }
    let ghost w2 = (w.0, w.1, finished@, w.3, w.4, w.5);
    crate::search::search_exec(graph, crate::search::Dir::Both, visited, component, &mut finished, node, Ghost(w2), Ghost(None), Ghost((graph.n() + 1) as nat));
    proof {
        crate::rank::components::lemma_search_parts(graph, crate::search::Dir::Both, w, w2, node, None, (graph.n() + 1) as nat);
    }
}

/// The connected components of `graph`, edges taken in either direction:
/// each node not reached yet, in node order, starts a search whose nodes,
/// in the order it enters them, form a component.
pub fn find_connected_components(graph: &Graph) -> (r: Vec<Vec<NodeIndex>>)
    requires
        graph.wf(),
    ensures
        r@.map_values(|c: Vec<NodeIndex>| c@) == connected_from(graph, crate::rank::tree_walk::fresh_walk(graph.n()).0, 0),
{
    let n = graph.node_count();
    let mut visited: Vec<bool> = vec![false; n];
    proof {
        assert(visited@ =~= crate::rank::tree_walk::fresh_walk(graph.n()).0);
    }
    let mut components: Vec<Vec<NodeIndex>> = Vec::new();
    let nodes = graph.node_indices();
    let mut k: usize = 0;
    while k < nodes.len()
        invariant
            graph.wf(),
            n == graph.n(),
            nodes@.len() == n,
            forall|i: int| 0 <= i < n ==> #[trigger] nodes@[i] == graph.node_at(i),
            k <= n,
            visited@.len() == n,
            components@.map_values(|c: Vec<NodeIndex>| c@) + connected_from(graph, visited@, k as int)
                == connected_from(graph, crate::rank::tree_walk::fresh_walk(graph.n()).0, 0),
        decreases n - k,
    {
        let v = nodes[k];
        let ghost w = crate::search::restart(crate::rank::tree_walk::fresh_walk(graph.n()), visited@);
        if !visited[v.node_index] {
            let mut component: Vec<NodeIndex> = Vec::new();
            proof {
                assert(component@ =~= w.1);
            }
            dfs_component(graph, v, &mut visited, &mut component, Ghost(w));
            if component.len() > 0 {
                let ghost before = components@;
                components.push(component);
                proof {
                    let c = components@[components@.len() - 1]@;
                    let rest = connected_from(graph, visited@, k + 1);
                    assert(components@.map_values(|c: Vec<NodeIndex>| c@) =~= before.map_values(|c: Vec<NodeIndex>| c@).push(c));
                    assert(before.map_values(|c: Vec<NodeIndex>| c@).push(c) + rest =~= before.map_values(|c: Vec<NodeIndex>| c@) + (
                    seq![c] + rest));
                }
            }
        }
        k += 1;
    }
    proof {
        assert(connected_from(graph, visited@, n as int) =~= Seq::<Seq<NodeIndex>>::empty());
        assert(components@.map_values(|c: Vec<NodeIndex>| c@) + Seq::<Seq<NodeIndex>>::empty() =~= components@.map_values(
            |c: Vec<NodeIndex>| c@,
        ));
    }
    components
}


/// The id a counter that starts at `first` and wraps after `u32::MAX`
/// holds after `k` steps.
pub open spec fn id_after(first: u32, k: nat) -> u32
    decreases k,
{
    if k == 0 {
        first
    } else {
        crate::counters::bump(id_after(first, (k - 1) as nat))
    }
}

/// In a graph without edges every node is a component of its own.
pub proof fn lemma_edgeless_components(g: &Graph, k: int)
    requires
        g.wf(),
        g.entries().len() == 0,
        0 <= k <= g.n(),
    ensures
        connected_from(g, Seq::new(g.n(), |j: int| j < k), k) == Seq::new(
            (g.n() - k) as nat,
            |j: int| seq![g.node_at(k + j)],
        ),
    decreases g.n() - k,
{
    let vis = Seq::new(g.n(), |j: int| j < k);
    if k < g.n() {
        let v = g.node_at(k);
        let w = crate::search::restart(crate::rank::tree_walk::fresh_walk(g.n()), vis);
        assert(crate::rank::tree_walk::unvisited(w, v));
        assert(g.out_edges_spec(v) =~= Seq::<Edge>::empty());
        assert(g.in_edges_spec(v) =~= Seq::<Edge>::empty());
        let w0 = crate::rank::tree_walk::enter(w, v, None);
        assert(crate::search::search_from(g, crate::search::Dir::Both, w0, v, 0, g.n()) == w0);
        let w1 = crate::search::search(g, crate::search::Dir::Both, w, v, None, g.n() + 1);
        assert(w1 == crate::rank::tree_walk::leave(w0, v));
        assert(w1.1 =~= seq![v]);
        assert(w1.0 =~= Seq::new(g.n(), |j: int| j < k + 1));
        lemma_edgeless_components(g, k + 1);
        assert(connected_from(g, vis, k) == seq![w1.1] + connected_from(g, w1.0, k + 1));
        assert(connected_from(g, vis, k) =~= Seq::new((g.n() - k) as nat, |j: int| seq![g.node_at(k + j)]));
    } else {
        assert(connected_from(g, vis, k) =~= Seq::<Seq<NodeIndex>>::empty());
    }
}

/// The layer graph of rank `rank`, with id `first_id`, split into its
/// connected components, each copied into a graph of its own that takes
/// the next id in turn. The layer graph has no edges, so every node of
/// rank `rank`, in node order, is a component of its own, and no edge is
/// there to copy into a component.
pub fn build_layer_graph_components(graph: &Graph, rank: i32, first_id: u32) -> (r: Vec<Graph>)
    requires
        graph.wf(),
    ensures
        r@.len() == nodes_of_rank(graph, rank).len(),
        forall|k: int|
            0 <= k < r@.len() ==> {
                &&& (#[trigger] r@[k]).wf()
                &&& r@[k].id() == id_after(first_id, (k + 1) as nat)
                &&& r@[k].entries().len() == 0
                &&& copies_of(&r@[k], graph, seq![nodes_of_rank(graph, rank)[k]])
            },
{
    let layer_graph = build_layer_graph(graph, rank, "all", first_id);
    let lg = &layer_graph.graph;
    let components = find_connected_components(lg);
    let ghost sel = nodes_of_rank(graph, rank);
    proof {
        assert(crate::rank::tree_walk::fresh_walk(lg.n()).0 =~= Seq::new(lg.n(), |j: int| j < 0));
        lemma_edgeless_components(lg, 0);
        assert(components@.map_values(|c: Vec<NodeIndex>| c@).len() == lg.n());
        assert forall|k: int| 0 <= k < components@.len() implies (#[trigger] components@[k])@ == seq![lg.node_at(k)] by {
            assert(components@.map_values(|c: Vec<NodeIndex>| c@)[k] == components@[k]@);
        }
    }
    let mut component_graphs: Vec<Graph> = Vec::new();
    let mut id = first_id;
    let mut k: usize = 0;
    while k < components.len()
        invariant
            graph.wf(),
            lg.wf(),
            lg.entries().len() == 0,
            copies_of(lg, graph, sel),
            sel == nodes_of_rank(graph, rank),
            components@.len() == lg.n(),
            forall|i: int| 0 <= i < components@.len() ==> (#[trigger] components@[i])@ == seq![lg.node_at(i)],
            k <= components@.len(),
            id == id_after(first_id, k as nat),
            component_graphs@.len() == k,
            forall|i: int|
                0 <= i < k ==> {
                    &&& (#[trigger] component_graphs@[i]).wf()
                    &&& component_graphs@[i].id() == id_after(first_id, (i + 1) as nat)
                    &&& component_graphs@[i].entries().len() == 0
                    &&& copies_of(&component_graphs@[i], graph, seq![sel[i]])
                },
        decreases components@.len() - k,
    {
        id = id.wrapping_add(1);
        let mut comp_graph = Graph::new(id);
        let component = &components[k];
        let mut c: usize = 0;
        while c < component.len()
            invariant
                lg.wf(),
                component@ == seq![lg.node_at(k as int)],
                (k as int) < lg.n(),
                c <= 1,
                comp_graph.wf(),
                comp_graph.id() == id,
                comp_graph.entries().len() == 0,
                comp_graph.n() == c,
                c == 1 ==> same_attrs(comp_graph.node_seq()[0], lg.label_of(lg.node_at(k as int))),
            decreases component@.len() - c,
        {
            let node_id = component[c];
            if let Some(label) = lg.node_label(node_id) {
                comp_graph.add_node(copy_label(label));
            }
            c += 1;
        }
        proof {
            let a = comp_graph.node_seq()[0];
            let b = lg.label_of(lg.node_at(k as int));
            assert(same_attrs(b, graph.label_of(sel[k as int])));
            assert(same_attrs(a, graph.label_of(sel[k as int])));
            assert(copies_of(&comp_graph, graph, seq![sel[k as int]]));
        }
        component_graphs.push(comp_graph);
        k += 1;
    }
    component_graphs
}


/// The nodes at positions below `k` whose mark in `keep` is set, in order.
pub open spec fn kept_nodes(g: &Graph, keep: Seq<bool>, k: int) -> Seq<NodeIndex>
    decreases k,
{
    if k <= 0 {
        Seq::empty()
    } else if keep[k - 1] {
        kept_nodes(g, keep, k - 1).push(g.node_at(k - 1))
    } else {
        kept_nodes(g, keep, k - 1)
    }
}

/// `keep` marks, among the first `k` nodes of `g`, the nodes of rank
/// `rank` that `node_filter` accepted, and no other node.
pub open spec fn filter_marks<F: Fn(NodeIndex) -> bool>(
    g: &Graph,
    rank: i32,
    node_filter: F,
    keep: Seq<bool>,
    k: int,
) -> bool {
    &&& keep.len() == k
    &&& forall|i: int|
        0 <= i < k ==> if g.node_seq()[i].rank == Some(rank) {
            call_ensures(node_filter, (g.node_at(i),), #[trigger] keep[i])
        } else {
            !keep[i]
        }
}

/// The first `k` edges of `es` whose other end (the target when `out`
/// holds, else the source) is at a position below `m`, with their labels
/// in `g`.
pub open spec fn joined_within(g: &Graph, es: Seq<Edge>, m: int, out: bool, k: int) -> Seq<(Edge, EdgeLabel)>
    decreases k,
{
    if k <= 0 {
        Seq::empty()
    } else {
        let rest = joined_within(g, es, m, out, k - 1);
        let e = es[k - 1];
        let other = if out { e.target } else { e.source };
        if other.node_index < m {
            rest.push((e, g.edge_label_spec(e)))
        } else {
            rest
        }
    }
}

/// For the nodes at positions below `j` in turn, the edges of `g` into
/// them and then out of them that join two nodes at positions below `m`.
pub open spec fn subgraph_edges(g: &Graph, m: int, j: int) -> Seq<(Edge, EdgeLabel)>
    decreases j,
{
    if j <= 0 {
        Seq::empty()
    } else {
        let v = g.node_at(j - 1);
        let ins = g.in_edges_spec(v);
        let outs = g.out_edges_spec(v);
        subgraph_edges(g, m, j - 1) + joined_within(g, ins, m, false, ins.len() as int) + joined_within(
            g,
            outs,
            m,
            true,
            outs.len() as int,
        )
    }
}

/// The entries after inserting each of `es` into `s` in turn.
pub open spec fn inserted_all(s: Seq<(Edge, EdgeLabel)>, es: Seq<(Edge, EdgeLabel)>) -> Seq<(Edge, EdgeLabel)>
    decreases es.len(),
{
    if es.len() == 0 {
        s
    } else {
        inserted(inserted_all(s, es.drop_last()), es.last().0, es.last().1)
    }
}

/// Appends to `acc` each edge of `es` whose other end (the target when
/// `out` holds, else the source) is a node of `layer`, with its label in
/// `graph`.
fn collect_joined(graph: &Graph, layer: &Graph, es: &Vec<Edge>, out: bool, acc: &mut Vec<(Edge, EdgeLabel)>)
    requires
        graph.wf(),
        layer.wf(),
        layer.id() == graph.id(),
        layer.n() <= graph.n(),
        exists|v: NodeIndex|
            layer.contains_node(v) && #[trigger] incident(graph.entries(), v, out) == es@,
        forall|k: int|
            0 <= k < old(acc)@.len() ==> layer.contains_node((#[trigger] old(acc)@[k]).0.source)
                && layer.contains_node(old(acc)@[k].0.target),
    ensures
        final(acc)@ == old(acc)@ + joined_within(graph, es@, layer.n() as int, out, es@.len() as int),
        forall|k: int|
            0 <= k < final(acc)@.len() ==> layer.contains_node((#[trigger] final(acc)@[k]).0.source)
                && layer.contains_node(final(acc)@[k].0.target),
{
    let ghost v = choose|v: NodeIndex| layer.contains_node(v) && #[trigger] incident(graph.entries(), v, out) == es@;
    let ghost start = acc@;
    let mut q: usize = 0;
    while q < es.len()
        invariant
            graph.wf(),
            layer.wf(),
            layer.id() == graph.id(),
            layer.contains_node(v),
            incident(graph.entries(), v, out) == es@,
            q <= es@.len(),
            acc@ == start + joined_within(graph, es@, layer.n() as int, out, q as int),
            forall|k: int|
                0 <= k < acc@.len() ==> layer.contains_node((#[trigger] acc@[k]).0.source)
                    && layer.contains_node(acc@[k].0.target),
        decreases es@.len() - q,
    {
        let e = es[q];
        proof {
            crate::graph::lemma_incident_index(graph.entries(), v, out, q as int);
            let i = choose|i: int| 0 <= i < graph.entries().len() && #[trigger] graph.entries()[i].0 == e;
            assert(graph.contains_node(graph.entries()[i].0.source));
            assert(graph.contains_node(graph.entries()[i].0.target));
            assert(has_key(graph.entries(), e));
        }
        let other = if out { e.target } else { e.source };
        if layer.has_node(other) {
            let l = graph.edge_label(&e).unwrap();
            acc.push((e, copy_edge_label(l)));
            proof {
                assert(acc@ =~= start + joined_within(graph, es@, layer.n() as int, out, q + 1));
            }
        } else {
            proof {
                assert(acc@ =~= start + joined_within(graph, es@, layer.n() as int, out, q + 1));
            }
        }
        q += 1;
    }
}

/// A graph with id `graph_id` holding a copy of the label of every node
/// of rank `rank` that `node_filter` accepts, in node order, and the edges
/// of `graph` into and out of its nodes in turn, taken as the nodes of
/// `graph` at the same positions, that join two of its positions. Looking
/// up those edges takes the new nodes as nodes of `graph`, which they are
/// only when `graph_id` is the id of `graph`; with another id no node may
/// be accepted.
pub fn build_layer_subgraph<F: Fn(NodeIndex) -> bool>(
    graph: &Graph,
    rank: i32,
    node_filter: F,
    graph_id: u32,
) -> (r: Graph)
    requires
        graph.wf(),
        forall|v: NodeIndex| call_requires(node_filter, (v,)),
        graph_id == graph.id() || forall|i: int, b: bool|
            0 <= i < graph.n() && graph.node_seq()[i].rank == Some(rank) && #[trigger] call_ensures(
                node_filter,
                (graph.node_at(i),),
                b,
            ) ==> !b,
    ensures
        r.wf(),
        r.id() == graph_id,
        exists|keep: Seq<bool>|
            #![trigger kept_nodes(graph, keep, graph.n() as int)]
            filter_marks(graph, rank, node_filter, keep, graph.n() as int) && copies_of(
                &r,
                graph,
                kept_nodes(graph, keep, graph.n() as int),
            ),
        r.entries() == inserted_all(Seq::empty(), subgraph_edges(graph, r.n() as int, r.n() as int)),
{
    let mut layer_graph = Graph::new(graph_id);
    let nodes = graph.node_indices();
    let ghost mut keep: Seq<bool> = Seq::empty();
    let mut i: usize = 0;
    while i < nodes.len()
        invariant
            graph.wf(),
            forall|v: NodeIndex| call_requires(node_filter, (v,)),
            graph_id == graph.id() || forall|i: int, b: bool|
                0 <= i < graph.n() && graph.node_seq()[i].rank == Some(rank) && #[trigger] call_ensures(
                    node_filter,
                    (graph.node_at(i),),
                    b,
                ) ==> !b,
            nodes@.len() == graph.n(),
            forall|k: int| 0 <= k < graph.n() ==> #[trigger] nodes@[k] == graph.node_at(k),
            i <= graph.n(),
            layer_graph.wf(),
            layer_graph.id() == graph_id,
            layer_graph.entries().len() == 0,
            layer_graph.n() <= i,
            layer_graph.n() > 0 ==> graph_id == graph.id(),
            filter_marks(graph, rank, node_filter, keep, i as int),
            copies_of(&layer_graph, graph, kept_nodes(graph, keep, i as int)),
        decreases graph.n() - i,
    {
        let v = nodes[i];
        let label = graph.node_label(v).unwrap();
        let ghost before = kept_nodes(graph, keep, i as int);
        let ghost old_keep = keep;
        if label.rank == Some(rank) {
            let accepted = node_filter(v);
            proof {
                keep = keep.push(accepted);
                lemma_kept_agree(graph, keep, old_keep, i as int);
            }
            if accepted {
                layer_graph.add_node(copy_label(label));
                proof {
                    let after = kept_nodes(graph, keep, i + 1);
                    assert(after == before.push(v));
                    assert forall|j: int| 0 <= j < after.len() implies same_attrs(
                        #[trigger] layer_graph.node_seq()[j],
                        graph.label_of(after[j]),
                    ) by {
                        if j < before.len() {
                            assert(layer_graph.node_seq()[j] == layer_graph.node_seq()[j]);
                        }
                    }
                }
            }
        } else {
            proof {
                keep = keep.push(false);
                lemma_kept_agree(graph, keep, old_keep, i as int);
            }
        }
        proof {
            assert forall|k: int| 0 <= k < i + 1 implies (if graph.node_seq()[k].rank == Some(rank) {
                call_ensures(node_filter, (graph.node_at(k),), #[trigger] keep[k])
            } else {
                !keep[k]
            }) by {
                if k < i {
                    assert(keep[k] == old_keep[k]);
                }
            }
        }
        i += 1;
    }
    let ghost kept = kept_nodes(graph, keep, graph.n() as int);
    assert(filter_marks(graph, rank, node_filter, keep, graph.n() as int));
    let m = layer_graph.node_count();
    let mut edges_to_add: Vec<(Edge, EdgeLabel)> = Vec::new();
    let mut j: usize = 0;
    while j < m
        invariant
            graph.wf(),
            layer_graph.wf(),
            layer_graph.id() == graph_id,
            layer_graph.entries().len() == 0,
            m == layer_graph.n(),
            m <= graph.n(),
            m > 0 ==> graph_id == graph.id(),
            j <= m,
            edges_to_add@ == subgraph_edges(graph, m as int, j as int),
            copies_of(&layer_graph, graph, kept),
            forall|k: int|
                0 <= k < edges_to_add@.len() ==> layer_graph.contains_node((#[trigger] edges_to_add@[k]).0.source)
                    && layer_graph.contains_node(edges_to_add@[k].0.target),
        decreases m - j,
    {
        let v = NodeIndex { node_index: j, which_graph: graph_id };
        let ins = graph.in_edges(v);
        collect_joined(graph, &layer_graph, &ins, false, &mut edges_to_add);
        let outs = graph.out_edges(v);
        collect_joined(graph, &layer_graph, &outs, true, &mut edges_to_add);
        proof {
            assert(v == graph.node_at(j as int));
        }
        j += 1;
    }
    let mut k: usize = 0;
    proof {
        assert(edges_to_add@.take(0) =~= Seq::<(Edge, EdgeLabel)>::empty());
    }
    while k < edges_to_add.len()
        invariant
            layer_graph.wf(),
            layer_graph.id() == graph_id,
            m == layer_graph.n(),
            k <= edges_to_add@.len(),
            layer_graph.entries() == inserted_all(Seq::empty(), edges_to_add@.take(k as int)),
            copies_of(&layer_graph, graph, kept),
            forall|q: int|
                0 <= q < edges_to_add@.len() ==> layer_graph.contains_node((#[trigger] edges_to_add@[q]).0.source)
                    && layer_graph.contains_node(edges_to_add@[q].0.target),
        decreases edges_to_add@.len() - k,
    {
        let entry = &edges_to_add[k];
        let e = entry.0;
        let ghost before = layer_graph.entries();
        layer_graph.add_edge(e, copy_edge_label(&entry.1));
        proof {
            assert(edges_to_add@.take(k + 1).drop_last() =~= edges_to_add@.take(k as int));
            assert(layer_graph.entries() == inserted(before, e, entry.1));
        }
        k += 1;
    }
    proof {
        assert(edges_to_add@.take(edges_to_add@.len() as int) =~= edges_to_add@);
        assert(kept_nodes(graph, keep, graph.n() as int) == kept);
    }
    layer_graph
}

/// Marks that agree below `k` keep the same nodes below `k`.
proof fn lemma_kept_agree(g: &Graph, a: Seq<bool>, b: Seq<bool>, k: int)
    requires
        forall|i: int| 0 <= i < k ==> a[i] == b[i],
    ensures
        kept_nodes(g, a, k) == kept_nodes(g, b, k),
    decreases k,
{
    if k > 0 {
        lemma_kept_agree(g, a, b, k - 1);
    }
}

} // verus!
