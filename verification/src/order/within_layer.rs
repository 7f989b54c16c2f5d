//! Crossings of edges between the nodes of one layer (as self edges of a
//! rank make them) with the edges leaving the other nodes of the layer.
use vstd::prelude::*;
use crate::graph::Graph;
use crate::order::build_layer_graph::nodes_of_rank;
use crate::order::layer_sort::{sort_keyed, stable_sorted, lemma_stable_sorted_len};
use crate::types::{Edge, NodeIndex};

verus! {

/// The order of `v`, 0 when it has none.
pub open spec fn order_or_zero(g: &Graph, v: NodeIndex) -> u128 {
    match g.label_of(v).order {
        Some(o) => o as u128,
        None => 0,
    }
}

/// The nodes of rank `r` sorted stably by their order.
pub open spec fn layer_by_order(g: &Graph, r: i32) -> Seq<NodeIndex> {
    let s = nodes_of_rank(g, r);
    stable_sorted(s.map_values(|v: NodeIndex| (order_or_zero(g, v), v)), s.len() as int).map_values(
        |p: (u128, NodeIndex)| p.1,
    )
}

/// The first position of `v` in `s`.
pub open spec fn first_index(s: Seq<NodeIndex>, v: NodeIndex) -> Option<int>
    decreases s.len(),
{
    if s.len() == 0 {
        None
    } else if s[0] == v {
        Some(0)
    } else {
        match first_index(s.drop_first(), v) {
            Some(k) => Some(k + 1),
            None => None,
        }
    }
}

/// The position of `v` within its layer: among the nodes of its rank,
/// sorted by order; `None` when `v` is no node or has no rank.
pub open spec fn node_position(g: &Graph, v: NodeIndex) -> Option<int> {
    if !g.contains_node(v) {
        None
    } else {
        match g.label_of(v).rank {
            Some(r) => first_index(layer_by_order(g, r), v),
            None => None,
        }
    }
}

proof fn lemma_first_index(s: Seq<NodeIndex>, v: NodeIndex, p: int)
    requires
        0 <= p <= s.len(),
        forall|j: int| 0 <= j < p ==> s[j] != v,
    ensures
        p < s.len() && s[p] == v ==> first_index(s, v) == Some(p),
        p == s.len() ==> first_index(s, v) is None,
    decreases p,
{
    if p > 0 {
        assert forall|j: int| 0 <= j < p - 1 implies s.drop_first()[j] != v by {
            assert(s.drop_first()[j] == s[j + 1]);
        }
        if p < s.len() {
            assert(s.drop_first()[p - 1] == s[p]);
        }
        lemma_first_index(s.drop_first(), v, p - 1);
    } else if s.len() == 0 {
    }
}

/// The position of `node_id` within its layer: the nodes of its rank, in
/// node order, sorted stably by their order (0 when unset).
pub fn find_node_position_in_layer(graph: &Graph, node_id: NodeIndex) -> (r: Option<usize>)
    requires
        graph.wf(),
        node_id.which_graph == graph.id(),
    ensures
        r matches Some(p) ==> node_position(graph, node_id) == Some(p as int),
        r is None ==> node_position(graph, node_id) is None,
{
    let label = match graph.node_label(node_id) {
        Some(l) => l,
        None => {
            return None;
        },
    };
    let rank = match label.rank {
        Some(r) => r,
        None => {
            return None;
        },
    };
    let sel_v = crate::order::build_layer_graph::rank_nodes(graph, rank);
    let ghost sel = nodes_of_rank(graph, rank);
    proof {
        crate::order::build_layer_graph::lemma_rank_positions(graph, rank, graph.n() as int);
    }
    let n = sel_v.len();
    let mut keyed: Vec<(u128, NodeIndex)> = Vec::new();
    let mut i: usize = 0;
    while i < n
        invariant
            graph.wf(),
            sel_v@ == sel,
            n == sel.len(),
            sel == nodes_of_rank(graph, rank),
            forall|j: int| 0 <= j < sel.len() ==> graph.contains_node(#[trigger] sel[j]),
            i <= n,
            keyed@ == sel.take(i as int).map_values(|v: NodeIndex| (order_or_zero(graph, v), v)),
        decreases n - i,
    {
        let v = sel_v[i];
        let o: u128 = match graph.node_label(v).unwrap().order {
            Some(x) => x as u128,
            None => 0,
        };
        keyed.push((o, v));
        proof {
            assert(sel.take(i + 1).map_values(|v: NodeIndex| (order_or_zero(graph, v), v)) =~= sel.take(i as int).map_values(
                |v: NodeIndex| (order_or_zero(graph, v), v),
            ).push((o, v)));
        }
        i += 1;
    }
    proof {
        assert(sel.take(sel.len() as int) =~= sel);
    }
    let sorted = sort_keyed(&keyed);
    proof {
        lemma_stable_sorted_len(keyed@, keyed@.len() as int);
    }
    let ghost layer = layer_by_order(graph, rank);
    let mut p: usize = 0;
    while p < sorted.len()
        invariant
            layer == sorted@.map_values(|q: (u128, NodeIndex)| q.1),
            layer == layer_by_order(graph, rank),
            graph.contains_node(node_id),
            graph.label_of(node_id).rank == Some(rank),
            p <= sorted@.len(),
            forall|j: int| 0 <= j < p ==> layer[j] != node_id,
        decreases sorted@.len() - p,
    {
        if sorted[p].1 == node_id {
            proof {
                assert(layer[p as int] == sorted@[p as int].1);
                lemma_first_index(layer, node_id, p as int);
                assert(graph.contains_node(node_id));
                assert(graph.label_of(node_id).rank == Some(rank));
                assert(first_index(layer, node_id) == Some(p as int));
            }
            return Some(p);
        }
        proof {
            assert(layer[p as int] == sorted@[p as int].1);
        }
        p += 1;
    }
    proof {
        lemma_first_index(layer, node_id, p as int);
    }
    None
}

/// Do the segments `(a.0, a.1)` and `(b.0, b.1)` cross?
pub open spec fn segments_cross(a: (int, int), b: (int, int)) -> bool {
    (a.0 < b.0 && a.1 > b.1) || (a.0 > b.0 && a.1 < b.1)
}

/// How many of the edges `es` leaving the node at position `pos3` end at a
/// position other than `pos1` and `pos2` and cross the segment from
/// `pos1` to `pos2`.
pub open spec fn node_crossings(g: &Graph, es: Seq<Edge>, pos1: int, pos2: int, pos3: int) -> int
    decreases es.len(),
{
    if es.len() == 0 {
        0
    } else {
        node_crossings(g, es.drop_last(), pos1, pos2, pos3) + match node_position(g, es.last().target) {
            Some(tp) => if tp != pos1 && tp != pos2 && segments_cross((pos1, pos2), (pos3, tp)) { 1int } else { 0int },
            None => 0int,
        }
    }
}

proof fn lemma_node_crossings_bound(g: &Graph, es: Seq<Edge>, pos1: int, pos2: int, pos3: int)
    ensures
        0 <= node_crossings(g, es, pos1, pos2, pos3) <= es.len(),
    decreases es.len(),
{
    if es.len() > 0 {
        lemma_node_crossings_bound(g, es.drop_last(), pos1, pos2, pos3);
    }
}

/// How many edges leaving `node3` (at position `pos3`) cross the segment
/// from position `pos1` to `pos2`, ending elsewhere than at its ends.
pub fn count_crossings_with_node(
    graph: &Graph,
    _node1: &NodeIndex,
    _node2: &NodeIndex,
    node3: &NodeIndex,
    pos1: usize,
    pos2: usize,
    pos3: usize,
) -> (r: usize)
    requires
        graph.wf(),
        node3.which_graph == graph.id(),
    ensures
        r == node_crossings(graph, graph.out_edges_spec(*node3), pos1 as int, pos2 as int, pos3 as int),
{
    let outs = graph.out_edges(*node3);
    let mut crossings: usize = 0;
    let mut i: usize = 0;
    proof {
        crate::rank::network_simplex::lemma_incident_facts(graph, *node3);
    }
    while i < outs.len()
        invariant
            graph.wf(),
            outs@ == graph.out_edges_spec(*node3),
            forall|k: int| 0 <= k < outs@.len() ==> graph.has_edge_spec(#[trigger] outs@[k]),
            i <= outs@.len(),
            crossings == node_crossings(graph, outs@.take(i as int), pos1 as int, pos2 as int, pos3 as int),
        decreases outs@.len() - i,
    {
        let edge = outs[i];
        proof {
            assert(outs@.take(i + 1).drop_last() =~= outs@.take(i as int));
            lemma_node_crossings_bound(graph, outs@.take(i as int), pos1 as int, pos2 as int, pos3 as int);
            let x = choose|x: int| 0 <= x < graph.entries().len() && #[trigger] graph.entries()[x].0 == edge;
            assert(graph.contains_node(graph.entries()[x].0.source));
            assert(graph.contains_node(graph.entries()[x].0.target));
        }
        if let Some(target_pos) = find_node_position_in_layer(graph, edge.target) {
            if target_pos != pos1 && target_pos != pos2 {
                if (pos1 < pos3 && pos2 > target_pos) || (pos1 > pos3 && pos2 < target_pos) {
                    crossings += 1;
                }
            }
        }
        i += 1;
    }
    proof {
        assert(outs@.take(outs@.len() as int) =~= outs@);
    }
    crossings
}

/// Whether `layer[i]` and `layer[j]` are joined by an edge.
pub open spec fn joined(g: &Graph, layer: Seq<NodeIndex>, i: int, j: int) -> bool {
    g.has_edge_spec(Edge { source: layer[i], target: layer[j] }) || g.has_edge_spec(Edge { source: layer[j], target: layer[i] })
}

/// The crossings with the edge between positions `i` and `j` of the
/// nodes at positions below `k` other than `i` and `j`.
pub open spec fn third_sum(g: &Graph, layer: Seq<NodeIndex>, i: int, j: int, k: int) -> int
    decreases k,
{
    if k <= 0 {
        0
    } else {
        third_sum(g, layer, i, j, k - 1) + if k - 1 != i && k - 1 != j {
            node_crossings(g, g.out_edges_spec(layer[k - 1]), i, j, k - 1)
        } else {
            0
        }
    }
}

/// The crossings with the edges between position `i` and the positions
/// from `i + 1` up to below `j`.
pub open spec fn partner_sum(g: &Graph, layer: Seq<NodeIndex>, i: int, j: int) -> int
    decreases j - i,
{
    if j <= i + 1 {
        0
    } else {
        partner_sum(g, layer, i, j - 1) + if joined(g, layer, i, j - 1) {
            third_sum(g, layer, i, j - 1, layer.len() as int)
        } else {
            0
        }
    }
}

/// The crossings with the edges within the layer between a position below
/// `i` and a later one.
pub open spec fn within_sum(g: &Graph, layer: Seq<NodeIndex>, i: int) -> int
    decreases i,
{
    if i <= 0 {
        0
    } else {
        within_sum(g, layer, i - 1) + partner_sum(g, layer, i - 1, layer.len() as int)
    }
}

proof fn lemma_third_sum_mono(g: &Graph, layer: Seq<NodeIndex>, i: int, j: int, k: int, n: int)
    requires
        0 <= k <= n,
    ensures
        0 <= third_sum(g, layer, i, j, k) <= third_sum(g, layer, i, j, n),
    decreases n - k,
{
    if k < n {
        lemma_third_sum_mono(g, layer, i, j, k + 1, n);
        lemma_node_crossings_bound(g, g.out_edges_spec(layer[k]), i, j, k);
        lemma_third_sum_nonneg(g, layer, i, j, k);
    } else {
        lemma_third_sum_nonneg(g, layer, i, j, k);
    }
}

proof fn lemma_third_sum_nonneg(g: &Graph, layer: Seq<NodeIndex>, i: int, j: int, k: int)
    ensures
        0 <= third_sum(g, layer, i, j, k),
    decreases k,
{
    if k > 0 {
        lemma_third_sum_nonneg(g, layer, i, j, k - 1);
        lemma_node_crossings_bound(g, g.out_edges_spec(layer[k - 1]), i, j, k - 1);
    }
}

proof fn lemma_partner_sum_mono(g: &Graph, layer: Seq<NodeIndex>, i: int, j: int, n: int)
    requires
        i + 1 <= j <= n,
    ensures
        0 <= partner_sum(g, layer, i, j) <= partner_sum(g, layer, i, n),
    decreases n - j,
{
    if j < n {
        lemma_partner_sum_mono(g, layer, i, j + 1, n);
        lemma_third_sum_nonneg(g, layer, i, j, layer.len() as int);
        lemma_partner_sum_nonneg(g, layer, i, j);
    } else {
        lemma_partner_sum_nonneg(g, layer, i, j);
    }
}

proof fn lemma_partner_sum_nonneg(g: &Graph, layer: Seq<NodeIndex>, i: int, j: int)
    ensures
        0 <= partner_sum(g, layer, i, j),
    decreases j - i,
{
    if j > i + 1 {
        lemma_partner_sum_nonneg(g, layer, i, j - 1);
        lemma_third_sum_nonneg(g, layer, i, j - 1, layer.len() as int);
    }
}

proof fn lemma_within_sum_mono(g: &Graph, layer: Seq<NodeIndex>, i: int, n: int)
    requires
        0 <= i <= n,
    ensures
        0 <= within_sum(g, layer, i) <= within_sum(g, layer, n),
    decreases n - i,
{
    if i < n {
        lemma_within_sum_mono(g, layer, i + 1, n);
        lemma_partner_sum_nonneg(g, layer, i, layer.len() as int);
        lemma_within_sum_nonneg(g, layer, i);
    } else {
        lemma_within_sum_nonneg(g, layer, i);
    }
}

proof fn lemma_within_sum_nonneg(g: &Graph, layer: Seq<NodeIndex>, i: int)
    ensures
        0 <= within_sum(g, layer, i),
    decreases i,
{
    if i > 0 {
        lemma_within_sum_nonneg(g, layer, i - 1);
        lemma_partner_sum_nonneg(g, layer, i - 1, layer.len() as int);
    }
}

/// The crossings within a layer: for every two nodes of the layer joined
/// by an edge, the edges leaving the other nodes of the layer that cross
/// it.
pub fn count_crossings_within_layer(graph: &Graph, layer: &Vec<NodeIndex>) -> (r: usize)
    requires
        graph.wf(),
        forall|k: int| 0 <= k < layer@.len() ==> (#[trigger] layer@[k]).which_graph == graph.id(),
        within_sum(graph, layer@, layer@.len() as int) <= usize::MAX,
    ensures
        r == within_sum(graph, layer@, layer@.len() as int),
{
    let ghost lay = layer@;
    let n = layer.len();
    let mut crossings: usize = 0;
    let mut i: usize = 0;
    while i < n
        invariant
            graph.wf(),
            lay == layer@,
            n == lay.len(),
            forall|k: int| 0 <= k < lay.len() ==> (#[trigger] lay[k]).which_graph == graph.id(),
            within_sum(graph, lay, n as int) <= usize::MAX,
            i <= n,
            crossings == within_sum(graph, lay, i as int),
        decreases n - i,
    {
        let mut j: usize = i + 1;
        proof {
            lemma_within_sum_mono(graph, lay, i + 1, n as int);
        }
        while j < n
            invariant
                graph.wf(),
                lay == layer@,
                n == lay.len(),
                forall|k: int| 0 <= k < lay.len() ==> (#[trigger] lay[k]).which_graph == graph.id(),
                within_sum(graph, lay, n as int) <= usize::MAX,
                within_sum(graph, lay, i + 1) <= usize::MAX,
                i < n,
                i + 1 <= j <= n,
                crossings == within_sum(graph, lay, i as int) + partner_sum(graph, lay, i as int, j as int),
            decreases n - j,
        {
            let node1 = layer[i];
            let node2 = layer[j];
            let joined_here = graph.has_edge(&Edge::new(node1, node2)) || graph.has_edge(&Edge::new(node2, node1));
            if joined_here {
                let mut k: usize = 0;
                proof {
                    lemma_partner_sum_mono(graph, lay, i as int, j + 1, n as int);
                }
                while k < n
                    invariant
                        graph.wf(),
                        lay == layer@,
                        n == lay.len(),
                        forall|q: int| 0 <= q < lay.len() ==> (#[trigger] lay[q]).which_graph == graph.id(),
                        within_sum(graph, lay, i + 1) <= usize::MAX,
                        within_sum(graph, lay, i + 1) == within_sum(graph, lay, i as int) + partner_sum(graph, lay, i as int, n as int),
                        partner_sum(graph, lay, i as int, j + 1) <= partner_sum(graph, lay, i as int, n as int),
                        partner_sum(graph, lay, i as int, j + 1) == partner_sum(graph, lay, i as int, j as int) + third_sum(graph, lay, i as int, j as int, n as int),
                        i < j < n,
                        k <= n,
                        crossings == within_sum(graph, lay, i as int) + partner_sum(graph, lay, i as int, j as int) + third_sum(graph, lay, i as int, j as int, k as int),
                    decreases n - k,
                {
                    proof {
                        lemma_third_sum_mono(graph, lay, i as int, j as int, k + 1, n as int);
                        lemma_within_sum_nonneg(graph, lay, i as int);
                        lemma_partner_sum_nonneg(graph, lay, i as int, j as int);
                    }
                    if k != i && k != j {
                        let node3 = layer[k];
                        let c = count_crossings_with_node(graph, &node1, &node2, &node3, i, j, k);
                        crossings += c;
                    }
                    k += 1;
                }
            }
            j += 1;
        }
        i += 1;
    }
    crossings
}

} // verus!
