//! Writing a layering back into the graph, and reading it out again.
use vstd::prelude::*;
use crate::graph::Graph;
use crate::types::{NodeIndex, NodeLabel};
use crate::util::is_placeholder;

use crate::util::PLACEHOLDER_GRAPH_ID;

verus! {

/// The last position before `k` at which `layer` holds `v`, or -1 (always
/// -1 for the placeholder graph id).
pub open spec fn last_at(layer: Seq<NodeIndex>, v: NodeIndex, k: int) -> int
    decreases k,
{
    if k <= 0 {
        -1
    } else if layer[k - 1] == v && v.which_graph != PLACEHOLDER_GRAPH_ID {
        k - 1
    } else {
        last_at(layer, v, k - 1)
    }
}

/// The order node `v` has once the first `r` layers are written, starting
/// from `init`: its position in the last of those layers that holds it.
pub open spec fn order_after(layering: Seq<Seq<NodeIndex>>, v: NodeIndex, init: Option<usize>, r: int) -> Option<usize>
    decreases r,
{
    if r <= 0 {
        init
    } else {
        let p = last_at(layering[r - 1], v, layering[r - 1].len() as int);
        if p >= 0 {
            Some(p as usize)
        } else {
            order_after(layering, v, init, r - 1)
        }
    }
}

/// The order of `v` after the first `r` layers and the first `k` slots of
/// layer `r`.
pub open spec fn order_mid(layering: Seq<Seq<NodeIndex>>, v: NodeIndex, init: Option<usize>, r: int, k: int) -> Option<usize> {
    let p = last_at(layering[r], v, k);
    if p >= 0 {
        Some(p as usize)
    } else {
        order_after(layering, v, init, r)
    }
}

/// Writes the position of every node in its layer as its order; a node
/// listed more than once keeps its last position. Placeholders and
/// indices of other graphs are skipped.
pub fn assign_order(graph: &mut Graph, layering: &Vec<Vec<NodeIndex>>)
    requires
        old(graph).wf(),
    ensures
        final(graph).n() == old(graph).n(),
        final(graph).entries() == old(graph).entries(),
        final(graph).id() == old(graph).id(),
        final(graph).config_spec() == old(graph).config_spec(),
        forall|i: int|
            0 <= i < old(graph).n() ==> #[trigger] final(graph).node_seq()[i] == (NodeLabel {
                order: order_after(
                    layering@.map_values(|l: Vec<NodeIndex>| l@),
                    old(graph).node_at(i),
                    old(graph).node_seq()[i].order,
                    layering@.len() as int,
                ),
                ..old(graph).node_seq()[i]
            }),
{
    let ghost g0 = *graph;
    let ghost ls = layering@.map_values(|l: Vec<NodeIndex>| l@);
    let mut r: usize = 0;
    while r < layering.len()
        invariant
            r <= layering@.len(),
            ls == layering@.map_values(|l: Vec<NodeIndex>| l@),
            graph.n() == g0.n(),
            g0.wf(),
            graph.entries() == g0.entries(),
            graph.id() == g0.id(),
            graph.config_spec() == g0.config_spec(),
            forall|i: int|
                0 <= i < g0.n() ==> #[trigger] graph.node_seq()[i] == (NodeLabel {
                    order: order_after(ls, g0.node_at(i), g0.node_seq()[i].order, r as int),
                    ..g0.node_seq()[i]
                }),
        decreases layering@.len() - r,
    {
        let layer = &layering[r];
        proof {
            assert(ls[r as int] == layer@);
        }
        let mut k: usize = 0;
        while k < layer.len()
            invariant
                r < layering@.len(),
                k <= layer@.len(),
                ls == layering@.map_values(|l: Vec<NodeIndex>| l@),
                ls[r as int] == layer@,
                graph.n() == g0.n(),
                g0.wf(),
                graph.entries() == g0.entries(),
                graph.id() == g0.id(),
                graph.config_spec() == g0.config_spec(),
                forall|i: int|
                    0 <= i < g0.n() ==> #[trigger] graph.node_seq()[i] == (NodeLabel {
                        order: order_mid(ls, g0.node_at(i), g0.node_seq()[i].order, r as int, k as int),
                        ..g0.node_seq()[i]
                    }),
            decreases layer@.len() - k,
        {
            let node_id = layer[k];
            let ghost gb = *graph;
            if !is_placeholder(node_id) && node_id.belongs_to_graph(graph.graph_id()) {
                if let Some(label) = graph.node_label_mut(node_id) {
                    label.order = Some(k);
                }
            }
            proof {
                assert forall|i: int| 0 <= i < g0.n() implies #[trigger] graph.node_seq()[i] == (NodeLabel {
                    order: order_mid(ls, g0.node_at(i), g0.node_seq()[i].order, r as int, k + 1),
                    ..g0.node_seq()[i]
                }) by {
                    assert(gb.node_seq()[i] == (NodeLabel {
                        order: order_mid(ls, g0.node_at(i), g0.node_seq()[i].order, r as int, k as int),
                        ..g0.node_seq()[i]
                    }));
                    if node_id == g0.node_at(i) {
                        assert(node_id.node_index == i);
                    }
                }
            }
            k += 1;
        }
        proof {
            assert forall|i: int| 0 <= i < g0.n() implies #[trigger] graph.node_seq()[i] == (NodeLabel {
                order: order_after(ls, g0.node_at(i), g0.node_seq()[i].order, r + 1),
                ..g0.node_seq()[i]
            }) by {
                assert(graph.node_seq()[i] == (NodeLabel {
                    order: order_mid(ls, g0.node_at(i), g0.node_seq()[i].order, r as int, k as int),
                    ..g0.node_seq()[i]
                }));
            }
        }
        r += 1;
    }
}

/// The order of node `v`, 0 when it has none.
pub open spec fn order_key(g: &Graph, v: NodeIndex) -> int {
    if g.contains_node(v) {
        match g.label_of(v).order {
            Some(o) => o as int,
            None => 0,
        }
    } else {
        0
    }
}

/// `s` is ordered by `order_key`, nodes of equal key by position.
pub open spec fn stably_ordered(g: &Graph, s: Seq<NodeIndex>) -> bool {
    forall|a: int, b: int|
        0 <= a < b < s.len() ==> order_key(g, #[trigger] s[a]) < order_key(g, #[trigger] s[b]) || (order_key(g, s[a])
            == order_key(g, s[b]) && s[a].node_index < s[b].node_index)
}

/// Layer `s` holds exactly the nodes of `g` of rank `r`, each once.
pub open spec fn rank_layer(g: &Graph, s: Seq<NodeIndex>, r: int) -> bool {
    &&& forall|k: int| 0 <= k < s.len() ==> g.contains_node(#[trigger] s[k]) && g.label_of(s[k]).rank == Some(r as i32)
    &&& forall|a: int, b: int| 0 <= a < b < s.len() ==> #[trigger] s[a] != #[trigger] s[b]
    &&& forall|i: int| 0 <= i < g.n() && (#[trigger] g.node_seq()[i]).rank == Some(r as i32) ==> s.contains(g.node_at(i))
}

/// The nodes of rank `rank`, ordered by their order (0 when unset), nodes
/// of equal order by position.
pub(crate) fn layer_of_rank(graph: &Graph, rank: i32) -> (r: Vec<NodeIndex>)
    requires
        graph.wf(),
    ensures
        rank_layer(graph, r@, rank as int),
        stably_ordered(graph, r@),
{
    let n = graph.node_count();
    let id = graph.graph_id();
    let mut res: Vec<NodeIndex> = Vec::new();
    let mut i: usize = 0;
    while i < n
        invariant
            graph.wf(),
            n == graph.n(),
            id == graph.id(),
            i <= n,
            forall|k: int| 0 <= k < res@.len() ==> graph.contains_node(#[trigger] res@[k]) && graph.label_of(res@[k]).rank == Some(rank)
                && res@[k].node_index < i,
            forall|j: int| 0 <= j < i && (#[trigger] graph.node_seq()[j]).rank == Some(rank) ==> res@.contains(graph.node_at(j)),
            stably_ordered(graph, res@),
        decreases n - i,
    {
        let v = NodeIndex { node_index: i, which_graph: id };
        let label = graph.node_label(v).unwrap();
        if label.rank == Some(rank) {
            let kx: usize = match label.order {
                Some(o) => o,
                None => 0,
            };
            proof {
                assert(order_key(graph, v) == kx);
            }
            let mut p: usize = res.len();
            while p > 0
                invariant
                    graph.wf(),
                    id == graph.id(),
                    p <= res@.len(),
                    forall|k: int| p <= k < res@.len() ==> order_key(graph, #[trigger] res@[k]) > kx,
                    forall|k: int| 0 <= k < res@.len() ==> graph.contains_node(#[trigger] res@[k]),
                ensures
                    p <= res@.len(),
                    forall|k: int| p <= k < res@.len() ==> order_key(graph, #[trigger] res@[k]) > kx,
                    p == 0 || order_key(graph, res@[p - 1]) <= kx,
                decreases p,
            {
                let y = res[p - 1];
                let ky: usize = match graph.node_label(y) {
                    Some(l) => match l.order {
                        Some(o) => o,
                        None => 0,
                    },
                    None => 0,
                };
                if ky <= kx {
                    break;
                }
                p -= 1;
            }
            let ghost pre = res@;
            res.insert(p, v);
            proof {
                let nw = res@;
                assert(nw == pre.insert(p as int, v));
                assert forall|a: int, b: int| 0 <= a < b < nw.len() implies order_key(graph, #[trigger] nw[a]) < order_key(graph, #[trigger] nw[b])
                    || (order_key(graph, nw[a]) == order_key(graph, nw[b]) && nw[a].node_index < nw[b].node_index) by {
                    if b < p {
                        assert(nw[a] == pre[a] && nw[b] == pre[b]);
                    } else if b == p {
                        assert(nw[a] == pre[a]);
                        assert(order_key(graph, pre[a]) <= order_key(graph, pre[p - 1])) by {
                            if a < p - 1 {
                                assert(order_key(graph, pre[a]) < order_key(graph, pre[p - 1]) || order_key(graph, pre[a]) == order_key(graph, pre[p - 1]));
                            }
                        }
                    } else if a < p {
                        assert(nw[a] == pre[a] && nw[b] == pre[b - 1]);
                    } else if a == p {
                        assert(nw[b] == pre[b - 1]);
                    } else {
                        assert(nw[a] == pre[a - 1] && nw[b] == pre[b - 1]);
                    }
                }
                assert forall|k: int| 0 <= k < nw.len() implies graph.contains_node(#[trigger] nw[k]) && graph.label_of(nw[k]).rank == Some(rank)
                    && nw[k].node_index < i + 1 by {
                    if k < p {
                        assert(nw[k] == pre[k]);
                    } else if k > p {
                        assert(nw[k] == pre[k - 1]);
                    }
                }
                assert forall|j: int| 0 <= j < i + 1 && (#[trigger] graph.node_seq()[j]).rank == Some(rank) implies nw.contains(graph.node_at(j)) by {
                    if j < i {
                        assert(pre.contains(graph.node_at(j)));
                        let q = choose|q: int| 0 <= q < pre.len() && pre[q] == graph.node_at(j);
                        if q < p {
                            assert(nw[q] == pre[q]);
                        } else {
                            assert(nw[q + 1] == pre[q]);
                        }
                    } else {
                        assert(graph.node_at(j) == v);
                        assert(nw[p as int] == v);
                    }
                }
            }
        }
        i += 1;
    }
    proof {
        assert forall|a: int, b: int| 0 <= a < b < res@.len() implies #[trigger] res@[a] != #[trigger] res@[b] by {
            if res@[a] == res@[b] {
                assert(false);
            }
        }
    }
    res
}

/// One layer per rank from 0 to the greatest rank (0 when every rank is
/// negative or no node has one): the nodes of that rank by their order.
pub fn build_layers(graph: &Graph) -> (r: Vec<Vec<NodeIndex>>)
    requires
        graph.wf(),
    ensures
        r@.len() == crate::layout::max_rank_from_zero(graph, graph.n() as int) + 1,
        forall|k: int| 0 <= k < r@.len() ==> rank_layer(graph, (#[trigger] r@[k])@, k) && stably_ordered(graph, r@[k]@),
{
    let n = graph.node_count();
    let id = graph.graph_id();
    let mut max_rank: i32 = 0;
    let mut i: usize = 0;
    while i < n
        invariant
            n == graph.n(),
            id == graph.id(),
            i <= n,
            max_rank == crate::layout::max_rank_from_zero(graph, i as int),
        decreases n - i,
    {
        let v = NodeIndex { node_index: i, which_graph: id };
        if let Some(label) = graph.node_label(v) {
            if let Some(rank) = label.rank {
                if rank > max_rank {
                    max_rank = rank;
                }
            }
        }
        i += 1;
    }
    proof {
        crate::layout::lemma_max_rank_from_zero_bounds(graph, n as int);
    }
    let mut layers: Vec<Vec<NodeIndex>> = Vec::new();
    let mut rank: i64 = 0;
    while rank <= max_rank as i64
        invariant
            graph.wf(),
            0 <= rank <= max_rank + 1,
            0 <= max_rank,
            layers@.len() == rank,
            forall|k: int| 0 <= k < layers@.len() ==> rank_layer(graph, (#[trigger] layers@[k])@, k) && stably_ordered(graph, layers@[k]@),
        decreases max_rank + 1 - rank,
    {
        let layer = layer_of_rank(graph, rank as i32);
        layers.push(layer);
        rank += 1;
    }
    layers
}

} // verus!
