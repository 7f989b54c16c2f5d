//! Initial orders that sort each rank of the layer matrix by a key of its
//! nodes: by degree, by the weight of their edges, by their number of
//! predecessors, or by a hash of the node.
//!
//! Every sort is stable: nodes with equal keys keep the order the layer
//! matrix gives them.
use vstd::prelude::*;
use crate::graph::Graph;
use crate::types::{Edge, NodeIndex};
use crate::util::{build_layer_matrix, layer_matrix, rank_spread_below};
use std::collections::hash_map::DefaultHasher;
use std::hash::Hash;
use std::hash::Hasher;

use crate::util::PLACEHOLDER_GRAPH_ID;

verus! {

/// The position before which a key `k` goes among the keyed nodes `s`:
/// the first one with a greater key, or the end.
pub open spec fn first_greater<T>(s: Seq<(u128, T)>, k: u128) -> int
    decreases s.len(),
{
    if s.len() == 0 {
        0
    } else if s[0].0 > k {
        0
    } else {
        1 + first_greater(s.drop_first(), k)
    }
}

/// The first `n` keyed nodes of `s` sorted by key, each inserted after the
/// nodes with a key not greater than its own.
pub open spec fn stable_sorted<T>(s: Seq<(u128, T)>, n: int) -> Seq<(u128, T)>
    decreases n,
{
    if n <= 0 {
        Seq::empty()
    } else {
        let prev = stable_sorted(s, n - 1);
        prev.insert(first_greater(prev, s[n - 1].0), s[n - 1])
    }
}

/// The nodes of `layer`, the node at position `i` with key `keys[i]`,
/// sorted stably by key.
pub open spec fn sorted_by_keys(layer: Seq<NodeIndex>, keys: Seq<u128>) -> Seq<NodeIndex> {
    stable_sorted(Seq::new(layer.len(), |i: int| (keys[i], layer[i])), layer.len() as int).map_values(
        |p: (u128, NodeIndex)| p.1,
    )
}

/// `out` is `layer` sorted stably by some keys of its nodes.
pub open spec fn sorted_by_some_keys(layer: Seq<NodeIndex>, out: Seq<NodeIndex>) -> bool {
    exists|keys: Seq<u128>| keys.len() == layer.len() && out == #[trigger] sorted_by_keys(layer, keys)
}

/// The nodes of `layer` sorted stably by `key`.
pub open spec fn sorted_by_key(layer: Seq<NodeIndex>, key: spec_fn(NodeIndex) -> u128) -> Seq<NodeIndex> {
    sorted_by_keys(layer, layer.map_values(|v: NodeIndex| key(v)))
}

proof fn lemma_first_greater<T>(s: Seq<(u128, T)>, k: u128, p: int)
    requires
        0 <= p <= s.len(),
        forall|j: int| 0 <= j < p ==> (#[trigger] s[j]).0 <= k,
        p == s.len() || s[p].0 > k,
    ensures
        first_greater(s, k) == p,
    decreases p,
{
    if p > 0 {
        assert forall|j: int| 0 <= j < p - 1 implies (#[trigger] s.drop_first()[j]).0 <= k by {
            assert(s.drop_first()[j] == s[j + 1]);
        }
        if p < s.len() {
            assert(s.drop_first()[p - 1] == s[p]);
        }
        lemma_first_greater(s.drop_first(), k, p - 1);
    }
}

pub proof fn lemma_stable_sorted_len<T>(s: Seq<(u128, T)>, n: int)
    requires
        0 <= n,
    ensures
        stable_sorted(s, n).len() == n,
    decreases n,
{
    if n > 0 {
        lemma_stable_sorted_len(s, n - 1);
        lemma_first_greater_range(stable_sorted(s, n - 1), s[n - 1].0);
    }
}

proof fn lemma_first_greater_range<T>(s: Seq<(u128, T)>, k: u128)
    ensures
        0 <= first_greater(s, k) <= s.len(),
    decreases s.len(),
{
    if s.len() > 0 && s[0].0 <= k {
        lemma_first_greater_range(s.drop_first(), k);
    }
}

/// The keyed nodes sorted stably by key.
pub fn sort_keyed<T: Copy>(pairs: &Vec<(u128, T)>) -> (r: Vec<(u128, T)>)
    ensures
        r@ == stable_sorted(pairs@, pairs@.len() as int),
{
    let mut r: Vec<(u128, T)> = Vec::new();
    let mut i: usize = 0;
    while i < pairs.len()
        invariant
            i <= pairs@.len(),
            r@ == stable_sorted(pairs@, i as int),
        decreases pairs@.len() - i,
    {
        let x = pairs[i];
        proof {
            lemma_stable_sorted_len(pairs@, i as int);
        }
        let mut p: usize = 0;
        while p < r.len() && r[p].0 <= x.0
            invariant
                p <= r@.len(),
                forall|j: int| 0 <= j < p ==> (#[trigger] r@[j]).0 <= x.0,
            decreases r@.len() - p,
        {
            p += 1;
        }
        proof {
            lemma_first_greater(r@, x.0, p as int);
        }
        r.insert(p, x);
        i += 1;
    }
    r
}

/// The nodes of `layer` with their keys in `keys`, sorted stably by key.
pub(crate) fn sort_layer(layer: &Vec<NodeIndex>, keys: &Vec<u128>) -> (r: Vec<NodeIndex>)
    requires
        keys@.len() == layer@.len(),
    ensures
        r@ == sorted_by_keys(layer@, keys@),
{
    let mut pairs: Vec<(u128, NodeIndex)> = Vec::new();
    let mut i: usize = 0;
    while i < layer.len()
        invariant
            keys@.len() == layer@.len(),
            i <= layer@.len(),
            pairs@ == Seq::new(i as nat, |j: int| (keys@[j], layer@[j])),
        decreases layer@.len() - i,
    {
        pairs.push((keys[i], layer[i]));
        proof {
            assert(Seq::new((i + 1) as nat, |j: int| (keys@[j], layer@[j])) =~= Seq::new(i as nat, |j: int| (keys@[j], layer@[j])).push((keys@[i as int], layer@[i as int])));
        }
        i += 1;
    }
    let sorted = sort_keyed(&pairs);
    let mut r: Vec<NodeIndex> = Vec::new();
    let mut j: usize = 0;
    while j < sorted.len()
        invariant
            j <= sorted@.len(),
            r@ == sorted@.take(j as int).map_values(|p: (u128, NodeIndex)| p.1),
        decreases sorted@.len() - j,
    {
        r.push(sorted[j].1);
        proof {
            assert(sorted@.take(j + 1).map_values(|p: (u128, NodeIndex)| p.1) =~= sorted@.take(j as int).map_values(
                |p: (u128, NodeIndex)| p.1,
            ).push(sorted@[j as int].1));
        }
        j += 1;
    }
    proof {
        assert(sorted@.take(sorted@.len() as int) =~= sorted@);
    }
    r
}

/// The number of edges entering and leaving `v` (a loop counts twice).
pub open spec fn degree(g: &Graph, v: NodeIndex) -> int {
    (g.in_edges_spec(v).len() + g.out_edges_spec(v).len()) as int
}

/// The sum of the weights of the edges `es` of `g`.
pub open spec fn weight_sum(g: &Graph, es: Seq<Edge>) -> int
    decreases es.len(),
{
    if es.len() == 0 {
        0
    } else {
        weight_sum(g, es.drop_last()) + g.edge_label_spec(es.last()).weight
    }
}

/// The total weight of the edges entering and leaving `v`.
pub open spec fn node_weight(g: &Graph, v: NodeIndex) -> int {
    weight_sum(g, g.in_edges_spec(v)) + weight_sum(g, g.out_edges_spec(v))
}

/// A node of `g` (not a placeholder): sorted by its key; any other index
/// keeps its place among equals.
pub open spec fn own_node(g: &Graph, v: NodeIndex) -> bool {
    v.which_graph == g.id() && v.which_graph != PLACEHOLDER_GRAPH_ID
}

/// Key that puts nodes of larger degree first.
pub open spec fn degree_key(g: &Graph) -> spec_fn(NodeIndex) -> u128 {
    |v: NodeIndex| if own_node(g, v) { (u128::MAX - degree(g, v)) as u128 } else { u128::MAX }
}

/// Key that puts nodes of larger edge weight first.
pub open spec fn weight_key(g: &Graph) -> spec_fn(NodeIndex) -> u128 {
    |v: NodeIndex| if own_node(g, v) { (u128::MAX - node_weight(g, v)) as u128 } else { u128::MAX }
}

/// Key that puts nodes with fewer predecessors first.
pub open spec fn predecessor_key(g: &Graph) -> spec_fn(NodeIndex) -> u128 {
    |v: NodeIndex| g.in_edges_spec(v).len() as u128
}

proof fn lemma_weight_sum_bound(g: &Graph, es: Seq<Edge>)
    ensures
        0 <= weight_sum(g, es) <= es.len() * 0xffff_ffff,
    decreases es.len(),
{
    if es.len() > 0 {
        lemma_weight_sum_bound(g, es.drop_last());
    }
}

/// The total weight of the edges `es`.
fn sum_weights(graph: &Graph, es: &Vec<Edge>) -> (r: u128)
    requires
        forall|k: int| 0 <= k < es@.len() ==> graph.has_edge_spec(#[trigger] es@[k]),
    ensures
        r == weight_sum(graph, es@),
{
    let mut total: u128 = 0;
    let mut i: usize = 0;
    while i < es.len()
        invariant
            forall|k: int| 0 <= k < es@.len() ==> graph.has_edge_spec(#[trigger] es@[k]),
            i <= es@.len(),
            total == weight_sum(graph, es@.take(i as int)),
        decreases es@.len() - i,
    {
        proof {
            assert(es@.take(i + 1).drop_last() =~= es@.take(i as int));
            lemma_weight_sum_bound(graph, es@.take(i as int));
            assert(i * 0xffff_ffff <= 0xffff_ffff_ffff_ffff * 0xffff_ffff) by (nonlinear_arith)
                requires
                    i <= 0xffff_ffff_ffff_ffff,
            ;
        }
        let w: u128 = match graph.edge_label(&es[i]) {
            Some(l) => l.weight as u128,
            None => 0,
        };
        total = total + w;
        i += 1;
    }
    proof {
        assert(es@.take(es@.len() as int) =~= es@);
    }
    total
}

/// The keys of the nodes of `layer` under the chosen rule.
pub(crate) fn layer_keys(graph: &Graph, layer: &Vec<NodeIndex>, rule: u8) -> (r: Vec<u128>)
    requires
        graph.wf(),
        rule < 3,
    ensures
        r@.len() == layer@.len(),
        forall|i: int| 0 <= i < layer@.len() ==> #[trigger] r@[i] == (if rule == 0 {
            degree_key(graph)
        } else if rule == 1 {
            weight_key(graph)
        } else {
            predecessor_key(graph)
        })(layer@[i]),
{
    let ghost key = if rule == 0 {
        degree_key(graph)
    } else if rule == 1 {
        weight_key(graph)
    } else {
        predecessor_key(graph)
    };
    let mut keys: Vec<u128> = Vec::new();
    let mut i: usize = 0;
    while i < layer.len()
        invariant
            graph.wf(),
            rule < 3,
            key == (if rule == 0 {
                degree_key(graph)
            } else if rule == 1 {
                weight_key(graph)
            } else {
                predecessor_key(graph)
            }),
            i <= layer@.len(),
            keys@.len() == i,
            forall|j: int| 0 <= j < i ==> #[trigger] keys@[j] == key(layer@[j]),
        decreases layer@.len() - i,
    {
        let v = layer[i];
        let own = v.which_graph == graph.graph_id() && v.which_graph != PLACEHOLDER_GRAPH_ID;
        let k: u128 = if rule == 2 {
            if v.which_graph == graph.graph_id() {
                graph.predecessors(v).len() as u128
            } else {
                proof {
                    assert(graph.in_edges_spec(v).len() == 0) by {
                        if graph.in_edges_spec(v).len() > 0 {
                            crate::graph::lemma_incident_index(graph.entries(), v, false, 0);
                            let x = choose|x: int| 0 <= x < graph.entries().len() && #[trigger] graph.entries()[x].0 == graph.in_edges_spec(v)[0];
                            assert(graph.contains_node(graph.entries()[x].0.source));
                            assert(graph.contains_node(graph.entries()[x].0.target));
                        }
                    }
                }
                0
            }
        } else if !own {
            u128::MAX
        } else if rule == 0 {
            let d = graph.in_edges(v).len() as u128 + graph.out_edges(v).len() as u128;
            u128::MAX - d
        } else {
            let ins = graph.in_edges(v);
            let outs = graph.out_edges(v);
            proof {
                crate::rank::network_simplex::lemma_incident_facts(graph, v);
            }
            let a = sum_weights(graph, &ins);
            let b = sum_weights(graph, &outs);
            proof {
                lemma_weight_sum_bound(graph, ins@);
                lemma_weight_sum_bound(graph, outs@);
                assert(ins@.len() * 0xffff_ffff <= 0xffff_ffff_ffff_ffff * 0xffff_ffff) by (nonlinear_arith)
                    requires
                        ins@.len() <= 0xffff_ffff_ffff_ffff,
                ;
                assert(outs@.len() * 0xffff_ffff <= 0xffff_ffff_ffff_ffff * 0xffff_ffff) by (nonlinear_arith)
                    requires
                        outs@.len() <= 0xffff_ffff_ffff_ffff,
                ;
            }
            u128::MAX - (a + b)
        };
        keys.push(k);
        i += 1;
    }
    keys
}

/// The layer matrix with each layer sorted stably under the chosen rule.
fn sorted_matrix(graph: &Graph, rule: u8) -> (r: Vec<Vec<NodeIndex>>)
    requires
        graph.wf(),
        rule < 3,
        rank_spread_below(graph),
        forall|i: int| 0 <= i < graph.n() ==> ((#[trigger] graph.node_seq()[i]).order matches Some(o) ==> o < usize::MAX),
    ensures
        r@.len() == layer_matrix(graph).len(),
        forall|i: int| 0 <= i < r@.len() ==> (#[trigger] r@[i])@ == sorted_by_key(layer_matrix(graph)[i], if rule == 0 {
            degree_key(graph)
        } else if rule == 1 {
            weight_key(graph)
        } else {
            predecessor_key(graph)
        }),
{
    let ghost key = if rule == 0 {
        degree_key(graph)
    } else if rule == 1 {
        weight_key(graph)
    } else {
        predecessor_key(graph)
    };
    let matrix = build_layer_matrix(graph);
    let mut r: Vec<Vec<NodeIndex>> = Vec::new();
    let mut i: usize = 0;
    while i < matrix.len()
        invariant
            graph.wf(),
            rule < 3,
            key == (if rule == 0 {
                degree_key(graph)
            } else if rule == 1 {
                weight_key(graph)
            } else {
                predecessor_key(graph)
            }),
            matrix@.len() == layer_matrix(graph).len(),
            forall|k: int| 0 <= k < matrix@.len() ==> (#[trigger] matrix@[k])@ == layer_matrix(graph)[k],
            i <= matrix@.len(),
            r@.len() == i,
            forall|k: int| 0 <= k < i ==> (#[trigger] r@[k])@ == sorted_by_key(layer_matrix(graph)[k], key),
        decreases matrix@.len() - i,
    {
        let keys = layer_keys(graph, &matrix[i], rule);
        let sorted = sort_layer(&matrix[i], &keys);
        proof {
            assert(keys@ =~= matrix@[i as int]@.map_values(|v: NodeIndex| key(v)));
        }
        r.push(sorted);
        i += 1;
    }
    r
}

/// `Hash::hash` of a node index into `h`: what it feeds in is left unsaid
/// (it depends on the machine's byte order).
#[verifier::external_body]
fn feed_node(v: &NodeIndex, h: &mut DefaultHasher) {
    v.hash(h)
}

/// The layer matrix with each layer sorted stably by a hash of each node:
/// a shuffle that is the same for the same nodes within one build.
pub fn init_order_random(graph: &Graph) -> (r: Vec<Vec<NodeIndex>>)
    requires
        graph.wf(),
        rank_spread_below(graph),
        forall|i: int| 0 <= i < graph.n() ==> ((#[trigger] graph.node_seq()[i]).order matches Some(o) ==> o < usize::MAX),
    ensures
        r@.len() == layer_matrix(graph).len(),
        forall|i: int| 0 <= i < r@.len() ==> sorted_by_some_keys(layer_matrix(graph)[i], (#[trigger] r@[i])@),
{
    let matrix = build_layer_matrix(graph);
    let mut r: Vec<Vec<NodeIndex>> = Vec::new();
    let mut i: usize = 0;
    while i < matrix.len()
        invariant
            matrix@.len() == layer_matrix(graph).len(),
            forall|k: int| 0 <= k < matrix@.len() ==> (#[trigger] matrix@[k])@ == layer_matrix(graph)[k],
            i <= matrix@.len(),
            r@.len() == i,
            forall|k: int| 0 <= k < i ==> sorted_by_some_keys(layer_matrix(graph)[k], (#[trigger] r@[k])@),
        decreases matrix@.len() - i,
    {
        let layer = &matrix[i];
        let mut keys: Vec<u128> = Vec::new();
        let mut j: usize = 0;
        while j < layer.len()
            invariant
                j <= layer@.len(),
                keys@.len() == j,
            decreases layer@.len() - j,
        {
            let mut h = DefaultHasher::new();
            feed_node(&layer[j], &mut h);
            keys.push(h.finish() as u128);
            j += 1;
        }
        let sorted = sort_layer(layer, &keys);
        proof {
            assert(keys@.len() == layer_matrix(graph)[i as int].len() && sorted@ == sorted_by_keys(layer_matrix(graph)[i as int], keys@));
            assert(sorted_by_some_keys(layer_matrix(graph)[i as int], sorted@));
        }
        r.push(sorted);
        i += 1;
    }
    r
}

/// The layer matrix with each layer sorted by degree, largest first.
pub fn init_order_by_degree(graph: &Graph) -> (r: Vec<Vec<NodeIndex>>)
    requires
        graph.wf(),
        rank_spread_below(graph),
        forall|i: int| 0 <= i < graph.n() ==> ((#[trigger] graph.node_seq()[i]).order matches Some(o) ==> o < usize::MAX),
    ensures
        r@.len() == layer_matrix(graph).len(),
        forall|i: int| 0 <= i < r@.len() ==> (#[trigger] r@[i])@ == sorted_by_key(layer_matrix(graph)[i], degree_key(graph)),
{
    sorted_matrix(graph, 0)
}

/// The layer matrix with each layer sorted by the total weight of the
/// edges at each node, heaviest first.
pub fn init_order_by_weight(graph: &Graph) -> (r: Vec<Vec<NodeIndex>>)
    requires
        graph.wf(),
        rank_spread_below(graph),
        forall|i: int| 0 <= i < graph.n() ==> ((#[trigger] graph.node_seq()[i]).order matches Some(o) ==> o < usize::MAX),
    ensures
        r@.len() == layer_matrix(graph).len(),
        forall|i: int| 0 <= i < r@.len() ==> (#[trigger] r@[i])@ == sorted_by_key(layer_matrix(graph)[i], weight_key(graph)),
{
    sorted_matrix(graph, 1)
}

/// The layer matrix with each layer sorted by number of predecessors,
/// fewest first.
pub fn init_order_topological(graph: &Graph) -> (r: Vec<Vec<NodeIndex>>)
    requires
        graph.wf(),
        rank_spread_below(graph),
        forall|i: int| 0 <= i < graph.n() ==> ((#[trigger] graph.node_seq()[i]).order matches Some(o) ==> o < usize::MAX),
    ensures
        r@.len() == layer_matrix(graph).len(),
        forall|i: int| 0 <= i < r@.len() ==> (#[trigger] r@[i])@ == sorted_by_key(layer_matrix(graph)[i], predecessor_key(graph)),
{
    sorted_matrix(graph, 2)
}

} // verus!
