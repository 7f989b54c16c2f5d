//! The initial order of the nodes of each rank: a depth-first search from
//! the nodes taken by increasing rank.
use vstd::prelude::*;
use crate::graph::Graph;
use crate::types::NodeIndex;
use crate::util::{max_rank, max_rank_spec, has_ranked, is_max_rank, lemma_max_rank_spec};

verus! {

/// The rank of node `v`, 0 when it has none.
pub open spec fn rank_key(g: &Graph, v: NodeIndex) -> int {
    if g.contains_node(v) {
        match g.label_of(v).rank {
            Some(r) => r as int,
            None => 0,
        }
    } else {
        0
    }
}

/// `s` is ordered by `rank_key`.
pub open spec fn sorted_by_rank(g: &Graph, s: Seq<NodeIndex>) -> bool {
    forall|a: int, b: int| 0 <= a < b < s.len() ==> rank_key(g, #[trigger] s[a]) <= rank_key(g, #[trigger] s[b])
}

/// `s` with `x` put after the last entry whose rank is at most that of
/// `x`, and before the entries after it.
pub open spec fn rank_insert(g: &Graph, s: Seq<NodeIndex>, x: NodeIndex) -> Seq<NodeIndex>
    decreases s.len(),
{
    if s.len() == 0 || rank_key(g, s.last()) <= rank_key(g, x) {
        s.push(x)
    } else {
        rank_insert(g, s.drop_last(), x).push(s.last())
    }
}

/// The first `i` entries of `nodes` sorted by rank, each inserted in turn:
/// nodes of equal rank keep their order.
pub open spec fn rank_sorted(g: &Graph, nodes: Seq<NodeIndex>, i: int) -> Seq<NodeIndex>
    decreases i,
{
    if i <= 0 {
        Seq::empty()
    } else {
        rank_insert(g, rank_sorted(g, nodes, i - 1), nodes[i - 1])
    }
}

proof fn lemma_rank_insert_at(g: &Graph, s: Seq<NodeIndex>, x: NodeIndex, p: int)
    requires
        0 <= p <= s.len(),
        forall|k: int| p <= k < s.len() ==> rank_key(g, #[trigger] s[k]) > rank_key(g, x),
        p == 0 || rank_key(g, s[p - 1]) <= rank_key(g, x),
    ensures
        rank_insert(g, s, x) == s.insert(p, x),
    decreases s.len(),
{
    if s.len() == p {
        assert(s.insert(p, x) =~= s.push(x));
    } else {
        let t = s.drop_last();
        assert(rank_key(g, s[s.len() - 1]) > rank_key(g, x));
        lemma_rank_insert_at(g, t, x, p);
        assert(s.insert(p, x) =~= t.insert(p, x).push(s.last()));
    }
}

/// `nodes` ordered by rank; nodes of equal rank keep their order.
fn sort_by_rank(graph: &Graph, nodes: &Vec<NodeIndex>) -> (r: Vec<NodeIndex>)
    requires
        forall|i: int| 0 <= i < nodes@.len() ==> (#[trigger] nodes@[i]).which_graph == graph.id(),
    ensures
        r@.len() == nodes@.len(),
        r@ == rank_sorted(graph, nodes@, nodes@.len() as int),
        sorted_by_rank(graph, r@),
        forall|i: int| 0 <= i < nodes@.len() ==> r@.contains(#[trigger] nodes@[i]),
        forall|i: int| 0 <= i < r@.len() ==> nodes@.contains(#[trigger] r@[i]),
{
    let mut res: Vec<NodeIndex> = Vec::new();
    let mut i: usize = 0;
    while i < nodes.len()
        invariant
            i <= nodes@.len(),
            res@.len() == i,
            res@ == rank_sorted(graph, nodes@, i as int),
            forall|k: int| 0 <= k < nodes@.len() ==> (#[trigger] nodes@[k]).which_graph == graph.id(),
            sorted_by_rank(graph, res@),
            forall|k: int| 0 <= k < i ==> res@.contains(#[trigger] nodes@[k]),
            forall|k: int| 0 <= k < res@.len() ==> nodes@.take(i as int).contains(#[trigger] res@[k]),
        decreases nodes@.len() - i,
    {
        let x = nodes[i];
        let kx = match graph.node_label(x) {
            Some(l) => match l.rank {
                Some(r) => r,
                None => 0,
            },
            None => 0,
        };
        // the first place after every node of rank at most that of `x`
        let mut p: usize = res.len();
        while p > 0
            invariant
                p <= res@.len(),
                forall|k: int| p <= k < res@.len() ==> rank_key(graph, #[trigger] res@[k]) > kx,
                forall|k: int| 0 <= k < res@.len() ==> (#[trigger] res@[k]).which_graph == graph.id(),
            ensures
                p <= res@.len(),
                forall|k: int| p <= k < res@.len() ==> rank_key(graph, #[trigger] res@[k]) > kx,
                p == 0 || rank_key(graph, res@[p - 1]) <= kx,
            decreases p,
        {
            let y = res[p - 1];
            let ky = match graph.node_label(y) {
                Some(l) => match l.rank {
                    Some(r) => r,
                    None => 0,
                },
                None => 0,
            };
            if ky <= kx {
                break;
            }
            p -= 1;
        }
        let ghost pre = res@;
        proof {
            assert(rank_key(graph, x) == kx);
        }
        res.insert(p, x);
        proof {
            lemma_rank_insert_at(graph, pre, x, p as int);
            let nw = res@;
            assert(nw == pre.insert(p as int, x));
            assert forall|a: int, b: int| 0 <= a < b < nw.len() implies rank_key(graph, #[trigger] nw[a]) <= rank_key(graph, #[trigger] nw[b]) by {
                if b < p {
                    assert(nw[a] == pre[a] && nw[b] == pre[b]);
                } else if b == p {
                    assert(nw[a] == pre[a]);
                    assert(rank_key(graph, pre[a]) <= rank_key(graph, pre[p - 1]));
                } else if a < p {
                    assert(nw[a] == pre[a] && nw[b] == pre[b - 1]);
                    assert(rank_key(graph, pre[a]) <= rank_key(graph, pre[b - 1]));
                } else if a == p {
                    assert(nw[b] == pre[b - 1]);
                } else {
                    assert(nw[a] == pre[a - 1] && nw[b] == pre[b - 1]);
                }
            }
            assert(nodes@.take(i + 1) =~= nodes@.take(i as int).push(x));
            assert forall|k: int| 0 <= k < i + 1 implies nw.contains(#[trigger] nodes@[k]) by {
                if k < i {
                    let q = choose|q: int| 0 <= q < pre.len() && pre[q] == nodes@[k];
                    if q < p {
                        assert(nw[q] == pre[q]);
                    } else {
                        assert(nw[q + 1] == pre[q]);
                    }
                } else {
                    assert(nw[p as int] == x);
                }
            }
            assert forall|k: int| 0 <= k < nw.len() implies nodes@.take(i + 1).contains(#[trigger] nw[k]) by {
                lemma_contains_push_any(nodes@.take(i as int), x, nw[k]);
                if k < p {
                    assert(nw[k] == pre[k]);
                } else if k > p {
                    assert(nw[k] == pre[k - 1]);
                }
            }
        }
        i += 1;
    }
    proof {
        assert(nodes@.take(nodes@.len() as int) =~= nodes@);
    }
    res
}

pub proof fn lemma_contains_push_any<A>(s: Seq<A>, e: A, x: A)
    ensures
        s.push(e).contains(x) <==> s.contains(x) || x == e,
{
    if s.push(e).contains(x) {
        let i = choose|i: int| 0 <= i < s.push(e).len() && s.push(e)[i] == x;
        if i < s.len() {
            assert(s[i] == x);
        }
    }
    if s.contains(x) {
        let i = choose|i: int| 0 <= i < s.len() && s[i] == x;
        assert(s.push(e)[i] == x);
    }
    if x == e {
        assert(s.push(e)[s.len() as int] == x);
    }
}

/// The number of `false` entries.
pub open spec fn unseen(s: Seq<bool>) -> nat
    decreases s.len(),
{
    if s.len() == 0 {
        0
    } else {
        unseen(s.drop_last()) + if s.last() { 0nat } else { 1nat }
    }
}

pub proof fn lemma_unseen_set(s: Seq<bool>, i: int)
    requires
        0 <= i < s.len(),
        !s[i],
    ensures
        unseen(s.update(i, true)) + 1 == unseen(s),
    decreases s.len(),
{
    if i < s.len() - 1 {
        assert(s.update(i, true).drop_last() =~= s.drop_last().update(i, true));
        lemma_unseen_set(s.drop_last(), i);
    } else {
        assert(s.update(i, true).drop_last() =~= s.drop_last());
    }
}

pub proof fn lemma_unseen_mono(s: Seq<bool>, t: Seq<bool>)
    requires
        s.len() == t.len(),
        forall|i: int| 0 <= i < s.len() && s[i] ==> t[i],
    ensures
        unseen(t) <= unseen(s),
    decreases s.len(),
{
    if s.len() > 0 {
        lemma_unseen_mono(s.drop_last(), t.drop_last());
    }
}

/// The layers as sequences.
pub open spec fn layer_seqs(layers: Seq<Vec<NodeIndex>>) -> Seq<Seq<NodeIndex>> {
    layers.map_values(|l: Vec<NodeIndex>| l@)
}

/// Layer `r` of `layers` holds nodes of `g` of rank `r`, each once, all
/// marked in `vis`; every marked node whose rank is a layer index is in
/// that layer.
pub open spec fn layers_inv(g: &Graph, vis: Seq<bool>, layers: Seq<Seq<NodeIndex>>) -> bool {
    &&& vis.len() == g.n()
    &&& forall|r: int, k: int|
        0 <= r < layers.len() && 0 <= k < layers[r].len() ==> {
            let x = #[trigger] layers[r][k];
            &&& g.contains_node(x)
            &&& vis[x.node_index as int]
            &&& g.label_of(x).rank == Some(r as i32)
        }
    &&& forall|r: int, a: int, b: int|
        0 <= r < layers.len() && 0 <= a < b < layers[r].len() ==> #[trigger] layers[r][a] != #[trigger] layers[r][b]
    &&& forall|i: int| 0 <= i < g.n() && vis[i] ==> #[trigger] in_its_layer(g, layers, i)
}

/// Node `i`, when its rank is a layer index, is in that layer.
pub open spec fn in_its_layer(g: &Graph, layers: Seq<Seq<NodeIndex>>, i: int) -> bool {
    match g.node_seq()[i].rank {
        Some(r) => 0 <= r < layers.len() ==> layers[r as int].contains(g.node_at(i)),
        None => true,
    }
}

/// Layer `r` holds exactly the nodes of rank `r`, each once.
pub open spec fn partition_by_rank(g: &Graph, layers: Seq<Seq<NodeIndex>>) -> bool {
    &&& forall|r: int, k: int|
        0 <= r < layers.len() && 0 <= k < layers[r].len() ==> {
            let x = #[trigger] layers[r][k];
            &&& g.contains_node(x)
            &&& g.label_of(x).rank == Some(r as i32)
        }
    &&& forall|r: int, a: int, b: int|
        0 <= r < layers.len() && 0 <= a < b < layers[r].len() ==> #[trigger] layers[r][a] != #[trigger] layers[r][b]
    &&& forall|i: int| 0 <= i < g.n() ==> #[trigger] in_its_layer(g, layers, i)
}

/// The search state: the visited positions and the layers.
pub type LayerState = (Seq<bool>, Seq<Seq<NodeIndex>>);

/// `layers` with `v` appended to the layer of its rank, when that rank is
/// a layer index.
pub open spec fn place(g: &Graph, layers: Seq<Seq<NodeIndex>>, v: NodeIndex) -> Seq<Seq<NodeIndex>> {
    match g.label_of(v).rank {
        Some(r) => if 0 <= r < layers.len() {
            layers.update(r as int, layers[r as int].push(v))
        } else {
            layers
        },
        None => layers,
    }
}

/// The successors of `v`, in the order of its out-edges.
pub open spec fn succs(g: &Graph, v: NodeIndex) -> Seq<NodeIndex> {
    g.out_edges_spec(v).map_values(|e: crate::types::Edge| e.target)
}

/// The search after visiting `v`, unless visited before: `v` is marked
/// and placed in its layer, then its successors are visited in turn.
pub open spec fn layer_visit(g: &Graph, st: LayerState, v: NodeIndex, fuel: nat) -> LayerState
    decreases fuel, 0int, 0int,
{
    if fuel == 0 || st.0[v.node_index as int] {
        st
    } else {
        layer_from(g, (st.0.update(v.node_index as int, true), place(g, st.1, v)), v, 0, (fuel - 1) as nat)
    }
}

/// The search after visiting the successors of `v` from the `j`-th on.
pub open spec fn layer_from(g: &Graph, st: LayerState, v: NodeIndex, j: int, fuel: nat) -> LayerState
    decreases fuel, 1int, succs(g, v).len() - j,
{
    if j < 0 || j >= succs(g, v).len() {
        st
    } else {
        layer_from(g, layer_visit(g, st, succs(g, v)[j], fuel), v, j + 1, fuel)
    }
}

/// The search after visiting the nodes of `order` from position `k` on.
pub open spec fn layer_all(g: &Graph, st: LayerState, order: Seq<NodeIndex>, k: int) -> LayerState
    decreases order.len() - k,
{
    if k < 0 || k >= order.len() {
        st
    } else {
        layer_all(g, layer_visit(g, st, order[k], (g.n() + 1) as nat), order, k + 1)
    }
}

/// The nodes of `g` in node order.
pub open spec fn all_nodes(g: &Graph) -> Seq<NodeIndex> {
    Seq::new(g.n(), |k: int| g.node_at(k))
}

/// The search of `init_order`: one empty layer per rank from 0 to the
/// greatest rank, filled from the nodes sorted by rank.
pub open spec fn init_walk(g: &Graph) -> LayerState {
    let count = if max_rank_spec(g) >= 0 { max_rank_spec(g) + 1 } else { 0 };
    layer_all(
        g,
        (Seq::new(g.n(), |i: int| false), Seq::new(count as nat, |r: int| Seq::<NodeIndex>::empty())),
        rank_sorted(g, all_nodes(g), g.n() as int),
        0,
    )
}

/// The layers `init_order` builds.
pub open spec fn init_order_spec(g: &Graph) -> Seq<Seq<NodeIndex>> {
    init_walk(g).1
}

/// Visits `v` unless it was visited, appends it to the layer of its rank,
/// and visits its successors in turn.
fn dfs(graph: &Graph, v: NodeIndex, visited: &mut Vec<bool>, layers: &mut Vec<Vec<NodeIndex>>, Ghost(fuel): Ghost<nat>)
    requires
        graph.wf(),
        graph.contains_node(v),
        layers_inv(graph, old(visited)@, layer_seqs(old(layers)@)),
        unseen(old(visited)@) < fuel,
    ensures
        (final(visited)@, layer_seqs(final(layers)@)) == layer_visit(graph, (old(visited)@, layer_seqs(old(layers)@)), v, fuel),
        layers_inv(graph, final(visited)@, layer_seqs(final(layers)@)),
        final(layers)@.len() == old(layers)@.len(),
        final(visited)@.len() == old(visited)@.len(),
        final(visited)@[v.node_index as int],
        forall|i: int| 0 <= i < old(visited)@.len() && old(visited)@[i] ==> final(visited)@[i],
        unseen(final(visited)@) <= unseen(old(visited)@),
    decreases fuel,
{
    let vi = v.node_index;
    if visited[vi] {
        return;
    }
    let ghost vis0 = visited@;
    visited.set(vi, true);
    proof {
        lemma_unseen_set(vis0, vi as int);
    }
    let ghost l0 = layer_seqs(layers@);
    let ghost f = (fuel - 1) as nat;
    let ghost target = layer_visit(graph, (vis0, l0), v, fuel);
    let rank = match graph.node_label(v) {
        Some(l) => l.rank,
        None => None,
    };
    if let Some(r) = rank {
        if r >= 0 && (r as usize) < layers.len() {
            let ru = r as usize;
            let mut layer = layers[ru].clone();
            proof {
                assert(layer@ == l0[ru as int]);
                assert(!layer@.contains(v)) by {
                    if layer@.contains(v) {
                        let k = choose|k: int| 0 <= k < layer@.len() && layer@[k] == v;
                        assert(l0[ru as int][k] == v);
                    }
                }
            }
            layer.push(v);
            layers.set(ru, layer);
        }
    }
    proof {
        let l1 = layer_seqs(layers@);
        assert(l1 =~= place(graph, l0, v));
        assert(target == layer_from(graph, (visited@, l1), v, 0, f));
        assert forall|r: int, k: int| 0 <= r < l1.len() && 0 <= k < l1[r].len() implies {
            let x = #[trigger] l1[r][k];
            &&& graph.contains_node(x)
            &&& visited@[x.node_index as int]
            &&& graph.label_of(x).rank == Some(r as i32)
        } by {
            if k < l0[r].len() {
                assert(l1[r][k] == l0[r][k]);
            }
        }
        assert forall|r: int, a: int, b: int| 0 <= r < l1.len() && 0 <= a < b < l1[r].len() implies #[trigger] l1[r][a] != #[trigger] l1[r][b] by {
            if b < l0[r].len() {
                assert(l1[r][a] == l0[r][a] && l1[r][b] == l0[r][b]);
            } else if a < l0[r].len() {
                assert(l1[r][a] == l0[r][a]);
                assert(l1[r][b] == v);
                assert(l0[r].contains(l0[r][a]));
            }
        }
        assert forall|i: int| 0 <= i < graph.n() && visited@[i] implies #[trigger] in_its_layer(graph, l1, i) by {
            if let Some(r) = graph.node_seq()[i].rank {
                if 0 <= r < l1.len() {
                    if i == vi {
                        assert(graph.node_at(i) == v);
                        assert(l1[r as int][l1[r as int].len() - 1] == v);
                    } else {
                        assert(vis0[i]);
                        assert(in_its_layer(graph, l0, i));
                        let k = choose|k: int| 0 <= k < l0[r as int].len() && l0[r as int][k] == graph.node_at(i);
                        assert(l1[r as int][k] == graph.node_at(i));
                    }
                }
            }
        }
    }
    let successors = graph.successors(v);
    let mut j: usize = 0;
    while j < successors.len()
        invariant
            graph.wf(),
            graph.contains_node(v),
            successors@ == graph.out_edges_spec(v).map_values(|e: crate::types::Edge| e.target),
            j <= successors@.len(),
            layers_inv(graph, visited@, layer_seqs(layers@)),
            layers@.len() == old(layers)@.len(),
            visited@.len() == vis0.len(),
            vis0 == old(visited)@,
            (vi as int) < vis0.len(),
            visited@[vi as int],
            !vis0[vi as int],
            forall|i: int| 0 <= i < vis0.len() && vis0[i] ==> visited@[i],
            unseen(visited@) < unseen(vis0),
            unseen(vis0) < fuel,
            f + 1 == fuel,
            successors@ == succs(graph, v),
            layer_from(graph, (visited@, layer_seqs(layers@)), v, j as int, f) == target,
        decreases successors@.len() - j,
    {
        let w = successors[j];
        proof {
            crate::graph::lemma_incident_index(graph.entries(), v, true, j as int);
            let k = choose|k: int| 0 <= k < graph.entries().len() && #[trigger] graph.entries()[k].0 == graph.out_edges_spec(v)[j as int];
            assert(graph.contains_node(graph.entries()[k].0.target));
            lemma_unseen_mono(vis0, visited@);
        }
        dfs(graph, w, visited, layers, Ghost(f));
        j += 1;
    }
}

/// The initial order: one layer per rank from 0 to the greatest rank; the
/// nodes, ordered by rank, are searched depth first along their successors
/// and each is appended to the layer of its rank when first reached. Every
/// layer then holds exactly the nodes of its rank, each once.
pub fn init_order(graph: &Graph) -> (r: Vec<Vec<NodeIndex>>)
    requires
        graph.wf(),
    ensures
        r@.len() == if max_rank_spec(graph) >= 0 { max_rank_spec(graph) + 1 } else { 0 },
        layer_seqs(r@) == init_order_spec(graph),
        partition_by_rank(graph, layer_seqs(r@)),
{
    let max = max_rank(graph);
    proof {
        lemma_max_rank_spec(graph, max as int);
    }
    let mut layers: Vec<Vec<NodeIndex>> = Vec::new();
    let mut c: i64 = 0;
    while c <= max as i64
        invariant
            0 <= c <= max + 1 || (c == 0 && max < 0),
            layers@.len() == c,
            forall|k: int| 0 <= k < c ==> (#[trigger] layers@[k])@.len() == 0,
        decreases max + 1 - c,
    {
        layers.push(Vec::new());
        c += 1;
    }
    let n = graph.node_count();
    let mut visited: Vec<bool> = Vec::new();
    let mut i: usize = 0;
    while i < n
        invariant
            i <= n,
            visited@.len() == i,
            forall|k: int| 0 <= k < i ==> !visited@[k],
        decreases n - i,
    {
        visited.push(false);
        i += 1;
    }
    let simple_nodes = graph.node_indices();
    let ordered_nodes = sort_by_rank(graph, &simple_nodes);
    proof {
        assert(simple_nodes@ =~= all_nodes(graph));
        assert(visited@ =~= Seq::new(graph.n(), |i: int| false));
        assert(layer_seqs(layers@) =~= Seq::new(layers@.len() as nat, |r: int| Seq::<NodeIndex>::empty())) by {
            assert forall|r: int| 0 <= r < layers@.len() implies layer_seqs(layers@)[r] =~= Seq::<NodeIndex>::empty() by {
                assert(layers@[r]@.len() == 0);
            }
        }
        assert forall|r: int| 0 <= r < layer_seqs(layers@).len() implies (#[trigger] layer_seqs(layers@)[r]).len() == 0 by {
            assert(layers@[r]@.len() == 0);
        }
    }
    let mut j: usize = 0;
    while j < ordered_nodes.len()
        invariant
            graph.wf(),
            n == graph.n(),
            ordered_nodes@.len() == n,
            simple_nodes@.len() == n,
            forall|k: int| 0 <= k < n ==> #[trigger] simple_nodes@[k] == graph.node_at(k),
            forall|k: int| 0 <= k < n ==> ordered_nodes@.contains(#[trigger] simple_nodes@[k]),
            forall|k: int| 0 <= k < ordered_nodes@.len() ==> simple_nodes@.contains(#[trigger] ordered_nodes@[k]),
            j <= ordered_nodes@.len(),
            layers_inv(graph, visited@, layer_seqs(layers@)),
            layers@.len() == if max >= 0 { max + 1 } else { 0 },
            forall|k: int| 0 <= k < j ==> visited@[(#[trigger] ordered_nodes@[k]).node_index as int],
            layer_all(graph, (visited@, layer_seqs(layers@)), ordered_nodes@, j as int) == init_walk(graph),
        decreases ordered_nodes@.len() - j,
    {
        let v = ordered_nodes[j];
        proof {
            assert(simple_nodes@.contains(v));
            let q = choose|q: int| 0 <= q < simple_nodes@.len() && simple_nodes@[q] == v;
            assert(v == graph.node_at(q));
        }
        proof {
            crate::rank::tree_walk::lemma_unseen_le(visited@);
        }
        dfs(graph, v, &mut visited, &mut layers, Ghost((graph.n() + 1) as nat));
        j += 1;
    }
    proof {
        assert forall|i: int| 0 <= i < n implies visited@[i] by {
            assert(ordered_nodes@.contains(simple_nodes@[i]));
            let q = choose|q: int| 0 <= q < ordered_nodes@.len() && ordered_nodes@[q] == simple_nodes@[i];
            assert(visited@[ordered_nodes@[q].node_index as int]);
        }
        assert forall|i: int| 0 <= i < graph.n() implies #[trigger] in_its_layer(graph, layer_seqs(layers@), i) by {
            assert(visited@[i]);
        }
    }
    layers
}

} // verus!
