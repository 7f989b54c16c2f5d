//! Ordering of the nodes within each rank.
pub mod cross_count;
pub mod init_order;
pub mod assign;
pub mod sort_subgraph;
pub mod constraint_graph;
pub mod build_layer_graph;
pub mod sweep;
pub mod layer_sort;
pub mod inversions;
pub mod within_layer;
pub mod sort_variants;

use vstd::prelude::*;
use crate::counters::{bump, increment_cross_count, increment_init_order, Counters};
use crate::graph::Graph;
use crate::order::assign::{assign_order, order_after};
use crate::order::build_layer_graph::{build_layer_graph, copies_of, nodes_of_rank, LayerGraph};
use crate::order::cross_count::{cross_count, layering_in_graph, layers_view, pair_count, pair_weights_fit, total_crossings};
use crate::order::init_order::{init_order, init_order_spec, layer_seqs};
use crate::order::sweep::{chains_end, depth, swept, sweep_layer_graphs};
use crate::types::{NodeIndex, NodeLabel};
use crate::util::{build_layer_matrix, layer_matrix, max_rank, max_rank_spec, has_ranked, range, range_with_step, rank_spread_below, stepped_len};

verus! {

/// `g1` is `g` with the orders that `layering` assigns.
pub open spec fn assigned(g: &Graph, g1: &Graph, layering: Seq<Seq<NodeIndex>>) -> bool {
    &&& g1.wf() == g.wf()
    &&& g1.n() == g.n()
    &&& g1.entries() == g.entries()
    &&& g1.id() == g.id()
    &&& g1.config_spec() == g.config_spec()
    &&& forall|i: int|
        0 <= i < g.n() ==> #[trigger] g1.node_seq()[i] == (NodeLabel {
            order: order_after(layering, g.node_at(i), g.node_seq()[i].order, layering.len() as int),
            ..g.node_seq()[i]
        })
}

/// Counting the weighted crossings of the layer matrix of `g` stays
/// within `usize`.
pub open spec fn crossings_countable(g: &Graph) -> bool {
    &&& rank_spread_below(g)
    &&& forall|i: int| 0 <= i < g.n() ==> ((#[trigger] g.node_seq()[i]).order matches Some(o) ==> o < usize::MAX)
    &&& layering_in_graph(g, layer_matrix(g))
    &&& pair_weights_fit(g, layer_matrix(g))
    &&& total_crossings(g, layer_matrix(g), pair_count(layer_matrix(g).len() as int)) <= usize::MAX
}

/// The layering `order` keeps for the graph `g1` of the initial orders:
/// the layer matrix of `g1` when its crossings were counted below
/// `usize::MAX`, else the initial layering.
pub open spec fn kept_layering(g: &Graph, g1: &Graph) -> Seq<Seq<NodeIndex>> {
    if total_crossings(g1, layer_matrix(g1), pair_count(layer_matrix(g1).len() as int)) < usize::MAX {
        layer_matrix(g1)
    } else {
        init_order_spec(g)
    }
}

/// `x` bumped `k` times.
pub open spec fn bump_by(x: u32, k: nat) -> u32
    decreases k,
{
    if k == 0 {
        x
    } else {
        bump(bump_by(x, (k - 1) as nat))
    }
}

proof fn lemma_bump_by_add(x: u32, a: nat, b: nat)
    ensures
        bump_by(bump_by(x, a), b) == bump_by(x, a + b),
    decreases b,
{
    if b > 0 {
        lemma_bump_by_add(x, a, (b - 1) as nat);
        assert((a + b - 1) as nat == (a + (b - 1)) as nat);
    }
}

/// `ga` and `gb` have as many nodes, the same id and the same parents.
pub open spec fn same_parents(ga: &Graph, gb: &Graph) -> bool {
    &&& ga.n() == gb.n()
    &&& ga.id() == gb.id()
    &&& forall|i: int| 0 <= i < ga.n() ==> #[trigger] ga.node_seq()[i].parent == gb.node_seq()[i].parent
}

proof fn lemma_depth_same(ga: &Graph, gb: &Graph, v: NodeIndex, f: nat)
    requires
        same_parents(ga, gb),
    ensures
        depth(ga, v, f) == depth(gb, v, f),
    decreases f,
{
    if ga.contains_node(v) {
        assert(ga.node_seq()[v.node_index as int].parent == gb.node_seq()[v.node_index as int].parent);
    }
    if f > 0 {
        match crate::order::constraint_graph::parent_in(ga, v) {
            Some(p) => {
                lemma_depth_same(ga, gb, p, (f - 1) as nat);
            },
            None => {},
        }
    }
}

proof fn lemma_chains_same(ga: &Graph, gb: &Graph)
    requires
        same_parents(ga, gb),
    ensures
        chains_end(ga) == chains_end(gb),
{
    assert forall|i: int| 0 <= i < ga.n() implies depth(ga, ga.node_at(i), ga.n()) == depth(gb, gb.node_at(i), gb.n()) by {
        lemma_depth_same(ga, gb, ga.node_at(i), ga.n());
    }
    if chains_end(ga) {
        assert forall|i: int| 0 <= i < gb.n() implies #[trigger] depth(gb, gb.node_at(i), gb.n()) is Some by {
            assert(depth(ga, ga.node_at(i), ga.n()) is Some);
        }
    }
    if chains_end(gb) {
        assert forall|i: int| 0 <= i < ga.n() implies #[trigger] depth(ga, ga.node_at(i), ga.n()) is Some by {
            assert(depth(gb, gb.node_at(i), gb.n()) is Some);
        }
    }
}

/// Every copy of the nodes of rank `rank` of `g`, as a graph with id `id`,
/// has parent climbs that end.
pub open spec fn rank_chains_end(g: &Graph, rank: i32, id: u32) -> bool {
    forall|lg: Graph| #![trigger copies_of(&lg, g, nodes_of_rank(g, rank))]
        copies_of(&lg, g, nodes_of_rank(g, rank)) && lg.id() == id ==> chains_end(&lg)
}

proof fn lemma_copy_chains(g: &Graph, lg: &Graph, rank: i32)
    requires
        copies_of(lg, g, nodes_of_rank(g, rank)),
    ensures
        chains_end(lg) == rank_chains_end(g, rank, lg.id()),
{
    let sel = nodes_of_rank(g, rank);
    assert forall|lg2: Graph| #![trigger copies_of(&lg2, g, nodes_of_rank(g, rank))]
        copies_of(&lg2, g, nodes_of_rank(g, rank)) && lg2.id() == lg.id() implies chains_end(&lg2) == chains_end(lg) by {
        assert forall|i: int| 0 <= i < lg.n() implies #[trigger] lg.node_seq()[i].parent == lg2.node_seq()[i].parent by {
            assert(crate::types::same_attrs(lg.node_seq()[i], g.label_of(sel[i])));
            assert(crate::types::same_attrs(lg2.node_seq()[i], g.label_of(sel[i])));
        }
        lemma_chains_same(lg, &lg2);
    }
}

/// A sweep keeps the parents of a layer graph.
proof fn lemma_swept_parents(ga: &Graph, gb: &Graph, bias_right: bool)
    requires
        swept(ga, gb, bias_right),
    ensures
        same_parents(gb, ga),
{
    if ga.n() != 0 {
        assert forall|i: int| 0 <= i < gb.n() implies #[trigger] gb.node_seq()[i].parent == ga.node_seq()[i].parent by {
            assert(gb.node_seq()[i].parent == ga.node_seq()[i].parent);
        }
    }
}

/// The number of layer graphs `order` sweeps downwards: one for each rank
/// from 1 to the greatest.
pub open spec fn down_len(g: &Graph) -> int {
    if max_rank_spec(g) > 0 {
        max_rank_spec(g)
    } else {
        0
    }
}

/// The number of layer graphs `order` sweeps upwards.
pub open spec fn up_len(g: &Graph) -> int {
    stepped_len(-1, max_rank_spec(g) - 1, 1)
}

/// The rank of the `k`-th layer graph swept upwards.
pub open spec fn up_rank(g: &Graph, k: int) -> int {
    -1 + (up_len(g) - 1 - k)
}

/// Every layer graph `order` builds, with ids counted from `id0`, has
/// parent climbs that end: the condition under which its sweeps succeed.
pub open spec fn sweeps_can_run(g: &Graph, id0: u32) -> bool {
    &&& forall|k: int| 0 <= k < down_len(g) ==> #[trigger] rank_chains_end(g, (1 + k) as i32, bump_by(id0, k as nat))
    &&& forall|k: int| 0 <= k < up_len(g) ==> #[trigger] rank_chains_end(g, up_rank(g, k) as i32, bump_by(id0, (down_len(g) + k) as nat))
}

/// The layer graphs of the ranks `ranks`, each with the next id of the
/// counter `next_id`.
fn build_layer_graphs(graph: &Graph, ranks: &Vec<i32>, relationship: &str, next_id: &mut u32) -> (r: Vec<LayerGraph>)
    requires
        graph.wf(),
    ensures
        r@.len() == ranks@.len(),
        forall|k: int| 0 <= k < r@.len() ==> (#[trigger] r@[k]).graph.wf(),
        forall|k: int| 0 <= k < r@.len() ==> copies_of(&(#[trigger] r@[k]).graph, graph, nodes_of_rank(graph, ranks@[k]))
            && r@[k].graph.id() == bump_by(*old(next_id), k as nat),
        *final(next_id) == bump_by(*old(next_id), ranks@.len()),
{
    let mut r: Vec<LayerGraph> = Vec::new();
    let mut k: usize = 0;
    while k < ranks.len()
        invariant
            graph.wf(),
            k <= ranks@.len(),
            r@.len() == k,
            forall|j: int| 0 <= j < r@.len() ==> (#[trigger] r@[j]).graph.wf(),
            forall|j: int| 0 <= j < r@.len() ==> copies_of(&(#[trigger] r@[j]).graph, graph, nodes_of_rank(graph, ranks@[j]))
                && r@[j].graph.id() == bump_by(*old(next_id), j as nat),
            *next_id == bump_by(*old(next_id), k as nat),
        decreases ranks@.len() - k,
    {
        let id = crate::graph::get_next_graph_id(next_id);
        let lg = build_layer_graph(graph, ranks[k], relationship, id);
        r.push(lg);
        k += 1;
    }
    r
}

/// Orders the nodes of every rank: gives each node its place in the
/// initial order, and unless `disable_heuristic`, sweeps the layer graphs
/// of the ranks below (odd rounds) and above (even rounds), with the bias
/// to the right in rounds 2 and 3 of every four, counting the crossings of
/// the layer matrix after each sweep, until four rounds in a row bring no
/// fewer crossings; then each node takes its place in the layering of
/// fewest crossings met. The sweeps order the layer graphs and leave the
/// graph itself as it is. Returns `false` when a sweep fails; the initial
/// orders are then kept. The layer graphs take their ids from `next_id`.
pub fn order(graph: &mut Graph, counters: &mut Counters, disable_heuristic: bool, next_id: &mut u32) -> (ok: bool)
    requires
        old(graph).wf(),
        has_ranked(old(graph)) ==> i32::MIN < max_rank_spec(old(graph)) < i32::MAX,
        forall|g1: Graph| #[trigger] assigned(old(graph), &g1, init_order_spec(old(graph))) ==> crossings_countable(&g1),
    ensures
        final(counters).init_order == bump(old(counters).init_order),
        final(counters).rank == old(counters).rank,
        final(counters).order == old(counters).order,
        final(counters).position == old(counters).position,
        final(counters).bk == old(counters).bk,
        exists|g1: Graph|
            #![trigger assigned(old(graph), &g1, init_order_spec(old(graph)))]
            assigned(old(graph), &g1, init_order_spec(old(graph))) && if disable_heuristic || !ok {
                *final(graph) == g1
            } else {
                assigned(&g1, final(graph), kept_layering(old(graph), &g1))
            },
        ok == (disable_heuristic || sweeps_can_run(old(graph), *old(next_id))),
{
    let ghost g0 = *graph;
    let max = max_rank(graph);
    proof {
        crate::util::lemma_max_rank_spec(graph, max as int);
    }
    let down_ranks = range(1, max + 1);
    let up_ranks = range_with_step(max - 1, -1, -1);
    let ghost id0 = *next_id;
    let mut down = build_layer_graphs(graph, &down_ranks, "in_edges", next_id);
    let mut up = build_layer_graphs(graph, &up_ranks, "out_edges", next_id);
    let ghost down0 = down@;
    let ghost up0 = up@;
    let ghost down_ends = forall|k: int| 0 <= k < down0.len() ==> chains_end(&(#[trigger] down0[k]).graph);
    let ghost up_ends = forall|k: int| 0 <= k < up0.len() ==> chains_end(&(#[trigger] up0[k]).graph);
    proof {
        let dl = down_ranks@.len();
        assert(dl == down_len(&g0));
        assert(up_ranks@.len() == up_len(&g0));
        assert forall|k: int| 0 <= k < down0.len() implies chains_end(&(#[trigger] down0[k]).graph) == rank_chains_end(
            &g0,
            (1 + k) as i32,
            bump_by(id0, k as nat),
        ) by {
            assert(down_ranks@[k] == 1 + k);
            lemma_copy_chains(&g0, &down0[k].graph, down_ranks@[k]);
        }
        assert forall|k: int| 0 <= k < up0.len() implies chains_end(&(#[trigger] up0[k]).graph) == rank_chains_end(
            &g0,
            up_rank(&g0, k) as i32,
            bump_by(id0, (down_len(&g0) + k) as nat),
        ) by {
            assert(up_ranks@[k] == up_rank(&g0, k));
            lemma_bump_by_add(id0, dl, k as nat);
            lemma_copy_chains(&g0, &up0[k].graph, up_ranks@[k]);
        }
        assert(sweeps_can_run(&g0, id0) == (down_ends && up_ends)) by {
            if down_ends && up_ends {
                assert forall|k: int| 0 <= k < down_len(&g0) implies #[trigger] rank_chains_end(&g0, (1 + k) as i32, bump_by(id0, k as nat)) by {
                    assert(chains_end(&down0[k].graph));
                }
                assert forall|k: int| 0 <= k < up_len(&g0) implies #[trigger] rank_chains_end(&g0, up_rank(&g0, k) as i32, bump_by(id0, (down_len(&g0) + k) as nat)) by {
                    assert(chains_end(&up0[k].graph));
                }
            }
            if sweeps_can_run(&g0, id0) {
                assert forall|k: int| 0 <= k < down0.len() implies chains_end(&(#[trigger] down0[k]).graph) by {
                    assert(rank_chains_end(&g0, (1 + k) as i32, bump_by(id0, k as nat)));
                }
                assert forall|k: int| 0 <= k < up0.len() implies chains_end(&(#[trigger] up0[k]).graph) by {
                    assert(rank_chains_end(&g0, up_rank(&g0, k) as i32, bump_by(id0, (down_len(&g0) + k) as nat)));
                }
            }
        }
        assert forall|k: int| 0 <= k < down0.len() implies same_parents(&(#[trigger] down@[k]).graph, &down0[k].graph) by {}
        assert forall|k: int| 0 <= k < up0.len() implies same_parents(&(#[trigger] up@[k]).graph, &up0[k].graph) by {}
    }
    increment_init_order(counters);
    let layering = init_order(graph);
    assign_order(graph, &layering);
    let ghost g1 = *graph;
    proof {
        crate::graph::lemma_wf_same_shape(&g0, graph);
        assert(layering@.map_values(|l: Vec<NodeIndex>| l@) == init_order_spec(&g0));
        assert(assigned(&g0, &g1, init_order_spec(&g0)));
        assert(crossings_countable(&g1));
    }
    if disable_heuristic {
        proof {
            assert(assigned(&g0, &g1, init_order_spec(&g0)));
        }
        return true;
    }
    let ghost c0 = *counters;
    let mut best_cc: usize = usize::MAX;
    let mut best_layering = layering;
    let mut last_best: usize = 0;
    let mut i: usize = 0;
    let ghost mut up_ok = false;
    let ghost mut down_ok = false;
    let ghost mut iters: nat = 0;
    loop
        invariant_except_break
            last_best < 4,
            last_best <= iters,
            iters <= 1 ==> i == iters,
            iters >= 1 ==> up_ok,
            iters >= 2 ==> down_ok,
        invariant
            !disable_heuristic,
            down@.len() == down0.len(),
            up@.len() == up0.len(),
            forall|k: int| 0 <= k < down0.len() ==> same_parents(&(#[trigger] down@[k]).graph, &down0[k].graph),
            forall|k: int| 0 <= k < up0.len() ==> same_parents(&(#[trigger] up@[k]).graph, &up0[k].graph),
            down_ends == forall|k: int| 0 <= k < down0.len() ==> chains_end(&(#[trigger] down0[k]).graph),
            up_ends == forall|k: int| 0 <= k < up0.len() ==> chains_end(&(#[trigger] up0[k]).graph),
            sweeps_can_run(&g0, id0) == (down_ends && up_ends),
            id0 == *old(next_id),
            up_ok ==> up_ends,
            down_ok ==> down_ends,
            *graph == g1,
            g0 == *old(graph),
            g1.wf(),
            crossings_countable(&g1),
            assigned(&g0, &g1, init_order_spec(&g0)),
            forall|k: int| 0 <= k < down@.len() ==> (#[trigger] down@[k]).graph.wf(),
            forall|k: int| 0 <= k < up@.len() ==> (#[trigger] up@[k]).graph.wf(),
            best_cc == usize::MAX ==> layer_seqs(best_layering@) == init_order_spec(&g0),
            best_cc < usize::MAX ==> layer_seqs(best_layering@) == layer_matrix(&g1) && best_cc == total_crossings(
                &g1,
                layer_matrix(&g1),
                pair_count(layer_matrix(&g1).len() as int),
            ),
            best_cc == usize::MAX ==> total_crossings(&g1, layer_matrix(&g1), pair_count(layer_matrix(&g1).len() as int))
                == usize::MAX || i == 0,
            counters.init_order == c0.init_order,
            counters.rank == c0.rank,
            counters.order == c0.order,
            counters.position == c0.position,
            counters.bk == c0.bk,
            c0.init_order == bump(old(counters).init_order),
            c0.rank == old(counters).rank,
            c0.order == old(counters).order,
            c0.position == old(counters).position,
            c0.bk == old(counters).bk,
        ensures
            *graph == g1,
            down_ends && up_ends,
            layer_seqs(best_layering@) == kept_layering(&g0, &g1),
            counters.init_order == c0.init_order,
            counters.rank == c0.rank,
            counters.order == c0.order,
            counters.position == c0.position,
            counters.bk == c0.bk,
            forall|k: int| 0 <= k < down@.len() ==> (#[trigger] down@[k]).graph.wf(),
            forall|k: int| 0 <= k < up@.len() ==> (#[trigger] up@[k]).graph.wf(),
        decreases best_cc, 4 - last_best,
    {
        let bias_right = i % 4 >= 2;
        let ghost down_b = down@;
        let ghost up_b = up@;
        let swept = if i % 2 == 1 {
            sweep_layer_graphs(&mut down, bias_right)
        } else {
            sweep_layer_graphs(&mut up, bias_right)
        };
        proof {
            if i % 2 == 1 {
                assert forall|k: int| 0 <= k < down0.len() implies chains_end(&(#[trigger] down_b[k]).graph) == chains_end(&down0[k].graph) by {
                    lemma_chains_same(&down_b[k].graph, &down0[k].graph);
                }
            } else {
                assert forall|k: int| 0 <= k < up0.len() implies chains_end(&(#[trigger] up_b[k]).graph) == chains_end(&up0[k].graph) by {
                    lemma_chains_same(&up_b[k].graph, &up0[k].graph);
                }
            }
        }
        if !swept {
            proof {
                assert(assigned(&g0, &g1, init_order_spec(&g0)));
                if i % 2 == 1 {
                    assert(!down_ends);
                } else {
                    assert(!up_ends);
                }
            }
            return false;
        }
        proof {
            if i % 2 == 1 {
                assert forall|k: int| 0 <= k < down0.len() implies chains_end(&(#[trigger] down0[k]).graph) by {
                    assert(chains_end(&down_b[k].graph));
                }
                assert(down_ends);
                down_ok = true;
                assert forall|k: int| 0 <= k < down0.len() implies same_parents(&(#[trigger] down@[k]).graph, &down0[k].graph) by {
                    lemma_swept_parents(&down_b[k].graph, &down@[k].graph, bias_right);
                }
            } else {
                assert forall|k: int| 0 <= k < up0.len() implies chains_end(&(#[trigger] up0[k]).graph) by {
                    assert(chains_end(&up_b[k].graph));
                }
                assert(up_ends);
                up_ok = true;
                assert forall|k: int| 0 <= k < up0.len() implies same_parents(&(#[trigger] up@[k]).graph, &up0[k].graph) by {
                    lemma_swept_parents(&up_b[k].graph, &up@[k].graph, bias_right);
                }
            }
        }
        let current = build_layer_matrix(graph);
        proof {
            assert(layers_view(current@) =~= layer_matrix(&g1));
        }
        increment_cross_count(counters);
        let cc = cross_count(graph, &current);
        if cc < best_cc {
            last_best = 0;
            best_cc = cc;
            best_layering = current;
        } else {
            last_best += 1;
        }
        if last_best >= 4 {
            break;
        }
        i = if i < usize::MAX { i + 1 } else { 1 };
        proof {
            iters = iters + 1;
        }
    }
    assign_order(graph, &best_layering);
    proof {
        crate::graph::lemma_wf_same_shape(&g1, graph);
        assert(assigned(&g1, graph, kept_layering(&g0, &g1)));
        assert(assigned(&g0, &g1, init_order_spec(&g0)));
    }
    true
}

} // verus!
