//! The rankers: bounds that keep their arithmetic within `i32`, the network
//! simplex method run to the end, and the choice of ranker.
use vstd::prelude::*;
use crate::graph::Graph;
use crate::rank::feasible_tree::{feasible_spec, feasible_tree, feasible_tree_done, feasible_tree_fits, is_feasible, slacks_in_range};
use crate::rank::network_simplex::{
    all_ranked, establish_tree_relationships, grow_tight_tree, network_simplex_round, no_negative_cut, SimplexStep,
};
use crate::rank::tree_walk::{any_root, init_cut_values, init_low_lim_values};
use crate::rank::util::{longest_path, longest_path_fits, longest_path_result, minlens_bounded, ranks_bounded};
use crate::types::{NodeIndex, Ranker};

verus! {

/// The magnitude of `x`.
pub open spec fn mag(x: i32) -> int {
    if x < 0 {
        -x
    } else {
        x as int
    }
}

/// The magnitude of the rank of `l`, 0 without one.
pub open spec fn rank_mag(l: crate::types::NodeLabel) -> int {
    match l.rank {
        Some(x) => mag(x),
        None => 0,
    }
}

/// The magnitude of `x`.
fn magnitude(x: i32) -> (r: u64)
    ensures
        r == mag(x),
{
    if x < 0 {
        (-(x as i64)) as u64
    } else {
        x as u64
    }
}

/// The largest rank magnitude and the largest minimum-length magnitude of
/// `graph`: the least bounds under which its ranks and minimum lengths lie.
pub fn rank_bounds(graph: &Graph) -> (r: (u64, u64))
    requires
        graph.wf(),
    ensures
        ranks_bounded(graph, r.0 as int),
        minlens_bounded(graph, r.1 as int),
        r.0 <= 2147483648,
        r.1 <= 2147483648,
        forall|b: int| b >= 0 && ranks_bounded(graph, b) ==> r.0 <= b,
        forall|b: int| b >= 0 && minlens_bounded(graph, b) ==> r.1 <= b,
{
    let n = graph.node_count();
    let id = graph.graph_id();
    let mut rb: u64 = 0;
    let mut i: usize = 0;
    while i < n
        invariant
            n == graph.n(),
            id == graph.id(),
            i <= n,
            rb <= 2147483648,
            forall|k: int| 0 <= k < i ==> ((#[trigger] graph.node_seq()[k]).rank matches Some(x) ==> -rb <= x <= rb),
            rb == 0 || exists|k: int| 0 <= k < i && rb == rank_mag(#[trigger] graph.node_seq()[k]),
        decreases n - i,
    {
        let v = NodeIndex { node_index: i, which_graph: id };
        if let Some(l) = graph.node_label(v) {
            if let Some(x) = l.rank {
                let m = magnitude(x);
                if m > rb {
                    rb = m;
                }
            }
        }
        i += 1;
    }
    let es = graph.edges();
    let mut lb: u64 = 0;
    let mut j: usize = 0;
    while j < es.len()
        invariant
            graph.wf(),
            es@ == graph.edge_seq(),
            j <= es@.len(),
            lb <= 2147483648,
            forall|k: int| 0 <= k < j ==> -lb <= (#[trigger] graph.entries()[k]).1.minlen <= lb,
            lb == 0 || exists|k: int| 0 <= k < j && lb == mag((#[trigger] graph.entries()[k]).1.minlen),
        decreases es@.len() - j,
    {
        let e = es[j];
        proof {
            assert(graph.entries()[j as int].0 == e);
            crate::rank::util::lemma_key_pos_at(graph, e, j as int);
        }
        if let Some(l) = graph.edge_label(&e) {
            let m = magnitude(l.minlen);
            if m > lb {
                lb = m;
            }
        }
        j += 1;
    }
    proof {
        assert forall|b: int| b >= 0 && ranks_bounded(graph, b) implies rb <= b by {
            if rb != 0 {
                let k = choose|k: int| 0 <= k < n && rb == rank_mag(#[trigger] graph.node_seq()[k]);
                assert(graph.node_seq()[k].rank is Some);
            }
        }
        assert forall|b: int| b >= 0 && minlens_bounded(graph, b) implies lb <= b by {
            if lb != 0 {
                let k = choose|k: int| 0 <= k < es@.len() && lb == mag((#[trigger] graph.entries()[k]).1.minlen);
                assert(-b <= graph.entries()[k].1.minlen <= b);
            }
        }
    }
    (rb, lb)
}

/// Whether a longest-path ranking of `graph` stays within `i32`.
pub fn fits_longest_path(graph: &Graph) -> (r: bool)
    requires
        graph.wf(),
    ensures
        r == longest_path_fits(graph),
{
    let (rb, lb) = rank_bounds(graph);
    let n = graph.node_count() as u128;
    proof {
        assert((n + 1) * (lb as u128) <= 18446744073709551616 * 2147483648) by (nonlinear_arith)
            requires n + 1 <= 18446744073709551616, lb <= 2147483648;
    }
    let r = (rb as u128) + (n + 1) * (lb as u128) < 2147483647;
    proof {
        if r {
            assert(0 <= rb && 0 <= lb && ranks_bounded(graph, rb as int) && minlens_bounded(graph, lb as int)
                && rb + (graph.n() + 1) * lb < i32::MAX);
        } else if longest_path_fits(graph) {
            let (b, l) = choose|b: int, l: int|
                0 <= b && 0 <= l && ranks_bounded(graph, b) && minlens_bounded(graph, l) && b + (graph.n() + 1) * l < i32::MAX;
            assert((graph.n() + 1) * lb <= (graph.n() + 1) * l) by (nonlinear_arith)
                requires lb <= l, graph.n() + 1 >= 0;
        }
    }
    r
}

/// Whether the feasible-tree ranking of `graph` stays within `i32`.
pub fn fits_feasible_tree(graph: &Graph) -> (r: bool)
    requires
        graph.wf(),
    ensures
        r == feasible_tree_fits(graph),
{
    let (rb, lb) = rank_bounds(graph);
    let n = graph.node_count() as u128;
    proof {
        assert(n * (lb as u128) <= 18446744073709551616 * 2147483648) by (nonlinear_arith)
            requires n <= 18446744073709551616, lb <= 2147483648;
    }
    let r = 2 * ((rb as u128) + n * (lb as u128)) + 101 * (lb as u128) < 2147483647;
    proof {
        if r {
            assert(0 <= rb && 0 <= lb && ranks_bounded(graph, rb as int) && minlens_bounded(graph, lb as int)
                && 2 * (rb + graph.n() * lb) + 101 * lb < i32::MAX);
        } else if feasible_tree_fits(graph) {
            let (b, l) = choose|b: int, l: int|
                0 <= b && 0 <= l && ranks_bounded(graph, b) && minlens_bounded(graph, l) && 2 * (b + graph.n() * l) + 101 * l
                    < i32::MAX;
            assert(graph.n() * lb <= graph.n() * l) by (nonlinear_arith)
                requires lb <= l, graph.n() >= 0;
        }
    }
    r
}

/// How a run of the network simplex method ended.
#[derive(Clone, Copy, Debug, PartialEq, Eq, Structural)]
pub enum SimplexRun {
    /// No cut value is negative and every edge meets its minimum length.
    Optimal,
    /// No cut value is negative, but some edge is shorter than its minimum
    /// length.
    ShortEdge,
    /// After the longest-path ranking some node has no rank.
    Unranked,
    /// The tight tree cannot grow to span the graph (see `grow_stuck`).
    TreeStuck,
    /// Too many edges for the tree search.
    TooManyEdges,
    /// No node is without a parent, or too many nodes to number.
    NoRoot,
    /// A cut value is not an `i32`.
    CutOutOfRange,
    /// A slack is not an `i32` once no cut value is negative.
    SlackOutOfRange,
    /// A round stopped with the given step.
    RoundFailed(SimplexStep),
    /// The rounds allowed ran out before a round found no cut value
    /// negative.
    RoundLimit,
}

/// The network simplex method: a longest-path ranking; a tight tree grown
/// from the first node until it spans the graph; the tree made explicit by
/// a search from node `start`; low and lim numbers and cut values; then
/// rounds that exchange a tree edge of negative cut value for a non-tree
/// edge, at most `max_rounds` of them, until no cut value is negative.
pub fn network_simplex(graph: &mut Graph, start: usize, max_rounds: u64) -> (r: SimplexRun)
    requires
        old(graph).wf(),
        longest_path_fits(old(graph)),
        old(graph).n() > 0 ==> start < old(graph).n(),
    ensures
        final(graph).wf(),
        final(graph).n() == old(graph).n(),
        final(graph).edge_seq() == old(graph).edge_seq(),
        final(graph).id() == old(graph).id(),
        final(graph).config_spec() == old(graph).config_spec(),
        old(graph).n() == 0 ==> r == SimplexRun::Optimal && *final(graph) == *old(graph),
        r == SimplexRun::Optimal ==> no_negative_cut(final(graph)) && feasible_spec(final(graph)),
        r == SimplexRun::ShortEdge ==> no_negative_cut(final(graph)) && !feasible_spec(final(graph)),
        r == SimplexRun::Unranked ==> exists|g1: Graph| #[trigger] longest_path_result(&g1, old(graph))
            && !crate::rank::network_simplex::all_ranked_spec(&g1),
{
    let ghost g0 = *graph;
    let n = graph.node_count();
    if n == 0 {
        proof {
            if g0.entries().len() > 0 {
                assert(g0.contains_node(g0.entries()[0].0.source));
            }
            assert(g0.edge_seq().len() == 0);
        }
        return SimplexRun::Optimal;
    }
    let id = graph.graph_id();
    longest_path(graph);
    let ghost g1 = *graph;
    proof {
        assert(graph.edge_seq() =~= g0.edge_seq());
    }
    if !all_ranked(graph) {
        return SimplexRun::Unranked;
    }
    let mut in_tree: Vec<bool> = Vec::new();
    let mut i: usize = 0;
    while i < n
        invariant
            i <= n,
            in_tree@.len() == i,
        decreases n - i,
    {
        in_tree.push(i == 0);
        i += 1;
    }
    if !grow_tight_tree(graph, &mut in_tree) {
        return SimplexRun::TreeStuck;
    }
    proof {
        assert(graph.edge_seq() =~= g0.edge_seq());
        assert(in_tree@[start as int]);
    }
    let es = graph.edges();
    if es.len() >= usize::MAX / 2 {
        return SimplexRun::TooManyEdges;
    }
    let root = NodeIndex { node_index: start, which_graph: id };
    let ghost g2 = *graph;
    establish_tree_relationships(graph, &in_tree, root);
    proof {
        assert(graph.edge_seq() =~= g2.edge_seq()) by {
            assert forall|k: int| 0 <= k < graph.edge_seq().len() implies graph.edge_seq()[k] == g2.edge_seq()[k] by {
                assert(graph.entries()[k].0 == g2.entries()[k].0);
            }
        }
    }
    if !any_root(graph) || n >= 2147483645 {
        return SimplexRun::NoRoot;
    }
    init_low_lim_values(graph);
    if !init_cut_values(graph) {
        return SimplexRun::CutOutOfRange;
    }
    let mut k: u64 = 0;
    while k < max_rounds
        invariant
            g0 == *old(graph),
            g0.n() > 0,
            graph.wf(),
            graph.n() == g0.n(),
            graph.edge_seq() == g0.edge_seq(),
            graph.id() == g0.id(),
            graph.config_spec() == g0.config_spec(),
        decreases max_rounds - k,
    {
        let ghost gb = *graph;
        let step = network_simplex_round(graph);
        match step {
            SimplexStep::Optimal => {
                if !slacks_in_range(graph) {
                    return SimplexRun::SlackOutOfRange;
                }
                if is_feasible(graph) {
                    return SimplexRun::Optimal;
                } else {
                    return SimplexRun::ShortEdge;
                }
            },
            SimplexStep::Exchanged => {},
            _ => {
                return SimplexRun::RoundFailed(step);
            },
        }
        k += 1;
    }
    SimplexRun::RoundLimit
}

/// Ranks the nodes with the ranker the configuration names: the network
/// simplex method (tree search from node `start`, at most `max_rounds`
/// rounds), the feasible-tree ranking, a longest-path ranking followed by
/// the feasible-tree ranking, a longest-path ranking, or nothing. Returns
/// `false`, and leaves the graph as it is, where the ranks or minimum
/// lengths are too large for the ranker's arithmetic; and `false` where the
/// network simplex method does not end with every cut value non-negative
/// and every edge as long as its minimum length.
pub fn rank(graph: &mut Graph, start: usize, max_rounds: u64) -> (ok: bool)
    requires
        old(graph).wf(),
        old(graph).n() > 0 ==> start < old(graph).n(),
    ensures
        final(graph).wf(),
        old(graph).config_spec().ranker == Ranker::NoRanking ==> ok && *final(graph) == *old(graph),
        old(graph).config_spec().ranker == Ranker::LongestPath ==> (ok == longest_path_fits(old(graph)))
            && (ok ==> longest_path_result(final(graph), old(graph))) && (!ok ==> *final(graph) == *old(graph)),
        old(graph).config_spec().ranker == Ranker::FeasibleTree ==> (ok == feasible_tree_fits(old(graph)))
            && (ok ==> feasible_tree_done(final(graph), old(graph))) && (!ok ==> *final(graph) == *old(graph)),
        old(graph).config_spec().ranker == Ranker::TightTree ==> (!longest_path_fits(old(graph)) ==> !ok
            && *final(graph) == *old(graph)) && (longest_path_fits(old(graph)) ==> exists|g1: Graph|
            #[trigger] longest_path_result(&g1, old(graph)) && (ok == feasible_tree_fits(&g1)) && (ok
                ==> feasible_tree_done(final(graph), &g1))),
        old(graph).config_spec().ranker == Ranker::NetworkSimplex ==> (ok ==> no_negative_cut(final(graph))
            && feasible_spec(final(graph))) && (!longest_path_fits(old(graph)) ==> !ok && *final(graph) == *old(graph)),
{
    match graph.config().ranker {
        Ranker::NetworkSimplex => {
            if !fits_longest_path(graph) {
                return false;
            }
            let r = network_simplex(graph, start, max_rounds);
            r == SimplexRun::Optimal
        },
        Ranker::FeasibleTree => {
            if !fits_feasible_tree(graph) {
                return false;
            }
            feasible_tree(graph);
            true
        },
        Ranker::TightTree => {
            if !fits_longest_path(graph) {
                return false;
            }
            longest_path(graph);
            if !fits_feasible_tree(graph) {
                return false;
            }
            feasible_tree(graph);
            true
        },
        Ranker::LongestPath => {
            if !fits_longest_path(graph) {
                return false;
            }
            longest_path(graph);
            true
        },
        Ranker::NoRanking => true,
    }
}

} // verus!
