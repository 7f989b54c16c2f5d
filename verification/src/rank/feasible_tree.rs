//! Feasible ranking: slack queries and the bounded relaxation that lowers
//! nodes whose in-edges are longer than needed.
use vstd::prelude::*;
use crate::graph::Graph;
use crate::rank::util::{
    slack, slack_spec, slack_fits, rank_or_zero, minlen_or_one, same_but_ranks, ranks_bounded,
    minlens_bounded, longest_path_within, lemma_key_pos_at,
};
use crate::types::{Edge, EdgeLabel, NodeIndex, NodeLabel};

verus! {

/// Every edge's slack, and the rank difference on the way to it, is an `i32`.
pub open spec fn slacks_fit(g: &Graph) -> bool {
    forall|k: int| 0 <= k < g.edge_seq().len() ==> slack_fits(g, #[trigger] g.edge_seq()[k])
}

/// No edge is shorter than its minimum length.
pub open spec fn feasible_spec(g: &Graph) -> bool {
    forall|k: int| 0 <= k < g.edge_seq().len() ==> slack_spec(g, #[trigger] g.edge_seq()[k]) >= 0
}

/// The sum of the slacks of the first `k` edges.
pub open spec fn slack_total(g: &Graph, k: int) -> int
    decreases k,
{
    if k <= 0 {
        0
    } else {
        slack_total(g, k - 1) + slack_spec(g, g.edge_seq()[k - 1])
    }
}

/// Whether every edge's slack, and the rank difference on the way to it,
/// is an `i32`.
pub fn slacks_in_range(graph: &Graph) -> (r: bool)
    requires
        graph.wf(),
    ensures
        r == slacks_fit(graph),
{
    let es = graph.edges();
    let mut i: usize = 0;
    while i < es.len()
        invariant
            graph.wf(),
            es@ == graph.edge_seq(),
            i <= es@.len(),
            forall|k: int| 0 <= k < i ==> slack_fits(graph, #[trigger] graph.edge_seq()[k]),
        decreases es@.len() - i,
    {
        let e = es[i];
        proof {
            assert(graph.entries()[i as int].0 == e);
            assert(graph.has_edge_spec(e));
        }
        let sr: i64 = match graph.node_label(e.source) {
            Some(l) => match l.rank {
                Some(x) => x as i64,
                None => 0,
            },
            None => 0,
        };
        let tr: i64 = match graph.node_label(e.target) {
            Some(l) => match l.rank {
                Some(x) => x as i64,
                None => 0,
            },
            None => 0,
        };
        let ml: i64 = graph.edge_label(&e).unwrap().minlen as i64;
        let d = tr - sr;
        let s = d - ml;
        if d < -2147483648 || d > 2147483647 || s < -2147483648 || s > 2147483647 {
            return false;
        }
        i += 1;
    }
    true
}

/// Whether every edge respects its minimum length.
pub fn is_feasible(graph: &Graph) -> (r: bool)
    requires
        graph.wf(),
        slacks_fit(graph),
    ensures
        r == feasible_spec(graph),
{
    let edges = graph.edges();
    let mut i: usize = 0;
    while i < edges.len()
        invariant
            graph.wf(),
            slacks_fit(graph),
            edges@ == graph.edge_seq(),
            i <= edges@.len(),
            forall|k: int| 0 <= k < i ==> slack_spec(graph, #[trigger] graph.edge_seq()[k]) >= 0,
        decreases edges@.len() - i,
    {
        let edge = edges[i];
        proof {
            assert(graph.entries()[i as int].0 == edge);
            assert(graph.contains_node(graph.entries()[i as int].0.source));
            assert(graph.contains_node(graph.entries()[i as int].0.target));
        }
        if graph.edge_label(&edge).is_some() {
            let s = slack(graph, &edge);
            if s < 0 {
                return false;
            }
        } else {
            proof {
                lemma_key_pos_at(graph, edge, i as int);
            }
        }
        i += 1;
    }
    true
}

/// The sum of the slacks of all edges.
pub fn total_slack(graph: &Graph) -> (r: i32)
    requires
        graph.wf(),
        slacks_fit(graph),
        forall|k: int| 0 <= k <= graph.edge_seq().len() ==> i32::MIN <= #[trigger] slack_total(graph, k) <= i32::MAX,
    ensures
        r == slack_total(graph, graph.edge_seq().len() as int),
{
    let edges = graph.edges();
    let mut sum: i32 = 0;
    let mut i: usize = 0;
    while i < edges.len()
        invariant
            graph.wf(),
            slacks_fit(graph),
            forall|k: int| 0 <= k <= graph.edge_seq().len() ==> i32::MIN <= #[trigger] slack_total(graph, k) <= i32::MAX,
            edges@ == graph.edge_seq(),
            i <= edges@.len(),
            sum == slack_total(graph, i as int),
        decreases edges@.len() - i,
    {
        let edge = edges[i];
        proof {
            assert(graph.entries()[i as int].0 == edge);
            assert(graph.contains_node(graph.entries()[i as int].0.source));
            assert(graph.contains_node(graph.entries()[i as int].0.target));
            assert(slack_total(graph, i + 1) == slack_total(graph, i as int) + slack_spec(graph, edge));
        }
        let s = slack(graph, &edge);
        sum = sum + s;
        i += 1;
    }
    sum
}

/// The first edge of least slack, among edges whose slack is below
/// `i32::MAX`; `None` when there is no such edge.
pub fn find_min_slack_edge(graph: &Graph) -> (r: Option<Edge>)
    requires
        graph.wf(),
        slacks_fit(graph),
    ensures
        r is None <==> forall|k: int|
            0 <= k < graph.edge_seq().len() ==> slack_spec(graph, #[trigger] graph.edge_seq()[k]) == i32::MAX,
        r matches Some(e) ==> exists|k: int|
            0 <= k < graph.edge_seq().len() && graph.edge_seq()[k] == e && (forall|j: int|
                0 <= j < graph.edge_seq().len() ==> slack_spec(graph, e) <= slack_spec(
                    graph,
                    #[trigger] graph.edge_seq()[j],
                )) && (forall|j: int| 0 <= j < k ==> slack_spec(graph, e) < slack_spec(graph, #[trigger] graph.edge_seq()[j])),
{
    let edges = graph.edges();
    let mut min_slack: i32 = i32::MAX;
    let mut min_edge: Option<Edge> = None;
    let ghost mut pos: int = 0;
    let mut i: usize = 0;
    while i < edges.len()
        invariant
            graph.wf(),
            slacks_fit(graph),
            edges@ == graph.edge_seq(),
            i <= edges@.len(),
            min_edge is None <==> forall|k: int| 0 <= k < i ==> slack_spec(graph, #[trigger] graph.edge_seq()[k]) == i32::MAX,
            min_edge is None ==> min_slack == i32::MAX,
            min_edge matches Some(e) ==> 0 <= pos < i && graph.edge_seq()[pos] == e && min_slack == slack_spec(graph, e)
                && (forall|j: int| 0 <= j < pos ==> min_slack < slack_spec(graph, #[trigger] graph.edge_seq()[j])),
            forall|j: int| 0 <= j < i ==> min_slack <= slack_spec(graph, #[trigger] graph.edge_seq()[j]),
        decreases edges@.len() - i,
    {
        let edge = edges[i];
        proof {
            assert(graph.entries()[i as int].0 == edge);
            assert(graph.contains_node(graph.entries()[i as int].0.source));
            assert(graph.contains_node(graph.entries()[i as int].0.target));
            assert(slack_fits(graph, graph.edge_seq()[i as int]));
        }
        let s = slack(graph, &edge);
        if s < min_slack {
            min_slack = s;
            min_edge = Some(edge);
            proof {
                pos = i as int;
            }
        }
        i += 1;
    }
    min_edge
}

/// The ranks of the nodes, by node position.
pub open spec fn rank_seq(g: &Graph) -> Seq<Option<i32>> {
    g.node_seq().map_values(|l: NodeLabel| l.rank)
}

/// The rank of `v` in `r`, 0 when it has none.
pub open spec fn rank_in(r: Seq<Option<i32>>, v: NodeIndex) -> int {
    if v.node_index < r.len() {
        match r[v.node_index as int] {
            Some(x) => x as int,
            None => 0,
        }
    } else {
        0
    }
}

/// The slack of edge `k` of `es` under the ranks `r`.
pub open spec fn slack_in(es: Seq<(Edge, EdgeLabel)>, r: Seq<Option<i32>>, k: int) -> int {
    rank_in(r, es[k].0.target) - rank_in(r, es[k].0.source) - es[k].1.minlen
}

/// Every edge into the target of edge `k` allows that target at
/// `rank(source) + minlen` of edge `k`.
pub open spec fn fits_in_edges(es: Seq<(Edge, EdgeLabel)>, r: Seq<Option<i32>>, k: int) -> bool {
    forall|j: int| 0 <= j < es.len() && (#[trigger] es[j]).0.target == es[k].0.target
        ==> rank_in(r, es[j].0.source) + es[j].1.minlen <= rank_in(r, es[k].0.source) + es[k].1.minlen
}

/// Edge `k` has positive slack, and its target can move to
/// `rank(source) + minlen` without any edge into it getting shorter than
/// its minimum length.
pub open spec fn loose_at(es: Seq<(Edge, EdgeLabel)>, r: Seq<Option<i32>>, k: int) -> bool {
    slack_in(es, r, k) > 0 && fits_in_edges(es, r, k)
}

/// One relaxation pass over the first `k` edges: every loose edge asks for
/// its target to sit at `rank(source) + minlen`; the ranks read are those
/// before the pass, and a later edge overrides an earlier one with the
/// same target.
pub open spec fn pass_prefix(es: Seq<(Edge, EdgeLabel)>, r: Seq<Option<i32>>, k: int) -> Seq<Option<i32>>
    decreases k,
{
    if k <= 0 {
        r
    } else {
        let p = pass_prefix(es, r, k - 1);
        if loose_at(es, r, k - 1) {
            p.update(
                es[k - 1].0.target.node_index as int,
                Some((rank_in(r, es[k - 1].0.source) + es[k - 1].1.minlen) as i32),
            )
        } else {
            p
        }
    }
}

/// Some edge is loose under `r`.
pub open spec fn improvable(es: Seq<(Edge, EdgeLabel)>, r: Seq<Option<i32>>) -> bool {
    exists|k: int| 0 <= k < es.len() && loose_at(es, r, k)
}

/// Relaxation passes until none finds a loose edge, at most `passes` of
/// them.
pub open spec fn relax_ranks(es: Seq<(Edge, EdgeLabel)>, r: Seq<Option<i32>>, passes: nat) -> Seq<Option<i32>>
    decreases passes,
{
    if passes == 0 || !improvable(es, r) {
        r
    } else {
        relax_ranks(es, pass_prefix(es, r, es.len() as int), (passes - 1) as nat)
    }
}

/// Every rank in `r` lies within `[lo, hi]`.
pub open spec fn ranks_within(r: Seq<Option<i32>>, lo: int, hi: int) -> bool {
    forall|i: int| 0 <= i < r.len() ==> (#[trigger] r[i] matches Some(x) ==> lo <= x <= hi)
}

/// The ranks and minimum lengths are small enough for `passes` relaxation
/// passes to stay within `i32`.
pub open spec fn relaxation_fits(g: &Graph, passes: int) -> bool {
    exists|b: int, l: int|
        0 <= b && 0 <= l && ranks_bounded(g, b) && minlens_bounded(g, l) && 2 * b + (passes + 1) * l
            < i32::MAX
}

/// A pass keeps the ranks within bounds one minimum length lower.
proof fn lemma_pass_bounds(es: Seq<(Edge, EdgeLabel)>, r: Seq<Option<i32>>, k: int, lo: int, hi: int, l: int)
    requires
        0 <= k <= es.len(),
        lo <= 0 <= hi,
        0 <= l,
        ranks_within(r, lo, hi),
        forall|j: int| 0 <= j < es.len() ==> -l <= (#[trigger] es[j]).1.minlen <= l,
        forall|j: int| 0 <= j < es.len() ==> (#[trigger] es[j]).0.target.node_index < r.len(),
        i32::MIN <= lo - l,
        hi <= i32::MAX,
    ensures
        pass_prefix(es, r, k).len() == r.len(),
        ranks_within(pass_prefix(es, r, k), lo - l, hi),
    decreases k,
{
    if k > 0 {
        lemma_pass_bounds(es, r, k - 1, lo, hi, l);
        let p = pass_prefix(es, r, k - 1);
        if loose_at(es, r, k - 1) {
            let t = es[k - 1].0.target.node_index as int;
            let v = rank_in(r, es[k - 1].0.source) + es[k - 1].1.minlen;
            assert(lo <= rank_in(r, es[k - 1].0.source) <= hi);
            assert(lo <= rank_in(r, es[k - 1].0.target) <= hi);
            assert(lo - l <= v < hi + 1);
            let q = p.update(t, Some(v as i32));
            assert forall|i: int| 0 <= i < q.len() implies (#[trigger] q[i] matches Some(x) ==> lo - l <= x <= hi) by {
                if i == t {
                    assert(q[i] == Some(v as i32));
                }
            }
        }
    }
}

/// Lowers targets of loose edges to `rank(source) + minlen`, one pass over
/// all edges at a time, until a pass finds no such edge or 100 passes have
/// run. No edge that meets its minimum length stops meeting it.
fn optimize_ranks_with_network_flow(graph: &mut Graph)
    requires
        old(graph).wf(),
        relaxation_fits(old(graph), 100),
    ensures
        final(graph).wf(),
        same_but_ranks(final(graph), old(graph)),
        rank_seq(final(graph)) == relax_ranks(old(graph).entries(), rank_seq(old(graph)), 100),
        feasible_spec(old(graph)) ==> feasible_spec(final(graph)),
{
    let ghost g0 = *graph;
    let ghost (b, l) = choose|b: int, l: int|
        0 <= b && 0 <= l && ranks_bounded(&g0, b) && minlens_bounded(&g0, l) && 2 * b + (100 + 1) * l < i32::MAX;
    let n = graph.node_count();
    let id = graph.graph_id();
    let mut improved = true;
    let mut iterations: u32 = 0;
    let max_iterations: u32 = 100;
    proof {
        assert forall|i: int| 0 <= i < rank_seq(&g0).len() implies (#[trigger] rank_seq(&g0)[i] matches Some(x)
            ==> -(b + 0 * l) <= x <= b) by {
            assert(rank_seq(&g0)[i] == g0.node_seq()[i].rank);
        }
        assert forall|x: int| 0 <= x < g0.n() implies #[trigger] g0.node_seq()[x] == (NodeLabel {
            rank: g0.node_seq()[x].rank,
            ..g0.node_seq()[x]
        }) by {}
    }
    proof {
        if feasible_spec(&g0) {
            assert forall|k: int| 0 <= k < g0.entries().len() implies slack_in(g0.entries(), rank_seq(graph), k) >= 0 by {
                lemma_slack_in(&g0, k);
                assert(slack_spec(&g0, g0.edge_seq()[k]) >= 0);
            }
        }
    }
    while improved && iterations < max_iterations
        invariant
            graph.wf(),
            same_but_ranks(graph, &g0),
            n == g0.n(),
            id == g0.id(),
            max_iterations == 100,
            iterations <= 100,
            0 <= b && 0 <= l && minlens_bounded(&g0, l) && 2 * b + 101 * l < i32::MAX,
            ranks_within(rank_seq(graph), -(b + iterations * l), b),
            improved ==> relax_ranks(g0.entries(), rank_seq(&g0), 100) == relax_ranks(
                g0.entries(),
                rank_seq(graph),
                (100 - iterations) as nat,
            ),
            !improved ==> relax_ranks(g0.entries(), rank_seq(&g0), 100) == rank_seq(graph),
            feasible_spec(&g0) ==> forall|k: int| 0 <= k < g0.entries().len() ==> slack_in(g0.entries(), rank_seq(graph), k) >= 0,
        decreases 100 - iterations,
    {
        improved = false;
        iterations += 1;
        let ghost es = graph.entries();
        let ghost r = rank_seq(graph);
        let edges = graph.edges();
        let mut new_ranks: Vec<Option<i32>> = Vec::new();
        let mut i: usize = 0;
        while i < n
            invariant
                graph.wf(),
                n == graph.n(),
                r == rank_seq(graph),
                id == graph.id(),
                i <= n,
                new_ranks@ == r.take(i as int),
            decreases n - i,
        {
            let v = NodeIndex { node_index: i, which_graph: id };
            let rk = match graph.node_label(v) {
                Some(lb) => lb.rank,
                None => None,
            };
            proof {
                assert(graph.node_at(i as int) == v);
            }
            new_ranks.push(rk);
            proof {
                assert(r.take(i + 1) =~= r.take(i as int).push(r[i as int]));
            }
            i += 1;
        }
        proof {
            assert(r.take(n as int) =~= r);
            assert(iterations * l <= 100 * l) by (nonlinear_arith)
                requires iterations <= 100, l >= 0;
            assert((iterations - 1) * l + l == iterations * l) by (nonlinear_arith);
        }
        let mut k: usize = 0;
        while k < edges.len()
            invariant
                graph.wf(),
                es == graph.entries(),
                r == rank_seq(graph),
                n == graph.n(),
                edges@ == graph.edge_seq(),
                k <= edges@.len(),
                new_ranks@ == pass_prefix(es, r, k as int),
                improved <==> exists|j: int| 0 <= j < k && loose_at(es, r, j),
                0 <= b && 0 <= l && minlens_bounded(graph, l) && 2 * b + 101 * l < i32::MAX,
                1 <= iterations <= 100,
                iterations * l <= 100 * l,
                ranks_within(r, -(b + (iterations - 1) * l), b),
                (iterations - 1) * l + l == iterations * l,
            decreases edges@.len() - k,
        {
            let edge = edges[k];
            proof {
                assert(es[k as int].0 == edge);
                assert(graph.contains_node(es[k as int].0.source));
                assert(graph.contains_node(es[k as int].0.target));
                lemma_key_pos_at(graph, edge, k as int);
                lemma_rank_in(graph, edge.source);
                lemma_rank_in(graph, edge.target);
                lemma_wf_ends(graph);
                lemma_pass_bounds(es, r, k as int, -(b + (iterations - 1) * l), b, l);
                assert(-l <= es[k as int].1.minlen <= l);
            }
            if let Some(edge_label) = graph.edge_label(&edge) {
                let current_slack = slack(graph, &edge);
                if current_slack > 0 {
                    let source_rank = match graph.node_label(edge.source) {
                        Some(lb) => match lb.rank {
                            Some(x) => x,
                            None => 0,
                        },
                        None => 0,
                    };
                    let target_rank = match graph.node_label(edge.target) {
                        Some(lb) => match lb.rank {
                            Some(x) => x,
                            None => 0,
                        },
                        None => 0,
                    };
                    let min_len = edge_label.minlen;
                    let new_target_rank = source_rank + min_len;
                    proof {
                        assert(source_rank == rank_in(r, es[k as int].0.source));
                        assert(target_rank == rank_in(r, es[k as int].0.target));
                        assert(min_len == es[k as int].1.minlen);
                    }
                    let allow = new_target_rank < target_rank && in_edges_allow(graph, edge.target, new_target_rank);
                    proof {
                        if allow {
                            assert(fits_in_edges(es, r, k as int));
                        } else if new_target_rank < target_rank {
                            assert(!fits_in_edges(es, r, k as int));
                        }
                        assert(allow == loose_at(es, r, k as int));
                    }
                    if allow {
                        new_ranks.set(edge.target.node_index, Some(new_target_rank));
                        improved = true;
                    }
                }
            }
            k += 1;
        }
        let ghost pass = new_ranks@;
        proof {
            lemma_wf_ends(graph);
            lemma_pass_bounds(es, r, es.len() as int, -(b + (iterations - 1) * l), b, l);
        }
        let mut i: usize = 0;
        while i < n
            invariant
                n == graph.n(),
                id == graph.id(),
                new_ranks@ == pass,
                pass.len() == n,
                i <= n,
                graph.wf(),
                graph.entries() == es,
                same_but_ranks(graph, &g0),
                forall|x: int| 0 <= x < i ==> #[trigger] rank_seq(graph)[x] == pass[x],
                forall|x: int| i <= x < n ==> #[trigger] rank_seq(graph)[x] == r[x],
            decreases n - i,
        {
            let v = NodeIndex { node_index: i, which_graph: id };
            let ghost gb = *graph;
            if let Some(label) = graph.node_label_mut(v) {
                label.rank = new_ranks[i];
            }
            proof {
                assert(gb.contains_node(v));
                assert forall|x: int| 0 <= x < graph.n() implies #[trigger] graph.node_seq()[x] == (NodeLabel {
                    rank: graph.node_seq()[x].rank,
                    ..g0.node_seq()[x]
                }) by {
                    assert(gb.node_seq()[x] == (NodeLabel { rank: gb.node_seq()[x].rank, ..g0.node_seq()[x] }));
                }
                assert forall|x: int| 0 <= x < graph.entries().len() implies graph.contains_node(
                    #[trigger] graph.entries()[x].0.source,
                ) && graph.contains_node(graph.entries()[x].0.target) by {
                    assert(gb.contains_node(gb.entries()[x].0.source));
                    assert(gb.contains_node(gb.entries()[x].0.target));
                }
                assert forall|x: int| 0 <= x < i + 1 implies #[trigger] rank_seq(graph)[x] == pass[x] by {
                    if x < i {
                        assert(rank_seq(&gb)[x] == pass[x]);
                    }
                }
                assert forall|x: int| i + 1 <= x < n implies #[trigger] rank_seq(graph)[x] == r[x] by {
                    assert(rank_seq(&gb)[x] == r[x]);
                }
            }
            i += 1;
        }
        proof {
            assert(rank_seq(graph) =~= pass);
            assert(graph.entries() == g0.entries());
            if feasible_spec(&g0) {
                lemma_wf_ends(graph);
                assert forall|j: int| 0 <= j < es.len() implies (#[trigger] es[j]).0.target.which_graph == id by {
                    assert(graph.contains_node(graph.entries()[j].0.target));
                }
                lemma_pass_feasible(es, r, -(b + (iterations - 1) * l), b, l, id);
            }
            if improved {
                assert(improvable(es, r));
            } else {
                assert(!improvable(es, r));
                assert(pass_prefix(es, r, es.len() as int) =~= r) by {
                    lemma_pass_identity(es, r, es.len() as int);
                }
            }
        }
    }
    proof {
        if feasible_spec(&g0) {
            assert forall|k: int| 0 <= k < graph.edge_seq().len() implies slack_spec(graph, #[trigger] graph.edge_seq()[k]) >= 0 by {
                lemma_slack_in(graph, k);
            }
        }
    }
}

/// The slack of the `k`-th edge is the one its rank sequence gives.
proof fn lemma_slack_in(g: &Graph, k: int)
    requires
        g.wf(),
        0 <= k < g.entries().len(),
    ensures
        slack_spec(g, g.edge_seq()[k]) == slack_in(g.entries(), rank_seq(g), k),
{
    let e = g.entries()[k].0;
    assert(g.edge_seq()[k] == e);
    lemma_key_pos_at(g, e, k);
    assert(g.contains_node(g.entries()[k].0.source));
    assert(g.contains_node(g.entries()[k].0.target));
    lemma_rank_in(g, e.source);
    lemma_rank_in(g, e.target);
}

/// Whether every edge into `w` allows `w` at rank `x`: its source's rank
/// (0 without one) plus its minimum length is at most `x`.
fn in_edges_allow(graph: &Graph, w: NodeIndex, x: i32) -> (r: bool)
    requires
        graph.wf(),
    ensures
        r == forall|j: int| 0 <= j < graph.entries().len() && (#[trigger] graph.entries()[j]).0.target == w
            ==> rank_in(rank_seq(graph), graph.entries()[j].0.source) + graph.entries()[j].1.minlen <= x,
{
    let es = graph.edges();
    let mut j: usize = 0;
    while j < es.len()
        invariant
            graph.wf(),
            es@ == graph.edge_seq(),
            j <= es@.len(),
            forall|q: int| 0 <= q < j && (#[trigger] graph.entries()[q]).0.target == w
                ==> rank_in(rank_seq(graph), graph.entries()[q].0.source) + graph.entries()[q].1.minlen <= x,
        decreases es@.len() - j,
    {
        let e = es[j];
        proof {
            assert(graph.entries()[j as int].0 == e);
            lemma_key_pos_at(graph, e, j as int);
            assert(graph.contains_node(graph.entries()[j as int].0.source));
            lemma_rank_in(graph, e.source);
        }
        if e.target == w {
            let sr: i32 = match graph.node_label(e.source) {
                Some(lb) => match lb.rank {
                    Some(v) => v,
                    None => 0,
                },
                None => 0,
            };
            let m: i32 = match graph.edge_label(&e) {
                Some(lb) => lb.minlen,
                None => 0,
            };
            if (sr as i64) + (m as i64) > (x as i64) {
                return false;
            }
        }
        j += 1;
    }
    true
}

/// A relaxation pass leaves every rank where it was or lowers it to the
/// request of a loose edge into it.
proof fn lemma_pass_shape(es: Seq<(Edge, EdgeLabel)>, r: Seq<Option<i32>>, k: int, t: int)
    requires
        0 <= k <= es.len(),
        0 <= t < r.len(),
        forall|j: int| 0 <= j < es.len() ==> (#[trigger] es[j]).0.target.node_index < r.len(),
    ensures
        pass_prefix(es, r, k).len() == r.len(),
        pass_prefix(es, r, k)[t] == r[t] || exists|i: int| 0 <= i < k && loose_at(es, r, i)
            && (#[trigger] es[i]).0.target.node_index == t
            && pass_prefix(es, r, k)[t] == Some((rank_in(r, es[i].0.source) + es[i].1.minlen) as i32),
    decreases k,
{
    if k > 0 {
        lemma_pass_shape(es, r, k - 1, t);
        if loose_at(es, r, k - 1) && es[k - 1].0.target.node_index == t {
            assert(pass_prefix(es, r, k)[t] == Some((rank_in(r, es[k - 1].0.source) + es[k - 1].1.minlen) as i32));
        } else if pass_prefix(es, r, k - 1)[t] != r[t] {
            let i = choose|i: int| 0 <= i < k - 1 && loose_at(es, r, i) && (#[trigger] es[i]).0.target.node_index == t
                && pass_prefix(es, r, k - 1)[t] == Some((rank_in(r, es[i].0.source) + es[i].1.minlen) as i32);
            assert(es[i].0.target.node_index == t);
        }
    }
}

/// A relaxation pass keeps every edge at least as long as its minimum
/// length.
proof fn lemma_pass_feasible(es: Seq<(Edge, EdgeLabel)>, r: Seq<Option<i32>>, lo: int, hi: int, l: int, gid: u32)
    requires
        forall|j: int| 0 <= j < es.len() ==> (#[trigger] es[j]).0.target.node_index < r.len()
            && es[j].0.source.node_index < r.len() && es[j].0.target.which_graph == gid,
        forall|k: int| 0 <= k < es.len() ==> slack_in(es, r, k) >= 0,
        ranks_within(r, lo, hi),
        forall|j: int| 0 <= j < es.len() ==> -l <= (#[trigger] es[j]).1.minlen <= l,
        lo <= 0 <= hi,
        i32::MIN <= lo - l,
        hi + l <= i32::MAX,
    ensures
        forall|k: int| 0 <= k < es.len() ==> slack_in(es, pass_prefix(es, r, es.len() as int), k) >= 0,
{
    let n = es.len() as int;
    let p = pass_prefix(es, r, n);
    assert forall|k: int| 0 <= k < es.len() implies slack_in(es, p, k) >= 0 by {
        let u = es[k].0.source;
        let w = es[k].0.target;
        let tu = u.node_index as int;
        let tw = w.node_index as int;
        lemma_pass_shape(es, r, n, tu);
        lemma_pass_shape(es, r, n, tw);
        assert(rank_in(r, u) == match r[tu] { Some(x) => x as int, None => 0 });
        if p[tu] != r[tu] {
            let i = choose|i: int| 0 <= i < n && loose_at(es, r, i) && (#[trigger] es[i]).0.target.node_index == tu
                && p[tu] == Some((rank_in(r, es[i].0.source) + es[i].1.minlen) as i32);
            assert(lo <= rank_in(r, es[i].0.source) <= hi) by {
                if r[es[i].0.source.node_index as int] is Some {
                }
            }
            assert(es[i].0.target == u || es[i].0.target.node_index == tu);
            assert(slack_in(es, r, i) > 0);
            assert(rank_in(r, es[i].0.target) == rank_in(r, u));
            assert(rank_in(p, u) < rank_in(r, u));
        }
        if p[tw] != r[tw] {
            let i = choose|i: int| 0 <= i < n && loose_at(es, r, i) && (#[trigger] es[i]).0.target.node_index == tw
                && p[tw] == Some((rank_in(r, es[i].0.source) + es[i].1.minlen) as i32);
            assert(lo <= rank_in(r, es[i].0.source) <= hi) by {
                if r[es[i].0.source.node_index as int] is Some {
                }
            }
            assert(fits_in_edges(es, r, i));
            assert(es[k].0.target == es[i].0.target || es[k].0.target.node_index == es[i].0.target.node_index);
            assert(rank_in(r, u) + es[k].1.minlen <= rank_in(p, w));
        }
    }
}

/// The end points of every edge of a well-formed graph are node positions.
proof fn lemma_wf_ends(g: &Graph)
    requires
        g.wf(),
    ensures
        forall|j: int| 0 <= j < g.entries().len() ==> (#[trigger] g.entries()[j]).0.target.node_index < rank_seq(g).len()
            && g.entries()[j].0.source.node_index < rank_seq(g).len(),
{
    assert forall|j: int| 0 <= j < g.entries().len() implies (#[trigger] g.entries()[j]).0.target.node_index < rank_seq(g).len()
        && g.entries()[j].0.source.node_index < rank_seq(g).len() by {
        assert(g.contains_node(g.entries()[j].0.source));
        assert(g.contains_node(g.entries()[j].0.target));
    }
}

/// The rank `slack` reads is the one in the rank sequence.
proof fn lemma_rank_in(g: &Graph, v: NodeIndex)
    requires
        g.contains_node(v),
    ensures
        rank_in(rank_seq(g), v) == rank_or_zero(g, v),
{
}

/// A pass over edges without positive slack changes nothing.
proof fn lemma_pass_identity(es: Seq<(Edge, EdgeLabel)>, r: Seq<Option<i32>>, k: int)
    requires
        0 <= k <= es.len(),
        forall|j: int| 0 <= j < k ==> !loose_at(es, r, j),
    ensures
        pass_prefix(es, r, k) == r,
    decreases k,
{
    if k > 0 {
        lemma_pass_identity(es, r, k - 1);
    }
}

/// The edge label of the auxiliary network: default attributes with the
/// minimum length and weight of `l`.
pub open spec fn aux_label(l: EdgeLabel) -> EdgeLabel {
    EdgeLabel { minlen: l.minlen, weight: l.weight, ..crate::types::default_edge_label() }
}

/// The auxiliary network of `g` with id `id`, as a sequence of entries:
/// for every node `i` (node `i + 2` of the network) an edge from the
/// source (node 0) and one to the sink (node 1), then every edge of `g`
/// between the corresponding network nodes.
pub open spec fn aux_entries(g: &Graph, id: u32) -> Seq<(Edge, EdgeLabel)> {
    let n = g.n() as int;
    let src = NodeIndex { node_index: 0, which_graph: id };
    let sink = NodeIndex { node_index: 1, which_graph: id };
    Seq::new(
        (2 * n + g.entries().len()) as nat,
        |k: int|
            if k < 2 * n {
                let v = NodeIndex { node_index: (k / 2 + 2) as usize, which_graph: id };
                if k % 2 == 0 {
                    (Edge { source: src, target: v }, crate::types::default_edge_label())
                } else {
                    (Edge { source: v, target: sink }, crate::types::default_edge_label())
                }
            } else {
                let p = g.entries()[k - 2 * n];
                (
                    Edge {
                        source: NodeIndex { node_index: (p.0.source.node_index + 2) as usize, which_graph: id },
                        target: NodeIndex { node_index: (p.0.target.node_index + 2) as usize, which_graph: id },
                    },
                    aux_label(p.1),
                )
            },
    )
}

/// The network of a flow formulation of the ranking: a source and a sink,
/// a node per node of `graph` joined to both, and the edges of `graph`
/// with their minimum lengths and weights, in a graph with id `graph_id`.
pub fn create_auxiliary_graph(graph: &Graph, graph_id: u32) -> (r: Graph)
    requires
        graph.wf(),
        graph.n() + 2 < usize::MAX,
    ensures
        r.wf(),
        r.id() == graph_id,
        r.n() == graph.n() + 2,
        forall|i: int| 0 <= i < r.n() ==> (#[trigger] r.node_seq()[i]).is_default(),
        r.entries() == aux_entries(graph, graph_id),
{
    let mut aux_graph = Graph::new(graph_id);
    let source_node = aux_graph.add_node(NodeLabel::default());
    let sink_node = aux_graph.add_node(NodeLabel::default());
    let ghost n = graph.n() as int;
    let ghost target = aux_entries(graph, graph_id);
    let nodes = graph.node_indices();
    let mut mapping: Vec<NodeIndex> = Vec::new();
    let mut i: usize = 0;
    proof {
        assert(aux_graph.entries() =~= target.take(0));
    }
    while i < nodes.len()
        invariant
            graph.wf(),
            nodes@.len() == n,
            n == graph.n(),
            n + 2 < usize::MAX,
            target == aux_entries(graph, graph_id),
            i <= n,
            aux_graph.wf(),
            aux_graph.id() == graph_id,
            aux_graph.n() == i + 2,
            source_node == (NodeIndex { node_index: 0, which_graph: graph_id }),
            sink_node == (NodeIndex { node_index: 1, which_graph: graph_id }),
            forall|k: int| 0 <= k < aux_graph.n() ==> (#[trigger] aux_graph.node_seq()[k]).is_default(),
            aux_graph.entries() == target.take(2 * i),
            mapping@.len() == i,
            forall|k: int| 0 <= k < i ==> #[trigger] mapping@[k] == (NodeIndex { node_index: (k + 2) as usize, which_graph: graph_id }),
        decreases n - i,
    {
        let ghost g1 = aux_graph;
        let new_node_id = aux_graph.add_node(NodeLabel::default());
        proof {
            assert(new_node_id == (NodeIndex { node_index: (i + 2) as usize, which_graph: graph_id }));
            assert(!aux_graph.has_edge_spec(Edge { source: source_node, target: new_node_id })) by {
                if aux_graph.has_edge_spec(Edge { source: source_node, target: new_node_id }) {
                    let q = choose|q: int| 0 <= q < aux_graph.entries().len() && #[trigger] aux_graph.entries()[q].0 == Edge { source: source_node, target: new_node_id };
                    assert(target[q] == aux_graph.entries()[q]);
                    assert(q < 2 * i);
                    assert(0 <= q / 2 < i) by (nonlinear_arith)
                        requires
                            0 <= q < 2 * i;
                }
            }
        }
        aux_graph.add_edge(Edge::new(source_node, new_node_id), EdgeLabel::default());
        proof {
            assert(!aux_graph.has_edge_spec(Edge { source: new_node_id, target: sink_node })) by {
                if aux_graph.has_edge_spec(Edge { source: new_node_id, target: sink_node }) {
                    let q = choose|q: int| 0 <= q < aux_graph.entries().len() && #[trigger] aux_graph.entries()[q].0 == Edge { source: new_node_id, target: sink_node };
                    if q < 2 * i {
                        assert(target[q] == aux_graph.entries()[q]);
                        assert(q / 2 < i) by (nonlinear_arith)
                            requires
                                0 <= q < 2 * i;
                    }
                }
            }
        }
        aux_graph.add_edge(Edge::new(new_node_id, sink_node), EdgeLabel::default());
        mapping.push(new_node_id);
        proof {
            assert forall|k: int| 0 <= k < 2 * i + 2 implies #[trigger] aux_graph.entries()[k] == target.take(2 * i + 2)[k] by {
                if k == 2 * i || k == 2 * i + 1 {
                    assert(k / 2 == i) by (nonlinear_arith)
                        requires
                            k == 2 * i || k == 2 * i + 1;
                    assert(k % 2 == (if k == 2 * i { 0int } else { 1int })) by (nonlinear_arith)
                        requires
                            k == 2 * i || k == 2 * i + 1;
                }
            }
            assert(aux_graph.entries() =~= target.take(2 * i + 2));
        }
        i += 1;
    }
    let edges = graph.edges();
    let mut j: usize = 0;
    while j < edges.len()
        invariant
            graph.wf(),
            edges@ == graph.edge_seq(),
            n == graph.n(),
            n + 2 < usize::MAX,
            target == aux_entries(graph, graph_id),
            j <= edges@.len(),
            aux_graph.wf(),
            aux_graph.id() == graph_id,
            aux_graph.n() == n + 2,
            forall|k: int| 0 <= k < aux_graph.n() ==> (#[trigger] aux_graph.node_seq()[k]).is_default(),
            aux_graph.entries() == target.take(2 * n + j),
            mapping@.len() == n,
            forall|k: int| 0 <= k < n ==> #[trigger] mapping@[k] == (NodeIndex { node_index: (k + 2) as usize, which_graph: graph_id }),
        decreases edges@.len() - j,
    {
        let e = edges[j];
        proof {
            assert(graph.entries()[j as int].0 == e);
            assert(graph.contains_node(graph.entries()[j as int].0.source));
            assert(graph.contains_node(graph.entries()[j as int].0.target));
        }
        let new_source = mapping[e.source.node_index];
        let new_target = mapping[e.target.node_index];
        let l = graph.edge_label(&e).unwrap();
        let mut edge_label = EdgeLabel::default();
        edge_label.minlen = l.minlen;
        edge_label.weight = l.weight;
        proof {
            assert(graph.entries()[j as int].1 == graph.edge_label_spec(e));
            assert(!aux_graph.has_edge_spec(Edge { source: new_source, target: new_target })) by {
                if aux_graph.has_edge_spec(Edge { source: new_source, target: new_target }) {
                    let q = choose|q: int| 0 <= q < aux_graph.entries().len() && #[trigger] aux_graph.entries()[q].0 == Edge { source: new_source, target: new_target };
                    assert(target[q] == aux_graph.entries()[q]);
                    if q >= 2 * n {
                        let o = graph.entries()[q - 2 * n].0;
                        assert(graph.contains_node(graph.entries()[q - 2 * n].0.source));
                        assert(graph.contains_node(graph.entries()[q - 2 * n].0.target));
                        assert(o.source == e.source && o.target == e.target);
                        assert(graph.entries()[q - 2 * n].0 == graph.entries()[j as int].0);
                    }
                }
            }
        }
        aux_graph.add_edge(Edge::new(new_source, new_target), edge_label);
        proof {
            assert(aux_graph.entries() =~= target.take(2 * n + j + 1));
        }
        j += 1;
    }
    proof {
        assert(target.take(2 * n + graph.entries().len()) =~= target);
    }
    aux_graph
}

/// The ranks and minimum lengths of `g` are small enough for the
/// feasible-tree ranking to stay within `i32`.
pub open spec fn feasible_tree_fits(g: &Graph) -> bool {
    exists|rb: int, lb: int|
        0 <= rb && 0 <= lb && ranks_bounded(g, rb) && minlens_bounded(g, lb) && 2 * (rb + g.n() * lb) + 101 * lb
            < i32::MAX
}

/// What `feasible_tree` makes of `g0`: the relaxation passes applied to a
/// longest-path ranking, with every minimum length met where that ranking
/// meets them.
pub open spec fn feasible_tree_done(g: &Graph, g0: &Graph) -> bool {
    &&& g.wf()
    &&& same_but_ranks(g, g0)
    &&& exists|g1: Graph|
        #![trigger rank_seq(&g1)]
        same_but_ranks(&g1, g0) && crate::rank::util::longest_path_result(&g1, g0) && rank_seq(g) == relax_ranks(
            g0.entries(),
            rank_seq(&g1),
            100,
        ) && (feasible_spec(&g1) ==> feasible_spec(g))
}

/// Longest-path ranking followed by at most 100 relaxation passes, which
/// lower a node only as far as every edge into it allows: where the
/// longest-path ranks meet every minimum length, so do the final ones.
pub fn feasible_tree(graph: &mut Graph)
    requires
        old(graph).wf(),
        feasible_tree_fits(old(graph)),
    ensures
        feasible_tree_done(final(graph), old(graph)),
{
    let ghost (rb, lb) = choose|rb: int, lb: int|
        0 <= rb && 0 <= lb && ranks_bounded(graph, rb) && minlens_bounded(graph, lb) && 2 * (rb + graph.n() * lb)
            + 101 * lb < i32::MAX;
    let ghost g0 = *graph;
    proof {
        assert(lb * (g0.n() + 1) == lb * g0.n() + lb) by (nonlinear_arith);
        assert(rb + (g0.n() + 1) * lb < i32::MAX) by (nonlinear_arith)
            requires 2 * (rb + g0.n() * lb) + 101 * lb < i32::MAX, rb >= 0, lb >= 0, g0.n() >= 0;
    }
    longest_path_within(graph, Ghost(rb), Ghost(lb));
    let ghost g1 = *graph;
    proof {
        assert(minlens_bounded(graph, lb));
        assert(g0.n() * lb >= 0) by (nonlinear_arith)
            requires lb >= 0;
        assert(relaxation_fits(graph, 100));
    }
    optimize_ranks_with_network_flow(graph);
    proof {
        assert(crate::rank::util::longest_path_result(&g1, &g0));
    }
}

/// `ord` numbers the nodes `0..n` so that every edge goes from a lower to a
/// higher number: the graph has no cycle.
pub open spec fn topological_numbering(g: &Graph, ord: spec_fn(int) -> int) -> bool {
    &&& forall|i: int| 0 <= i < g.n() ==> 0 <= #[trigger] ord(i) < g.n()
    &&& forall|k: int|
        0 <= k < g.entries().len() ==> ord((#[trigger] g.entries()[k]).0.source.node_index as int) < ord(
            g.entries()[k].0.target.node_index as int,
        )
}

/// The value of a rank attribute, 0 when there is none.
pub open spec fn val(x: Option<i32>) -> int {
    match x {
        Some(y) => y as int,
        None => 0,
    }
}

/// How far the first `k` ranks of `r` lie below `cap`, summed.
pub open spec fn headroom(r: Seq<Option<i32>>, cap: int, k: int) -> int
    decreases k,
{
    if k <= 0 {
        0
    } else {
        headroom(r, cap, k - 1) + (cap - val(r[k - 1]))
    }
}

proof fn lemma_headroom_update(r: Seq<Option<i32>>, cap: int, t: int, x: i32, k: int)
    requires
        0 <= t < r.len(),
        0 <= k <= r.len(),
    ensures
        headroom(r.update(t, Some(x)), cap, k) == headroom(r, cap, k) - (if t < k { x - val(r[t]) } else { 0 }),
    decreases k,
{
    if k > 0 {
        lemma_headroom_update(r, cap, t, x, k - 1);
    }
}

proof fn lemma_headroom_nonneg(r: Seq<Option<i32>>, cap: int, k: int)
    requires
        0 <= k <= r.len(),
        forall|i: int| 0 <= i < r.len() ==> val(#[trigger] r[i]) <= cap,
    ensures
        headroom(r, cap, k) >= 0,
    decreases k,
{
    if k > 0 {
        lemma_headroom_nonneg(r, cap, k - 1);
    }
}

/// `r` gives every node of `g` at least its rank (0 for none) and keeps
/// every edge of `g` at least as long as its minimum length.
pub open spec fn lifts_feasibly(g: &Graph, r: spec_fn(int) -> int) -> bool {
    &&& forall|i: int| 0 <= i < g.n() ==> #[trigger] r(i) >= val(rank_seq(g)[i])
    &&& forall|k: int|
        0 <= k < g.edge_seq().len() ==> r((#[trigger] g.edge_seq()[k]).target.node_index as int) - r(
            g.edge_seq()[k].source.node_index as int,
        ) >= minlen_or_one(g, g.edge_seq()[k])
}

/// Every rank of `g` (0 for none) is at most what `r` gives its node.
pub open spec fn ranks_below(g: &Graph, r: spec_fn(int) -> int) -> bool {
    forall|i: int| 0 <= i < g.n() ==> val(#[trigger] rank_seq(g)[i]) <= r(i)
}

/// Raises the target of the edge of least slack to `rank(source) + minlen`
/// while that slack is negative. On a graph without cycles this ends with
/// every edge respecting its minimum length; ranks only grow.
pub fn adjust_ranks_for_min_slack(graph: &mut Graph)
    requires
        old(graph).wf(),
        exists|ord: spec_fn(int) -> int| topological_numbering(old(graph), ord),
        exists|b: int, l: int|
            0 <= b && 0 <= l && ranks_bounded(old(graph), b) && minlens_bounded(old(graph), l) && 2 * b + (
            old(graph).n() + 1) * l < i32::MAX,
    ensures
        final(graph).wf(),
        same_but_ranks(final(graph), old(graph)),
        feasible_spec(final(graph)),
        forall|i: int| 0 <= i < old(graph).n() ==> val(#[trigger] rank_seq(final(graph))[i]) >= val(rank_seq(old(graph))[i]),
        forall|i: int|
            0 <= i < old(graph).n() && rank_seq(final(graph))[i] != rank_seq(old(graph))[i] ==> #[trigger] rank_seq(
                final(graph),
            )[i] is Some && val(rank_seq(final(graph))[i]) > val(rank_seq(old(graph))[i]),
        forall|r: spec_fn(int) -> int| #[trigger] lifts_feasibly(old(graph), r) ==> ranks_below(final(graph), r),
{
    let ghost g0 = *graph;
    let ghost ord = choose|ord: spec_fn(int) -> int| topological_numbering(&g0, ord);
    let ghost (b, l) = choose|b: int, l: int|
        0 <= b && 0 <= l && ranks_bounded(&g0, b) && minlens_bounded(&g0, l) && 2 * b + (g0.n() + 1) * l < i32::MAX;
    let ghost n = g0.n() as int;
    let ghost cap = b + l * n;
    proof {
        assert forall|x: int| 0 <= x < g0.n() implies #[trigger] g0.node_seq()[x] == (NodeLabel {
            rank: g0.node_seq()[x].rank,
            ..g0.node_seq()[x]
        }) by {}
        assert forall|i: int| 0 <= i < n implies -b <= val(#[trigger] rank_seq(&g0)[i]) <= b + l * ord(i) by {
            assert(rank_seq(&g0)[i] == g0.node_seq()[i].rank);
            assert(l * ord(i) >= 0) by (nonlinear_arith)
                requires l >= 0, ord(i) >= 0;
        }
        assert(l * n == n * l) by (nonlinear_arith);
        assert((n + 1) * l == n * l + l) by (nonlinear_arith);
    }
    loop
        invariant
            graph.wf(),
            same_but_ranks(graph, &g0),
            topological_numbering(&g0, ord),
            n == graph.n(),
            0 <= b && 0 <= l && minlens_bounded(&g0, l) && 2 * b + l * n + l < i32::MAX,
            cap == b + l * n,
            forall|i: int| 0 <= i < n ==> -b <= val(#[trigger] rank_seq(graph)[i]) <= b + l * ord(i),
            forall|i: int| 0 <= i < n ==> val(#[trigger] rank_seq(graph)[i]) >= val(rank_seq(&g0)[i]),
            forall|i: int| 0 <= i < n && rank_seq(graph)[i] != rank_seq(&g0)[i] ==> #[trigger] rank_seq(graph)[i] is Some
                && val(rank_seq(graph)[i]) > val(rank_seq(&g0)[i]),
            forall|r: spec_fn(int) -> int| #[trigger] lifts_feasibly(&g0, r) ==> ranks_below(graph, r),
        ensures
            graph.wf(),
            same_but_ranks(graph, &g0),
            feasible_spec(graph),
            forall|i: int| 0 <= i < n ==> val(#[trigger] rank_seq(graph)[i]) >= val(rank_seq(&g0)[i]),
            forall|i: int| 0 <= i < n && rank_seq(graph)[i] != rank_seq(&g0)[i] ==> #[trigger] rank_seq(graph)[i] is Some
                && val(rank_seq(graph)[i]) > val(rank_seq(&g0)[i]),
            forall|r: spec_fn(int) -> int| #[trigger] lifts_feasibly(&g0, r) ==> ranks_below(graph, r),
        decreases headroom(rank_seq(graph), cap, n),
    {
        proof {
            lemma_wf_ends(graph);
            assert forall|i: int| 0 <= i < n implies val(#[trigger] rank_seq(graph)[i]) <= cap by {
                assert(l * ord(i) <= l * n) by (nonlinear_arith)
                    requires l >= 0, ord(i) < n;
            }
            lemma_headroom_nonneg(rank_seq(graph), cap, n);
            assert forall|k: int| 0 <= k < graph.edge_seq().len() implies slack_fits(graph, #[trigger] graph.edge_seq()[k]) by {
                let e = graph.edge_seq()[k];
                assert(graph.entries()[k].0 == e);
                lemma_key_pos_at(graph, e, k);
                lemma_rank_in(graph, e.source);
                lemma_rank_in(graph, e.target);
                assert(-l <= g0.entries()[k].1.minlen <= l);
                assert(l * ord(e.source.node_index as int) <= l * n) by (nonlinear_arith)
                    requires l >= 0, ord(e.source.node_index as int) < n;
                assert(l * ord(e.target.node_index as int) <= l * n) by (nonlinear_arith)
                    requires l >= 0, ord(e.target.node_index as int) < n;
            }
        }
        let found = find_min_slack_edge(graph);
        match found {
            None => {
                proof {
                    assert forall|k: int| 0 <= k < graph.edge_seq().len() implies slack_spec(graph, #[trigger] graph.edge_seq()[k]) >= 0 by {}
                }
                break;
            },
            Some(edge) => {
                let ghost k = choose|k: int| 0 <= k < graph.edge_seq().len() && graph.edge_seq()[k] == edge && (forall|j: int|
                    0 <= j < graph.edge_seq().len() ==> slack_spec(graph, edge) <= slack_spec(graph, #[trigger] graph.edge_seq()[j]));
                proof {
                    assert(graph.entries()[k].0 == edge);
                    assert(graph.contains_node(edge.source));
                    assert(graph.contains_node(edge.target));
                    assert(slack_fits(graph, graph.edge_seq()[k]));
                }
                let s = slack(graph, &edge);
                if s >= 0 {
                    break;
                }
                let ghost gb = *graph;
                let ghost rb0 = rank_seq(graph);
                proof {
                    lemma_key_pos_at(graph, edge, k);
                    lemma_rank_in(graph, edge.source);
                    lemma_rank_in(graph, edge.target);
                    assert(-l <= g0.entries()[k].1.minlen <= l);
                    assert(ord(edge.source.node_index as int) + 1 <= ord(edge.target.node_index as int));
                    assert(l * ord(edge.source.node_index as int) + l <= l * ord(edge.target.node_index as int)) by (nonlinear_arith)
                        requires l >= 0, ord(edge.source.node_index as int) + 1 <= ord(edge.target.node_index as int);
                    assert(l * ord(edge.target.node_index as int) <= l * n) by (nonlinear_arith)
                        requires l >= 0, ord(edge.target.node_index as int) < n;
                }
                let source_rank = match graph.node_label(edge.source) {
                    Some(lb) => match lb.rank {
                        Some(x) => x,
                        None => 0,
                    },
                    None => 0,
                };
                let min_len = match graph.edge_label(&edge) {
                    Some(el) => el.minlen,
                    None => 1,
                };
                let new_rank = source_rank + min_len;
                if let Some(target_label) = graph.node_label_mut(edge.target) {
                    match target_label.rank {
                        Some(current_rank) => {
                            if new_rank > current_rank {
                                target_label.rank = Some(new_rank);
                            }
                        },
                        None => {
                            target_label.rank = Some(new_rank);
                        },
                    }
                }
                proof {
                    let t = edge.target.node_index as int;
                    assert(s == rank_or_zero(&gb, edge.target) - rank_or_zero(&gb, edge.source) - min_len);
                    assert(val(rb0[t]) == rank_or_zero(&gb, edge.target));
                    assert(new_rank > val(rb0[t]));
                    assert(rank_seq(graph) =~= rb0.update(t, Some(new_rank)));
                    lemma_headroom_update(rb0, cap, t, new_rank, n);
                    assert(headroom(rank_seq(graph), cap, n) < headroom(rb0, cap, n));
                    assert forall|i: int| 0 <= i < n implies val(#[trigger] rank_seq(graph)[i]) <= cap by {
                        if i != t {
                            assert(rank_seq(graph)[i] == rb0[i]);
                        }
                        assert(l * ord(i) <= l * n) by (nonlinear_arith)
                            requires l >= 0, ord(i) < n;
                    }
                    lemma_headroom_nonneg(rank_seq(graph), cap, n);
                    assert forall|x: int| 0 <= x < graph.n() implies #[trigger] graph.node_seq()[x] == (NodeLabel {
                        rank: graph.node_seq()[x].rank,
                        ..g0.node_seq()[x]
                    }) by {
                        assert(gb.node_seq()[x] == (NodeLabel { rank: gb.node_seq()[x].rank, ..g0.node_seq()[x] }));
                    }
                    assert forall|x: int| 0 <= x < graph.entries().len() implies graph.contains_node(
                        #[trigger] graph.entries()[x].0.source,
                    ) && graph.contains_node(graph.entries()[x].0.target) by {
                        assert(gb.contains_node(gb.entries()[x].0.source));
                        assert(gb.contains_node(gb.entries()[x].0.target));
                    }
                    assert forall|i: int| 0 <= i < n implies -b <= val(#[trigger] rank_seq(graph)[i]) <= b + l * ord(i) by {
                        if i != t {
                            assert(rank_seq(graph)[i] == rb0[i]);
                        }
                    }
                    assert forall|i: int| 0 <= i < n implies val(#[trigger] rank_seq(graph)[i]) >= val(rank_seq(&g0)[i]) by {
                        if i != t {
                            assert(rank_seq(graph)[i] == rb0[i]);
                        }
                    }
                    assert forall|i: int| 0 <= i < n && rank_seq(graph)[i] != rank_seq(&g0)[i] implies #[trigger] rank_seq(graph)[i] is Some
                        && val(rank_seq(graph)[i]) > val(rank_seq(&g0)[i]) by {
                        if i != t {
                            assert(rank_seq(graph)[i] == rb0[i]);
                        }
                    }
                    assert forall|r: spec_fn(int) -> int| #[trigger] lifts_feasibly(&g0, r) implies ranks_below(graph, r) by {
                        assert(ranks_below(&gb, r));
                        let sidx = edge.source.node_index as int;
                        assert(g0.edge_seq()[k] == edge);
                        assert(r(t) - r(sidx) >= minlen_or_one(&g0, g0.edge_seq()[k]));
                        assert(minlen_or_one(&g0, edge) == min_len);
                        assert(val(rb0[sidx]) == source_rank);
                        assert(val(rb0[sidx]) <= r(sidx));
                        assert forall|i: int| 0 <= i < graph.n() implies val(#[trigger] rank_seq(graph)[i]) <= r(i) by {
                            if i != t {
                                assert(rank_seq(graph)[i] == rb0[i]);
                            }
                        }
                    }
                }
            },
        }
    }
}

} // verus!
