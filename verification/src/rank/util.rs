//! Ranking helpers: slack, longest-path ranking, cycle detection.
use vstd::prelude::*;
use crate::graph::{Graph, lemma_incident_index, lemma_incident_contains};
use crate::types::{Dummy, Edge, EdgeLabel, NodeIndex, NodeLabel};

verus! {

/// The rank of `v`, or 0 when `v` is not a node or has no rank.
pub open spec fn rank_or_zero(g: &Graph, v: NodeIndex) -> int {
    if g.contains_node(v) {
        match g.label_of(v).rank {
            Some(r) => r as int,
            None => 0,
        }
    } else {
        0
    }
}

/// The minimum length of `e`, or 1 when `e` is not an edge.
pub open spec fn minlen_or_one(g: &Graph, e: Edge) -> int {
    if g.has_edge_spec(e) {
        g.edge_label_spec(e).minlen as int
    } else {
        1
    }
}

/// How much longer than its minimum length the edge `e` is.
pub open spec fn slack_spec(g: &Graph, e: Edge) -> int {
    rank_or_zero(g, e.target) - rank_or_zero(g, e.source) - minlen_or_one(g, e)
}

/// The slack of `edge` is an `i32`, and so is the rank difference on the
/// way to it.
pub open spec fn slack_fits(g: &Graph, e: Edge) -> bool {
    &&& i32::MIN <= rank_or_zero(g, e.target) - rank_or_zero(g, e.source) <= i32::MAX
    &&& i32::MIN <= slack_spec(g, e) <= i32::MAX
}

/// The slack of `edge`: the rank difference of its end points minus its
/// minimum length.
pub fn slack(graph: &Graph, edge: &Edge) -> (r: i32)
    requires
        edge.source.which_graph == graph.id(),
        edge.target.which_graph == graph.id(),
        slack_fits(graph, *edge),
    ensures
        r == slack_spec(graph, *edge),
{
    let source_rank = match graph.node_label(edge.source) {
        Some(l) => match l.rank {
            Some(r) => r,
            None => 0,
        },
        None => 0,
    };
    let target_rank = match graph.node_label(edge.target) {
        Some(l) => match l.rank {
            Some(r) => r,
            None => 0,
        },
        None => 0,
    };
    let min_len = match graph.edge_label(edge) {
        Some(l) => l.minlen,
        None => 1,
    };
    target_rank - source_rank - min_len
}

/// Node `i` of `g` is a dummy node of a long edge.
pub open spec fn is_edge_dummy(g: &Graph, i: int) -> bool {
    g.node_seq()[i].dummy == Some(Dummy::Edge)
}

/// The rank attribute of node `i`.
pub open spec fn rank_at(g: &Graph, i: int) -> Option<i32> {
    g.node_seq()[i].rank
}

/// `g` differs from `g0` at most in the ranks of its nodes.
pub open spec fn same_but_ranks(g: &Graph, g0: &Graph) -> bool {
    &&& g.n() == g0.n()
    &&& g.entries() == g0.entries()
    &&& g.id() == g0.id()
    &&& g.config_spec() == g0.config_spec()
    &&& forall|i: int|
        0 <= i < g.n() ==> #[trigger] g.node_seq()[i] == (NodeLabel { rank: g.node_seq()[i].rank, ..g0.node_seq()[i] })
}

/// `ord` numbers the nodes so that every edge between two nodes that are
/// not dummy nodes of long edges goes from a lower to a higher number: the
/// graph restricted to those nodes has no cycle.
pub open spec fn is_topological(g: &Graph, ord: spec_fn(int) -> int) -> bool {
    forall|k: int|
        0 <= k < g.entries().len() && !is_edge_dummy(g, (#[trigger] g.entries()[k]).0.source.node_index as int)
            && !is_edge_dummy(g, g.entries()[k].0.target.node_index as int) ==> ord(
            g.entries()[k].0.source.node_index as int,
        ) < ord(g.entries()[k].0.target.node_index as int)
}

/// Every rank of `g` lies within `[-b, b]`.
pub open spec fn ranks_bounded(g: &Graph, b: int) -> bool {
    forall|i: int| 0 <= i < g.n() ==> ((#[trigger] g.node_seq()[i]).rank matches Some(x) ==> -b <= x <= b)
}

/// Every minimum edge length of `g` lies within `[-b, b]`.
pub open spec fn minlens_bounded(g: &Graph, b: int) -> bool {
    forall|k: int| 0 <= k < g.entries().len() ==> -b <= (#[trigger] g.entries()[k]).1.minlen <= b
}

/// Ranks and minimum lengths are small enough that a longest-path ranking
/// stays within `i32`.
pub open spec fn longest_path_fits(g: &Graph) -> bool {
    exists|rb: int, lb: int|
        0 <= rb && 0 <= lb && ranks_bounded(g, rb) && minlens_bounded(g, lb) && rb + (g.n() + 1) * lb
            < i32::MAX
}

/// The edge at position `k` leaves `i` for a node that is not a dummy node
/// of a long edge.
pub open spec fn ranked_out_edge(g: &Graph, i: int, k: int) -> bool {
    &&& 0 <= k < g.entries().len()
    &&& g.entries()[k].0.source.node_index == i
    &&& !is_edge_dummy(g, g.entries()[k].0.target.node_index as int)
}

/// Every edge from `i` to a node that is not an edge dummy respects its
/// minimum length.
pub open spec fn feasible_at(g: &Graph, i: int) -> bool {
    forall|k: int|
        #![trigger g.entries()[k]]
        ranked_out_edge(g, i, k) ==> {
            let w = g.entries()[k].0.target.node_index as int;
            &&& rank_at(g, w) is Some
            &&& rank_at(g, i) is Some
            &&& rank_at(g, w)->0 - rank_at(g, i)->0 >= g.entries()[k].1.minlen
        }
}

/// Node `i` is ranked as low as its out-edges allow: some such edge is
/// tight, or it has none and rank 0.
pub open spec fn tight_at(g: &Graph, i: int) -> bool {
    ||| exists|k: int|
        #![trigger g.entries()[k]]
        ranked_out_edge(g, i, k) && rank_at(g, g.entries()[k].0.target.node_index as int)->0 - rank_at(g, i)->0
            == g.entries()[k].1.minlen
    ||| (forall|k: int| #![trigger g.entries()[k]] !ranked_out_edge(g, i, k)) && rank_at(g, i) == Some(0i32)
}

/// The number of `false` entries.
pub open spec fn count_false(s: Seq<bool>) -> nat
    decreases s.len(),
{
    if s.len() == 0 {
        0
    } else {
        count_false(s.drop_last()) + if s.last() { 0nat } else { 1nat }
    }
}

proof fn lemma_count_false_update(s: Seq<bool>, i: int)
    requires
        0 <= i < s.len(),
        !s[i],
    ensures
        count_false(s.update(i, true)) + 1 == count_false(s),
    decreases s.len(),
{
    if i < s.len() - 1 {
        assert(s.update(i, true).drop_last() =~= s.drop_last().update(i, true));
        lemma_count_false_update(s.drop_last(), i);
    } else {
        assert(s.update(i, true).drop_last() =~= s.drop_last());
    }
}

proof fn lemma_count_false_mono(s: Seq<bool>, t: Seq<bool>)
    requires
        s.len() == t.len(),
        forall|i: int| 0 <= i < s.len() && s[i] ==> t[i],
    ensures
        count_false(t) <= count_false(s),
        count_false(t) + count_false(s) >= 0,
        count_false(s) <= s.len(),
    decreases s.len(),
{
    if s.len() > 0 {
        lemma_count_false_mono(s.drop_last(), t.drop_last());
    }
}

/// The state of the depth-first search of the longest-path ranking: `vis`
/// marks the visited nodes, `a` the nodes whose search is still running,
/// `f` counts the nodes ranked so far.
pub open spec fn dfs_inv(
    g: &Graph,
    vis: Seq<bool>,
    g0: &Graph,
    a: Set<int>,
    rb: int,
    lb: int,
    f: int,
    ord: spec_fn(int) -> int,
) -> bool {
    &&& g.wf()
    &&& same_but_ranks(g, g0)
    &&& vis.len() == g.n()
    &&& 0 <= rb && 0 <= lb && ranks_bounded(g0, rb) && minlens_bounded(g0, lb)
    &&& rb + (g.n() + 1) * lb < i32::MAX
    &&& 0 <= f <= g.n()
    &&& forall|x: int| a.contains(x) ==> 0 <= x < g.n() && vis[x] && rank_at(g, x) == rank_at(g0, x)
    &&& forall|i: int| 0 <= i < g.n() && !vis[i] ==> rank_at(g, i) == rank_at(g0, i)
    &&& forall|i: int| 0 <= i < g.n() && vis[i] ==> !is_edge_dummy(g0, i)
    &&& forall|i: int|
        0 <= i < g.n() ==> -(rb + f * lb) <= #[trigger] rank_or_zero(g, g.node_at(i)) <= rb + f * lb
    &&& forall|i: int| 0 <= i < g.n() && vis[i] && !a.contains(i) ==> rank_at(g, i) is Some
    &&& is_topological(g0, ord) ==> forall|i: int|
        0 <= i < g.n() && vis[i] && !a.contains(i) ==> feasible_at(g, i) && tight_at(g, i) && (forall|k: int|
            #![trigger g.entries()[k]]
            ranked_out_edge(g, i, k) ==> vis[g.entries()[k].0.target.node_index as int] && !a.contains(
                g.entries()[k].0.target.node_index as int,
            ))
}

/// The longest-path rank of `v`: 0 when no edge leaves `v` for a node that
/// is not an edge dummy, otherwise the least `rank(w) - minlen` over those
/// edges `v -> w`, ranking each `w` first. A node that was already visited
/// answers its current rank (0 when it has none).
fn dfs_rank(
    graph: &mut Graph,
    v: NodeIndex,
    visited: &mut Vec<bool>,
    Ghost(g0): Ghost<Graph>,
    Ghost(a): Ghost<Set<int>>,
    Ghost(ord): Ghost<spec_fn(int) -> int>,
    Ghost(rb): Ghost<int>,
    Ghost(lb): Ghost<int>,
    Ghost(f): Ghost<int>,
) -> (res: (i32, Ghost<int>))
    requires
        dfs_inv(old(graph), old(visited)@, &g0, a, rb, lb, f, ord),
        old(graph).contains_node(v),
        !is_edge_dummy(&g0, v.node_index as int),
        is_topological(&g0, ord) ==> forall|x: int| a.contains(x) ==> ord(x) < ord(v.node_index as int),
        f + count_false(old(visited)@) <= old(graph).n(),
    ensures
        dfs_inv(final(graph), final(visited)@, &g0, a, rb, lb, res.1@, ord),
        res.1@ >= f,
        res.1@ + count_false(final(visited)@) <= f + count_false(old(visited)@),
        final(visited)@[v.node_index as int],
        forall|i: int|
            0 <= i < old(graph).n() && old(visited)@[i] ==> final(visited)@[i] && rank_at(final(graph), i)
                == rank_at(old(graph), i),
        res.0 == rank_or_zero(final(graph), v),
        is_topological(&g0, ord) ==> !a.contains(v.node_index as int),
    decreases count_false(old(visited)@),
{
    let vi = v.node_index;
    if visited[vi] {
        let r = match graph.node_label(v) {
            Some(l) => match l.rank {
                Some(x) => x,
                None => 0,
            },
            None => 0,
        };
        return (r, Ghost(f));
    }
    let ghost vis_entry = visited@;
    let ghost g_entry = *graph;
    visited.set(vi, true);
    proof {
        lemma_count_false_update(vis_entry, vi as int);
    }
    let ghost a1 = a.insert(vi as int);
    let es = graph.out_edges(v);
    let mut min_rank: i32 = i32::MAX;
    let mut has_out_edges = false;
    let ghost mut fcur: int = f;
    let ghost mut wit: int = 0;
    let mut j: usize = 0;
    while j < es.len()
        invariant
            dfs_inv(graph, visited@, &g0, a1, rb, lb, fcur, ord),
            graph.contains_node(v),
            v.node_index == vi,
            !is_edge_dummy(&g0, vi as int),
            a1 == a.insert(vi as int),
            !a.contains(vi as int),
            is_topological(&g0, ord) ==> forall|x: int| a.contains(x) ==> ord(x) < ord(vi as int),
            es@ == graph.out_edges_spec(v),
            graph.entries() == g_entry.entries(),
            graph.n() == g_entry.n(),
            graph.id() == g_entry.id(),
            vis_entry.len() == graph.n(),
            forall|i: int|
                0 <= i < g_entry.n() && vis_entry[i] ==> visited@[i] && rank_at(graph, i) == rank_at(
                    &g_entry,
                    i,
                ),
            fcur >= f,
            fcur + 1 + count_false(visited@) <= f + count_false(vis_entry),
            f + count_false(vis_entry) <= graph.n(),
            has_out_edges ==> -(rb + (fcur + 1) * lb) <= min_rank <= rb + (fcur + 1) * lb,
            !has_out_edges ==> min_rank == i32::MAX,
            vis_entry == old(visited)@,
            j <= es@.len(),
            has_out_edges <==> exists|jj: int|
                0 <= jj < j && !is_edge_dummy(&g0, (#[trigger] es@[jj]).target.node_index as int),
            is_topological(&g0, ord) ==> forall|jj: int|
                0 <= jj < j && !is_edge_dummy(&g0, (#[trigger] es@[jj]).target.node_index as int) ==> {
                    let t = es@[jj].target.node_index as int;
                    &&& visited@[t]
                    &&& !a1.contains(t)
                    &&& rank_at(graph, t) is Some
                    &&& min_rank <= rank_at(graph, t)->0 - graph.edge_label_spec(es@[jj]).minlen
                },
            is_topological(&g0, ord) && has_out_edges ==> 0 <= wit < j && !is_edge_dummy(
                &g0,
                es@[wit].target.node_index as int,
            ) && min_rank == rank_at(graph, es@[wit].target.node_index as int)->0 - graph.edge_label_spec(
                es@[wit],
            ).minlen,
        decreases es@.len() - j,
    {
        let edge = es[j];
        proof {
            lemma_incident_index(graph.entries(), v, true, j as int);
        }
        let target_is_dummy = match graph.node_label(edge.target) {
            Some(l) => match l.dummy {
                Some(Dummy::Edge) => true,
                _ => false,
            },
            None => false,
        };
        if !target_is_dummy {
            let ghost k = choose|i: int| 0 <= i < graph.entries().len() && #[trigger] graph.entries()[i].0 == edge;
            proof {
                assert(graph.contains_node(edge.target));
                assert(graph.node_seq()[edge.target.node_index as int].dummy == g0.node_seq()[edge.target.node_index as int].dummy);
                if is_topological(&g0, ord) {
                    assert(g0.entries()[k].0 == edge);
                    assert forall|x: int| a1.contains(x) implies ord(x) < ord(edge.target.node_index as int) by {
                        if x != vi {
                            assert(a.contains(x));
                        }
                    }
                }
                lemma_count_false_mono(vis_entry, visited@);
            }
            let ghost had_out = has_out_edges;
            let ghost g_pre = *graph;
            let ghost vis_pre = visited@;
            has_out_edges = true;
            assert(count_false(visited@) < count_false(vis_entry));
            assert(vis_entry == old(visited)@);
            let (target_rank, Ghost(f2)) = dfs_rank(graph, edge.target, visited, Ghost(g0), Ghost(a1), Ghost(ord), Ghost(rb), Ghost(lb), Ghost(fcur));
            let min_len = match graph.edge_label(&edge) {
                Some(l) => l.minlen,
                None => 1,
            };
            proof {
                lemma_key_pos_at(graph, edge, k);
                assert(min_len == g0.entries()[k].1.minlen);
                assert(-lb <= min_len <= lb);
                assert(-(rb + f2 * lb) <= rank_or_zero(graph, graph.node_at(edge.target.node_index as int)) <= rb + f2 * lb);
                assert(graph.node_at(edge.target.node_index as int) == edge.target);
                assert(f2 * lb <= graph.n() * lb) by (nonlinear_arith)
                    requires f2 <= graph.n(), lb >= 0;
                assert((f2 + 1) * lb == f2 * lb + lb) by (nonlinear_arith);
                assert((graph.n() + 1) * lb == graph.n() * lb + lb) by (nonlinear_arith);
                assert(fcur * lb <= f2 * lb) by (nonlinear_arith)
                    requires fcur <= f2, lb >= 0;
                assert((fcur + 1) * lb == fcur * lb + lb) by (nonlinear_arith);
                assert(rb + (f2 + 1) * lb < i32::MAX);
                if is_topological(&g0, ord) && had_out {
                    let tw = es@[wit].target.node_index as int;
                    lemma_incident_index(g_pre.entries(), v, true, wit);
                    let kw = choose|i: int| 0 <= i < g_pre.entries().len() && #[trigger] g_pre.entries()[i].0 == es@[wit];
                    assert(g_pre.contains_node(g_pre.entries()[kw].0.target));
                    assert(0 <= tw < g_pre.n());
                    assert(vis_pre[tw]);
                    assert(rank_at(graph, tw) == rank_at(&g_pre, tw));
                }
                if is_topological(&g0, ord) {
                    assert forall|jj: int|
                        0 <= jj < j && !is_edge_dummy(&g0, (#[trigger] es@[jj]).target.node_index as int) implies
                        rank_at(graph, es@[jj].target.node_index as int) == rank_at(&g_pre, es@[jj].target.node_index as int) by {
                        lemma_out_target(&g_pre, v, es@, jj);
                        assert(vis_pre[es@[jj].target.node_index as int]);
                    }
                }
            }
            let required_rank = target_rank - min_len;
            if required_rank < min_rank {
                min_rank = required_rank;
                proof {
                    wit = j as int;
                }
            }
            proof {
                fcur = f2;
                if is_topological(&g0, ord) {
                    assert forall|jj: int|
                        0 <= jj < j + 1 && !is_edge_dummy(&g0, (#[trigger] es@[jj]).target.node_index as int) implies {
                            let t = es@[jj].target.node_index as int;
                            &&& visited@[t]
                            &&& !a1.contains(t)
                            &&& rank_at(graph, t) is Some
                            &&& min_rank <= rank_at(graph, t)->0 - graph.edge_label_spec(es@[jj]).minlen
                        } by {
                        lemma_out_target(&g_pre, v, es@, jj);
                        if jj < j {
                            assert(vis_pre[es@[jj].target.node_index as int]);
                        } else {
                            assert(es@[jj] == edge);
                            assert(rank_at(graph, edge.target.node_index as int) is Some);
                        }
                    }
                }
            }
        }
        j += 1;
    }
    let rank = if !has_out_edges || min_rank == i32::MAX {
        0
    } else {
        min_rank
    };
    let ghost g_before = *graph;
    if let Some(label) = graph.node_label_mut(v) {
        label.rank = Some(rank);
    }
    proof {
        lemma_dfs_finish(g_before, *graph, visited@, g0, a, a1, vi as int, rb, lb, fcur, ord, es@, rank, min_rank, has_out_edges, j as int, wit);
    }
    (rank, Ghost(fcur + 1))
}

/// The target of an out-edge of `v` is a node of the graph.
proof fn lemma_out_target(g: &Graph, v: NodeIndex, es: Seq<Edge>, jj: int)
    requires
        g.wf(),
        es == g.out_edges_spec(v),
        0 <= jj < es.len(),
    ensures
        g.contains_node(es[jj].target),
        0 <= es[jj].target.node_index < g.n(),
        es[jj].source == v,
        exists|k: int| 0 <= k < g.entries().len() && #[trigger] g.entries()[k].0 == es[jj],
{
    lemma_incident_index(g.entries(), v, true, jj);
    let k = choose|k: int| 0 <= k < g.entries().len() && #[trigger] g.entries()[k].0 == es[jj];
    assert(g.contains_node(g.entries()[k].0.target));
}

/// The edge at position `k` is the one `edge_label_spec` reads.
pub(crate) proof fn lemma_key_pos_at(g: &Graph, e: Edge, k: int)
    requires
        g.wf(),
        0 <= k < g.entries().len(),
        g.entries()[k].0 == e,
    ensures
        g.has_edge_spec(e),
        g.edge_label_spec(e) == g.entries()[k].1,
{
    crate::graph::lemma_key_pos_unique(g.entries(), e, k);
}

/// Ranking node `v` keeps the search state: `v` leaves the running set
/// and is ranked within the bound of one more ranked node.
proof fn lemma_dfs_finish(
    gb: Graph,
    g: Graph,
    vis: Seq<bool>,
    g0: Graph,
    a: Set<int>,
    a1: Set<int>,
    v: int,
    rb: int,
    lb: int,
    fcur: int,
    ord: spec_fn(int) -> int,
    es: Seq<Edge>,
    rank: i32,
    min_rank: i32,
    has_out: bool,
    j: int,
    wit: int,
)
    requires
        dfs_inv(&gb, vis, &g0, a1, rb, lb, fcur, ord),
        fcur + 1 <= gb.n(),
        0 <= v < gb.n(),
        !is_edge_dummy(&g0, v),
        a1 == a.insert(v),
        !a.contains(v),
        es == gb.out_edges_spec(gb.node_at(v)),
        j == es.len(),
        has_out ==> -(rb + (fcur + 1) * lb) <= min_rank <= rb + (fcur + 1) * lb,
        !has_out ==> min_rank == i32::MAX,
        has_out <==> exists|jj: int| 0 <= jj < j && !is_edge_dummy(&g0, (#[trigger] es[jj]).target.node_index as int),
        is_topological(&g0, ord) ==> forall|jj: int|
            0 <= jj < j && !is_edge_dummy(&g0, (#[trigger] es[jj]).target.node_index as int) ==> {
                let t = es[jj].target.node_index as int;
                &&& vis[t]
                &&& !a1.contains(t)
                &&& rank_at(&gb, t) is Some
                &&& min_rank <= rank_at(&gb, t)->0 - gb.edge_label_spec(es[jj]).minlen
            },
        is_topological(&g0, ord) && has_out ==> 0 <= wit < j && !is_edge_dummy(&g0, es[wit].target.node_index as int)
            && min_rank == rank_at(&gb, es[wit].target.node_index as int)->0 - gb.edge_label_spec(es[wit]).minlen,
        rank == if !has_out || min_rank == i32::MAX { 0 } else { min_rank },
        g.entries() == gb.entries(),
        g.id() == gb.id(),
        g.config_spec() == gb.config_spec(),
        g.node_seq() == gb.node_seq().update(v, NodeLabel { rank: Some(rank), ..gb.node_seq()[v] }),
    ensures
        dfs_inv(&g, vis, &g0, a, rb, lb, fcur + 1, ord),
        forall|i: int| 0 <= i < g.n() && i != v ==> rank_at(&g, i) == rank_at(&gb, i),
        rank_or_zero(&g, g.node_at(v)) == rank,
        is_topological(&g0, ord) ==> !a.contains(v),
{
    let n = g.n();
    assert(g.n() == gb.n());
    assert((fcur + 1) * lb <= n * lb) by (nonlinear_arith)
        requires fcur + 1 <= n, lb >= 0;
    assert((n + 1) * lb == n * lb + lb) by (nonlinear_arith);
    assert(has_out ==> min_rank != i32::MAX);
    assert(g.node_at(v).node_index as int == v);
    assert((fcur + 1) * lb == fcur * lb + lb) by (nonlinear_arith);
    assert(fcur * lb >= 0) by (nonlinear_arith)
        requires fcur >= 0, lb >= 0;
    // labels other than ranks stay those of g0
    assert forall|i: int| 0 <= i < g.n() implies #[trigger] g.node_seq()[i] == (NodeLabel { rank: g.node_seq()[i].rank, ..g0.node_seq()[i] }) by {
        assert(gb.node_seq()[i] == (NodeLabel { rank: gb.node_seq()[i].rank, ..g0.node_seq()[i] }));
    }
    assert forall|i: int| 0 <= i < g.n() && i != v implies rank_at(&g, i) == rank_at(&gb, i) by {}
    // bounds
    assert forall|i: int| 0 <= i < n implies -(rb + (fcur + 1) * lb) <= #[trigger] rank_or_zero(&g, g.node_at(i)) <= rb + (fcur + 1) * lb by {
        assert(g.node_at(i).node_index as int == i);
        if i != v {
            assert(rank_or_zero(&gb, gb.node_at(i)) == rank_or_zero(&g, g.node_at(i)));
        }
    }
    assert(g.wf()) by {
        assert forall|i: int| 0 <= i < g.entries().len() implies g.contains_node(#[trigger] g.entries()[i].0.source)
            && g.contains_node(g.entries()[i].0.target) by {
            assert(gb.contains_node(gb.entries()[i].0.source));
            assert(gb.contains_node(gb.entries()[i].0.target));
        }
    }
    if is_topological(&g0, ord) {
        assert forall|i: int|
            0 <= i < n && vis[i] && !a.contains(i) implies feasible_at(&g, i) && tight_at(&g, i) && (forall|k: int|
                #![trigger g.entries()[k]]
                ranked_out_edge(&g, i, k) ==> vis[g.entries()[k].0.target.node_index as int] && !a.contains(
                    g.entries()[k].0.target.node_index as int,
                )) by {
            assert forall|k: int| #![trigger g.entries()[k]] 0 <= k < g.entries().len() implies
                (is_edge_dummy(&g, g.entries()[k].0.target.node_index as int) <==> is_edge_dummy(&gb, g.entries()[k].0.target.node_index as int)) by {
                let t = g.entries()[k].0.target.node_index as int;
                assert(gb.contains_node(gb.entries()[k].0.target));
                assert(g.node_seq()[t].dummy == gb.node_seq()[t].dummy);
            }
            if i != v {
                // an earlier finished node: its out-edges lead to finished nodes, not to v
                assert(!a1.contains(i));
                assert forall|k: int| #![trigger g.entries()[k]] ranked_out_edge(&g, i, k) implies
                    g.entries()[k].0.target.node_index != v by {
                    assert(ranked_out_edge(&gb, i, k));
                }
                assert(feasible_at(&g, i)) by {
                    assert forall|k: int| #![trigger g.entries()[k]] ranked_out_edge(&g, i, k) implies ({
                        let w = g.entries()[k].0.target.node_index as int;
                        &&& rank_at(&g, w) is Some
                        &&& rank_at(&g, i) is Some
                        &&& rank_at(&g, w)->0 - rank_at(&g, i)->0 >= g.entries()[k].1.minlen
                    }) by {
                        assert(ranked_out_edge(&gb, i, k));
                        assert(gb.contains_node(gb.entries()[k].0.target));
                    }
                }
                assert(tight_at(&gb, i));
                if exists|k: int| #![trigger gb.entries()[k]] ranked_out_edge(&gb, i, k) && rank_at(&gb, gb.entries()[k].0.target.node_index as int)->0 - rank_at(&gb, i)->0 == gb.entries()[k].1.minlen {
                    let k = choose|k: int| #![trigger gb.entries()[k]] ranked_out_edge(&gb, i, k) && rank_at(&gb, gb.entries()[k].0.target.node_index as int)->0 - rank_at(&gb, i)->0 == gb.entries()[k].1.minlen;
                    assert(ranked_out_edge(&g, i, k));
                    assert(gb.contains_node(gb.entries()[k].0.target));
                } else {
                    assert forall|k: int| #![trigger g.entries()[k]] !ranked_out_edge(&g, i, k) by {
                        if 0 <= k < g.entries().len() {
                            assert(!ranked_out_edge(&gb, i, k));
                        }
                    }
                }
                assert forall|k: int| #![trigger g.entries()[k]] ranked_out_edge(&g, i, k) implies
                    vis[g.entries()[k].0.target.node_index as int] && !a.contains(g.entries()[k].0.target.node_index as int) by {
                    assert(ranked_out_edge(&gb, i, k));
                }
            } else {
                // v itself
                let vn = g.node_at(v);
                assert forall|k: int| #![trigger g.entries()[k]] ranked_out_edge(&g, v, k) implies ({
                    let w = g.entries()[k].0.target.node_index as int;
                    &&& rank_at(&g, w) is Some
                    &&& rank_at(&g, v) is Some
                    &&& rank_at(&g, w)->0 - rank_at(&g, v)->0 >= g.entries()[k].1.minlen
                    &&& vis[w]
                    &&& !a.contains(w)
                }) by {
                    let e = g.entries()[k].0;
                    assert(gb.contains_node(gb.entries()[k].0.source));
                    assert(e.source == vn);
                    lemma_incident_contains(gb.entries(), vn, true, e);
                    assert(es.contains(e));
                    let jj = choose|jj: int| 0 <= jj < es.len() && es[jj] == e;
                    crate::graph::lemma_key_pos_unique(gb.entries(), e, k);
                    assert(gb.contains_node(e.target));
                    let t = e.target.node_index as int;
                    assert(g.node_seq()[t].dummy == g0.node_seq()[t].dummy);
                    assert(!is_edge_dummy(&g0, t));
                    assert(has_out);
                    assert(min_rank != i32::MAX);
                    assert(t != v);
                }
                assert(feasible_at(&g, v));
                if has_out {
                    let e = es[wit];
                    lemma_incident_index(gb.entries(), vn, true, wit);
                    let k = choose|k: int| 0 <= k < gb.entries().len() && #[trigger] gb.entries()[k].0 == e;
                    crate::graph::lemma_key_pos_unique(gb.entries(), e, k);
                    assert(gb.contains_node(e.target));
                    let t = e.target.node_index as int;
                    assert(g.node_seq()[t].dummy == g0.node_seq()[t].dummy);
                    assert(ranked_out_edge(&g, v, k));
                    assert(t != v);
                    assert(min_rank != i32::MAX);
                } else {
                    assert forall|k: int| #![trigger g.entries()[k]] !ranked_out_edge(&g, v, k) by {
                        if ranked_out_edge(&g, v, k) {
                            let e = g.entries()[k].0;
                            lemma_incident_contains(gb.entries(), vn, true, e);
                            let jj = choose|jj: int| 0 <= jj < es.len() && es[jj] == e;
                            assert(gb.contains_node(e.target));
                            let t = e.target.node_index as int;
                            assert(g.node_seq()[t].dummy == g0.node_seq()[t].dummy);
                            assert(!is_edge_dummy(&g0, es[jj].target.node_index as int));
                        }
                    }
                }
            }
        }
    }
}

/// `g` is a longest-path ranking of `g0`: only ranks differ, dummy nodes
/// of long edges keep theirs, every other node is ranked, and when the
/// graph without those dummy nodes has no cycle, every edge between ranked
/// nodes respects its minimum length and each node sits as low as its
/// out-edges allow.
pub open spec fn longest_path_result(g: &Graph, g0: &Graph) -> bool {
    &&& g.wf()
    &&& same_but_ranks(g, g0)
    &&& forall|i: int| 0 <= i < g0.n() && is_edge_dummy(g0, i) ==> rank_at(g, i) == rank_at(g0, i)
    &&& forall|i: int| 0 <= i < g0.n() && !is_edge_dummy(g0, i) ==> rank_at(g, i) is Some
    &&& (exists|ord: spec_fn(int) -> int| is_topological(g0, ord)) ==> forall|i: int|
        0 <= i < g0.n() && !is_edge_dummy(g0, i) ==> feasible_at(g, i) && tight_at(g, i)
}

proof fn lemma_count_false_all(s: Seq<bool>)
    requires
        forall|i: int| 0 <= i < s.len() ==> !s[i],
    ensures
        count_false(s) == s.len(),
    decreases s.len(),
{
    if s.len() > 0 {
        lemma_count_false_all(s.drop_last());
    }
}

/// Longest-path ranking. Every node that is not a dummy node of a long
/// edge gets a rank: the nodes without in-edges are searched first, in
/// node order, then every node still unranked. A node is placed as low as
/// its out-edges allow (`rank(v) = min(rank(w) - minlen)` over edges
/// `v -> w` to nodes that are not edge dummies, 0 for a node without such
/// an edge). Dummy nodes of long edges keep their rank. On a graph whose
/// non-dummy part has no cycle, the result respects every minimum length
/// and each node has a tight out-edge or rank 0.
pub fn longest_path(graph: &mut Graph)
    requires
        old(graph).wf(),
        longest_path_fits(old(graph)),
    ensures
        longest_path_result(final(graph), old(graph)),
{
    let ghost (rb, lb) = choose|rb: int, lb: int|
        0 <= rb && 0 <= lb && ranks_bounded(graph, rb) && minlens_bounded(graph, lb) && rb + (graph.n() + 1) * lb
            < i32::MAX;
    longest_path_within(graph, Ghost(rb), Ghost(lb));
}

/// `longest_path` on a graph whose ranks lie within `[-rb, rb]` and whose
/// minimum lengths lie within `[-lb, lb]`: the new ranks lie within
/// `rb + n * lb`.
pub(crate) fn longest_path_within(graph: &mut Graph, Ghost(rb): Ghost<int>, Ghost(lb): Ghost<int>)
    requires
        old(graph).wf(),
        0 <= rb,
        0 <= lb,
        ranks_bounded(old(graph), rb),
        minlens_bounded(old(graph), lb),
        rb + (old(graph).n() + 1) * lb < i32::MAX,
    ensures
        longest_path_result(final(graph), old(graph)),
        ranks_bounded(final(graph), rb + old(graph).n() * lb),
{
    let ghost g0 = *graph;
    let ghost ord = choose|ord: spec_fn(int) -> int| is_topological(&g0, ord);
    let n = graph.node_count();
    let id = graph.graph_id();
    let mut visited: Vec<bool> = Vec::new();
    let mut i: usize = 0;
    while i < n
        invariant
            i <= n,
            visited@.len() == i,
            forall|x: int| 0 <= x < i ==> !visited@[x],
        decreases n - i,
    {
        visited.push(false);
        i += 1;
    }
    proof {
        lemma_count_false_all(visited@);
        assert forall|x: int| 0 <= x < g0.n() implies #[trigger] g0.node_seq()[x] == (NodeLabel {
            rank: g0.node_seq()[x].rank,
            ..g0.node_seq()[x]
        }) by {}
        assert forall|x: int| 0 <= x < g0.n() implies -(rb + 0 * lb) <= #[trigger] rank_or_zero(
            &g0,
            g0.node_at(x),
        ) <= rb + 0 * lb by {
            assert(g0.node_seq()[x] == g0.label_of(g0.node_at(x)));
        }
        assert(dfs_inv(&g0, visited@, &g0, Set::empty(), rb, lb, 0, ord));
    }
    let ghost mut f: int = 0;
    // first the nodes without in-edges
    let mut i: usize = 0;
    while i < n
        invariant
            n == g0.n(),
            id == g0.id(),
            i <= n,
            dfs_inv(graph, visited@, &g0, Set::empty(), rb, lb, f, ord),
            f + count_false(visited@) <= n,
        decreases n - i,
    {
        let v = NodeIndex { node_index: i, which_graph: id };
        let is_dummy = match graph.node_label(v) {
            Some(l) => match l.dummy {
                Some(Dummy::Edge) => true,
                _ => false,
            },
            None => false,
        };
        if !is_dummy {
            let ins = graph.in_edges(v);
            if ins.len() == 0 {
                proof {
                    assert(graph.node_seq()[i as int].dummy == g0.node_seq()[i as int].dummy);
                }
                let (_r, Ghost(f2)) = dfs_rank(graph, v, &mut visited, Ghost(g0), Ghost(Set::empty()), Ghost(ord), Ghost(rb), Ghost(lb), Ghost(f));
                proof {
                    f = f2;
                }
            }
        }
        i += 1;
    }
    // then every node not reached yet
    let mut i: usize = 0;
    while i < n
        invariant
            n == g0.n(),
            id == g0.id(),
            i <= n,
            dfs_inv(graph, visited@, &g0, Set::empty(), rb, lb, f, ord),
            f + count_false(visited@) <= n,
            forall|x: int| 0 <= x < i && !is_edge_dummy(&g0, x) ==> visited@[x],
        decreases n - i,
    {
        let v = NodeIndex { node_index: i, which_graph: id };
        let is_dummy = match graph.node_label(v) {
            Some(l) => match l.dummy {
                Some(Dummy::Edge) => true,
                _ => false,
            },
            None => false,
        };
        proof {
            assert(graph.node_seq()[i as int].dummy == g0.node_seq()[i as int].dummy);
        }
        if !visited[i] && !is_dummy {
            let (_r, Ghost(f2)) = dfs_rank(graph, v, &mut visited, Ghost(g0), Ghost(Set::empty()), Ghost(ord), Ghost(rb), Ghost(lb), Ghost(f));
            proof {
                f = f2;
            }
        }
        i += 1;
    }
    proof {
        assert forall|x: int| 0 <= x < g0.n() && is_edge_dummy(&g0, x) implies rank_at(graph, x) == rank_at(&g0, x) by {
            if visited@[x] {
                assert(!is_edge_dummy(&g0, x));
            }
        }
        assert(f * lb <= g0.n() * lb) by (nonlinear_arith)
            requires f <= g0.n(), lb >= 0;
        assert forall|x: int| 0 <= x < graph.n() implies ((#[trigger] graph.node_seq()[x]).rank matches Some(y)
            ==> -(rb + g0.n() * lb) <= y <= rb + g0.n() * lb) by {
            assert(graph.node_at(x).node_index as int == x);
            assert(graph.contains_node(graph.node_at(x)));
            assert(-(rb + f * lb) <= rank_or_zero(graph, graph.node_at(x)) <= rb + f * lb);
        }
    }
}

/// The position of edge `e` in the edge map.
pub open spec fn key_pos_of(g: &Graph, e: Edge) -> int {
    crate::index_map::key_pos(g.entries(), e)
}

/// Whether the graph has no cycle.
pub fn is_acyclic(graph: &Graph) -> (r: bool)
    requires
        graph.wf(),
    ensures
        r == crate::acyclic::is_dag(graph),
{
    crate::acyclic::is_acyclic(graph)
}

} // verus!
