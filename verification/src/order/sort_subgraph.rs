//! The order of the children of a subgraph found by depth-first search.
use vstd::prelude::*;
use crate::graph::Graph;
use crate::order::constraint_graph::ConstraintGraph;
use crate::order::init_order::{unseen, lemma_unseen_set, lemma_unseen_mono};
use crate::types::{Edge, NodeIndex};

verus! {

/// `u` and `v` are joined by an edge, in either direction.
pub open spec fn adjacent(g: &Graph, u: NodeIndex, v: NodeIndex) -> bool {
    g.has_edge_spec(Edge { source: u, target: v }) || g.has_edge_spec(Edge { source: v, target: u })
}

/// `s` holds no node twice.
pub open spec fn distinct(s: Seq<NodeIndex>) -> bool {
    forall|a: int, b: int| 0 <= a < b < s.len() ==> #[trigger] s[a] != #[trigger] s[b]
}

/// `v` is a node of `g` whose parent is `root`.
pub open spec fn child_of(g: &Graph, root: NodeIndex, v: NodeIndex) -> bool {
    g.contains_node(v) && g.label_of(v).parent == Some(root)
}

/// The position the search tries `k`-th among the `n` nodes: ascending
/// when `bias_right`, else descending.
pub open spec fn try_pos(n: int, bias_right: bool, k: int) -> int {
    if bias_right {
        k
    } else {
        n - 1 - k
    }
}

/// The state of the search: the visited positions and the nodes left so
/// far, in the order they were left.
pub type SortWalk = (Seq<bool>, Seq<NodeIndex>);

/// The search after visiting `v`, unless visited before: it marks `v`,
/// goes on from each unvisited child of `root` joined to `v` by an edge,
/// in the order `try_pos` gives, and then leaves `v`.
pub open spec fn sort_visit(g: &Graph, root: NodeIndex, bias_right: bool, w: SortWalk, v: NodeIndex, fuel: nat) -> SortWalk
    decreases fuel, 0int, 0int,
{
    if fuel == 0 || w.0[v.node_index as int] {
        w
    } else {
        let w1 = sort_from(g, root, bias_right, (w.0.update(v.node_index as int, true), w.1), v, 0, (fuel - 1) as nat);
        (w1.0, w1.1.push(v))
    }
}

/// The search after trying, from `v`, the positions from the `k`-th on.
pub open spec fn sort_from(
    g: &Graph,
    root: NodeIndex,
    bias_right: bool,
    w: SortWalk,
    v: NodeIndex,
    k: int,
    fuel: nat,
) -> SortWalk
    decreases fuel, 1int, g.n() - k,
{
    if k < 0 || k >= g.n() {
        w
    } else {
        let u = g.node_at(try_pos(g.n() as int, bias_right, k));
        let w1 = if !w.0[u.node_index as int] && adjacent(g, v, u) && child_of(g, root, u) {
            sort_visit(g, root, bias_right, w, u, fuel)
        } else {
            w
        };
        sort_from(g, root, bias_right, w1, v, k + 1, fuel)
    }
}

/// The search after starting from each child of `root` at positions from
/// `k` on, in node order.
pub open spec fn sort_all(g: &Graph, root: NodeIndex, bias_right: bool, w: SortWalk, k: int) -> SortWalk
    decreases g.n() - k,
{
    if k < 0 || k >= g.n() {
        w
    } else {
        let u = g.node_at(k);
        let w1 = if child_of(g, root, u) {
            sort_visit(g, root, bias_right, w, u, (g.n() + 1) as nat)
        } else {
            w
        };
        sort_all(g, root, bias_right, w1, k + 1)
    }
}

/// The children of `root` in depth-first postorder.
pub open spec fn subgraph_order(g: &Graph, root: NodeIndex, bias_right: bool) -> Seq<NodeIndex> {
    sort_all(g, root, bias_right, (Seq::new(g.n(), |i: int| false), Seq::empty()), 0).1
}

/// Whether `u` and `v` are joined by an edge, in either direction.
fn is_adjacent(graph: &Graph, u: NodeIndex, v: NodeIndex) -> (r: bool)
    ensures
        r == adjacent(graph, u, v),
{
    graph.has_edge(&Edge { source: u, target: v }) || graph.has_edge(&Edge { source: v, target: u })
}

/// Whether `v`, a node index of `graph`, is a node with parent `root`.
fn is_child(graph: &Graph, root: NodeIndex, v: NodeIndex) -> (r: bool)
    requires
        v.which_graph == graph.id(),
    ensures
        r == child_of(graph, root, v),
{
    match graph.node_label(v) {
        Some(l) => match l.parent {
            Some(p) => p == root,
            None => false,
        },
        None => false,
    }
}

/// The search from `v`: see `sort_visit`.
fn dfs_sort(
    graph: &Graph,
    root: NodeIndex,
    bias_right: bool,
    visited: &mut Vec<bool>,
    result: &mut Vec<NodeIndex>,
    v: NodeIndex,
    Ghost(w): Ghost<SortWalk>,
    Ghost(fuel): Ghost<nat>,
)
    requires
        graph.wf(),
        graph.contains_node(v),
        child_of(graph, root, v),
        old(visited)@ == w.0,
        old(result)@ == w.1,
        w.0.len() == graph.n(),
        unseen(w.0) < fuel,
        !w.0[v.node_index as int],
        distinct(w.1),
        forall|k: int| 0 <= k < w.1.len() ==> child_of(graph, root, #[trigger] w.1[k]) && w.0[w.1[k].node_index as int],
    ensures
        final(visited)@ == sort_visit(graph, root, bias_right, w, v, fuel).0,
        final(result)@ == sort_visit(graph, root, bias_right, w, v, fuel).1,
        final(visited)@.len() == old(visited)@.len(),
        forall|i: int| 0 <= i < old(visited)@.len() && #[trigger] old(visited)@[i] ==> final(visited)@[i],
        unseen(final(visited)@) < unseen(old(visited)@),
        distinct(final(result)@),
        final(result)@.len() >= old(result)@.len(),
        final(result)@.take(old(result)@.len() as int) == old(result)@,
        forall|k: int|
            0 <= k < final(result)@.len() ==> child_of(graph, root, #[trigger] final(result)@[k])
                && final(visited)@[final(result)@[k].node_index as int],
        forall|k: int|
            old(result)@.len() <= k < final(result)@.len() ==> !old(visited)@[(#[trigger] final(result)@[k]).node_index as int],
    decreases fuel,
{
    let ghost f = (fuel - 1) as nat;
    let ghost w1: SortWalk = (w.0.update(v.node_index as int, true), w.1);
    let ghost target = sort_from(graph, root, bias_right, w1, v, 0, f);
    visited.set(v.node_index, true);
    proof {
        lemma_unseen_set(w.0, v.node_index as int);
    }
    let ghost mut cur = w1;
    let n = graph.node_count();
    let id = graph.graph_id();
    let mut k: usize = 0;
    while k < n
        invariant
            graph.wf(),
            graph.contains_node(v),
            n == graph.n(),
            id == graph.id(),
            k <= n,
            visited@ == cur.0,
            result@ == cur.1,
            cur.0.len() == graph.n(),
            w.0.len() == graph.n(),
            unseen(cur.0) < f,
            sort_from(graph, root, bias_right, cur, v, k as int, f) == target,
            forall|i: int| 0 <= i < w.0.len() && #[trigger] w.0[i] ==> cur.0[i],
            cur.0[v.node_index as int],
            !w.0[v.node_index as int],
            f + 1 == fuel,
            distinct(cur.1),
            cur.1.len() >= w.1.len(),
            cur.1.take(w.1.len() as int) == w.1,
            forall|q: int| 0 <= q < cur.1.len() ==> child_of(graph, root, #[trigger] cur.1[q]) && cur.0[cur.1[q].node_index as int],
            forall|q: int| w.1.len() <= q < cur.1.len() ==> !w.0[(#[trigger] cur.1[q]).node_index as int],
            !cur.1.contains(v),
        decreases n - k,
    {
        let x = if bias_right { k } else { n - 1 - k };
        let u = NodeIndex { node_index: x, which_graph: id };
        proof {
            assert(u == graph.node_at(try_pos(graph.n() as int, bias_right, k as int)));
        }
        if !visited[x] && is_adjacent(graph, v, u) && is_child(graph, root, u) {
            let ghost prev = cur;
            dfs_sort(graph, root, bias_right, visited, result, u, Ghost(cur), Ghost(f));
            proof {
                cur = sort_visit(graph, root, bias_right, prev, u, f);
                assert forall|i: int| 0 <= i < w.0.len() && #[trigger] w.0[i] implies cur.0[i] by {
                    assert(prev.0[i]);
                }
                assert(cur.1.take(w.1.len() as int) =~= cur.1.take(prev.1.len() as int).take(w.1.len() as int));
                assert forall|q: int| w.1.len() <= q < cur.1.len() implies !w.0[(#[trigger] cur.1[q]).node_index as int] by {
                    if q < prev.1.len() {
                        assert(cur.1.take(prev.1.len() as int)[q] == prev.1[q]);
                    } else {
                        assert(!prev.0[cur.1[q].node_index as int]);
                        if w.0[cur.1[q].node_index as int] {
                            assert(prev.0[cur.1[q].node_index as int]);
                        }
                    }
                }
                assert(!cur.1.contains(v)) by {
                    if cur.1.contains(v) {
                        let q = choose|q: int| 0 <= q < cur.1.len() && cur.1[q] == v;
                        if q < prev.1.len() {
                            assert(cur.1.take(prev.1.len() as int)[q] == prev.1[q]);
                            assert(prev.1.contains(v));
                        } else {
                            assert(!prev.0[v.node_index as int]);
                        }
                    }
                }
            }
        }
        k += 1;
    }
    let ghost before = result@;
    result.push(v);
    proof {
        lemma_unseen_mono(w1.0, cur.0);
        assert forall|a: int, b: int| 0 <= a < b < result@.len() implies #[trigger] result@[a] != #[trigger] result@[b] by {
            if b == before.len() {
                assert(result@[a] == before[a]);
                assert(before.contains(before[a]));
            } else {
                assert(result@[a] == before[a] && result@[b] == before[b]);
            }
        }
        assert(result@.take(w.1.len() as int) =~= before.take(w.1.len() as int));
        assert forall|q: int| 0 <= q < result@.len() implies child_of(graph, root, #[trigger] result@[q]) && visited@[result@[q].node_index as int] by {
            if q < before.len() {
                assert(result@[q] == before[q]);
            }
        }
        assert forall|q: int| w.1.len() <= q < result@.len() implies !w.0[(#[trigger] result@[q]).node_index as int] by {
            if q < before.len() {
                assert(result@[q] == before[q]);
            }
        }
    }
}

/// Orders the children of `root`: searches depth first from each child in
/// node order, going on to the children joined to the current node by an
/// edge, tried by position (ascending when `bias_right`, else descending),
/// and lists each child when its search ends. A subgraph without children
/// gives an empty order. The constraints are not consulted.
pub fn sort_subgraph(graph: &Graph, root: NodeIndex, _constraint_graph: &ConstraintGraph, bias_right: bool) -> (r: Vec<NodeIndex>)
    requires
        graph.wf(),
    ensures
        r@ == subgraph_order(graph, root, bias_right),
        distinct(r@),
        forall|k: int| 0 <= k < r@.len() ==> child_of(graph, root, #[trigger] r@[k]),
{
    let n = graph.node_count();
    let id = graph.graph_id();
    let mut visited: Vec<bool> = vec![false; n];
    let mut result: Vec<NodeIndex> = Vec::new();
    let ghost fuel = (graph.n() + 1) as nat;
    let ghost mut cur: SortWalk = (Seq::new(graph.n(), |i: int| false), Seq::empty());
    proof {
        assert(visited@ =~= cur.0);
    }
    let mut k: usize = 0;
    while k < n
        invariant
            graph.wf(),
            n == graph.n(),
            id == graph.id(),
            k <= n,
            fuel == n + 1,
            visited@ == cur.0,
            result@ == cur.1,
            cur.0.len() == n,
            sort_all(graph, root, bias_right, cur, k as int) == subgraph_order_walk(graph, root, bias_right),
            distinct(cur.1),
            forall|q: int| 0 <= q < cur.1.len() ==> child_of(graph, root, #[trigger] cur.1[q]) && cur.0[cur.1[q].node_index as int],
        decreases n - k,
    {
        let v = NodeIndex { node_index: k, which_graph: id };
        proof {
            assert(v == graph.node_at(k as int));
            crate::rank::tree_walk::lemma_unseen_le(cur.0);
        }
        if is_child(graph, root, v) {
            if !visited[k] {
                dfs_sort(graph, root, bias_right, &mut visited, &mut result, v, Ghost(cur), Ghost(fuel));
            }
            proof {
                cur = sort_visit(graph, root, bias_right, cur, v, fuel);
            }
        }
        k += 1;
    }
    result
}

/// The whole search state of `subgraph_order`.
pub open spec fn subgraph_order_walk(g: &Graph, root: NodeIndex, bias_right: bool) -> SortWalk {
    sort_all(g, root, bias_right, (Seq::new(g.n(), |i: int| false), Seq::empty()), 0)
}

} // verus!
