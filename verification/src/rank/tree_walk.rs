//! Depth-first walks over the tree edges of the network simplex: the
//! postorder and preorder of the nodes, and the low / lim numbering that
//! tells which nodes lie below a tree edge.
//!
//! From a node the walk tries the targets of its out-edges, then the
//! sources of its in-edges, in the graph's edge order, and follows each
//! unvisited one joined to it by a tree edge.
use vstd::prelude::*;
use crate::graph::Graph;
use crate::order::init_order::{unseen, lemma_unseen_set, lemma_unseen_mono};
use crate::rank::network_simplex::{is_tree_edge, tree_edge, cut_value_fits, cut_value_spec, parent_of, stored_edge};
use crate::index_map::key_pos;
use crate::types::{Edge, EdgeLabel, NodeIndex, NodeLabel};

verus! {

/// The state of a walk: which nodes were entered, the nodes in the order
/// they were entered, the nodes in the order they were left, and by node
/// position, how many nodes had been left when the node was entered, how
/// many when it was left, and the node it was reached from.
pub type Walk = (Seq<bool>, Seq<NodeIndex>, Seq<NodeIndex>, Seq<int>, Seq<int>, Seq<Option<NodeIndex>>);

/// How many neighbours the walk tries from `v`.
pub open spec fn nbr_count(g: &Graph, v: NodeIndex) -> int {
    (g.out_edges_spec(v).len() + g.in_edges_spec(v).len()) as int
}

/// The `k`-th neighbour tried from `v`.
pub open spec fn nbr(g: &Graph, v: NodeIndex, k: int) -> NodeIndex {
    if k < g.out_edges_spec(v).len() {
        g.out_edges_spec(v)[k].target
    } else {
        g.in_edges_spec(v)[k - g.out_edges_spec(v).len()].source
    }
}

/// The `k`-th neighbour of `v` is joined to it by a tree edge, looked up
/// from the edge that made it a neighbour.
pub open spec fn linked(g: &Graph, v: NodeIndex, k: int) -> bool {
    if k < g.out_edges_spec(v).len() {
        tree_edge(g, v, nbr(g, v, k))
    } else {
        tree_edge(g, nbr(g, v, k), v)
    }
}

/// `v` is a position of the walk and was not entered yet.
pub open spec fn unvisited(w: Walk, v: NodeIndex) -> bool {
    v.node_index < w.0.len() && !w.0[v.node_index as int]
}

/// The walk after entering `v` from `p`.
pub open spec fn enter(w: Walk, v: NodeIndex, p: Option<NodeIndex>) -> Walk {
    let i = v.node_index as int;
    (w.0.update(i, true), w.1.push(v), w.2, w.3.update(i, w.2.len() as int), w.4, w.5.update(i, p))
}

/// The walk after leaving `v`.
pub open spec fn leave(w: Walk, v: NodeIndex) -> Walk {
    let i = v.node_index as int;
    (w.0, w.1, w.2.push(v), w.3, w.4.update(i, w.2.len() as int), w.5)
}

/// The walk after visiting `v`, reached from `p`, unless it was entered
/// before; `fuel` bounds the depth.
pub open spec fn visit(g: &Graph, w: Walk, v: NodeIndex, p: Option<NodeIndex>, fuel: nat) -> Walk
    decreases fuel, 0int, 0int,
{
    if fuel == 0 || !unvisited(w, v) {
        w
    } else {
        leave(visit_from(g, enter(w, v, p), v, 0, (fuel - 1) as nat), v)
    }
}

/// The walk after trying the neighbours of `v` from the `k`-th on.
pub open spec fn visit_from(g: &Graph, w: Walk, v: NodeIndex, k: int, fuel: nat) -> Walk
    decreases fuel, 1int, nbr_count(g, v) - k,
{
    if k < 0 || k >= nbr_count(g, v) {
        w
    } else {
        let x = nbr(g, v, k);
        let w1 = if unvisited(w, x) && linked(g, v, k) {
            visit(g, w, x, Some(v), fuel)
        } else {
            w
        };
        visit_from(g, w1, v, k + 1, fuel)
    }
}

/// A walk over `n` positions that has not started.
pub open spec fn fresh_walk(n: nat) -> Walk {
    (
        Seq::new(n, |i: int| false),
        Seq::empty(),
        Seq::empty(),
        Seq::new(n, |i: int| 0int),
        Seq::new(n, |i: int| 0int),
        Seq::new(n, |i: int| None::<NodeIndex>),
    )
}

/// The walk after visiting the nodes from position `k` on in turn.
pub open spec fn visit_all(g: &Graph, w: Walk, k: int) -> Walk
    decreases g.n() - k,
{
    if k < 0 || k >= g.n() {
        w
    } else {
        visit_all(g, visit(g, w, g.node_at(k), None, g.n() + 1), k + 1)
    }
}

/// The nodes in the order the walks started from each node in turn leave
/// them.
pub open spec fn postorder_spec(g: &Graph) -> Seq<NodeIndex> {
    visit_all(g, fresh_walk(g.n()), 0).2
}

/// The nodes in the order the walk from `root` enters them.
pub open spec fn preorder_spec(g: &Graph, root: NodeIndex) -> Seq<NodeIndex> {
    visit(g, fresh_walk(g.n()), root, None, g.n() + 1).1
}

/// Every neighbour the walk tries is a node.
pub proof fn lemma_nbr_node(g: &Graph, v: NodeIndex, k: int)
    requires
        g.wf(),
        0 <= k < nbr_count(g, v),
    ensures
        g.contains_node(nbr(g, v, k)),
{
    let outs = g.out_edges_spec(v);
    if k < outs.len() {
        crate::graph::lemma_incident_index(g.entries(), v, true, k);
        let i = choose|i: int| 0 <= i < g.entries().len() && #[trigger] g.entries()[i].0 == outs[k];
        assert(g.contains_node(g.entries()[i].0.target));
    } else {
        crate::graph::lemma_incident_index(g.entries(), v, false, k - outs.len());
        let i = choose|i: int| 0 <= i < g.entries().len() && #[trigger] g.entries()[i].0 == g.in_edges_spec(v)[k - outs.len()];
        assert(g.contains_node(g.entries()[i].0.source));
    }
}

/// Visits `v` and, depth first, every unvisited node it reaches by tree
/// edges, appending each node to `result` when it is left.
fn post_visit(
    graph: &Graph,
    visited: &mut Vec<bool>,
    result: &mut Vec<NodeIndex>,
    v: NodeIndex,
    Ghost(w): Ghost<Walk>,
    Ghost(p): Ghost<Option<NodeIndex>>,
    Ghost(fuel): Ghost<nat>,
)
    requires
        graph.wf(),
        graph.contains_node(v),
        old(visited)@ == w.0,
        old(result)@ == w.2,
        w.0.len() == graph.n(),
        unseen(w.0) < fuel,
        unvisited(w, v),
    ensures
        final(visited)@ == visit(graph, w, v, p, fuel).0,
        final(result)@ == visit(graph, w, v, p, fuel).2,
        final(visited)@.len() == old(visited)@.len(),
        forall|i: int| 0 <= i < old(visited)@.len() && #[trigger] old(visited)@[i] ==> final(visited)@[i],
        unseen(final(visited)@) < unseen(old(visited)@),
    decreases fuel,
{
    let ghost f = (fuel - 1) as nat;
    let ghost w1 = enter(w, v, p);
    let ghost target = visit_from(graph, w1, v, 0, f);
    visited.set(v.node_index, true);
    proof {
        lemma_unseen_set(w.0, v.node_index as int);
    }
    let ghost mut cur = w1;
    let outs = graph.out_edges(v);
    let ins = graph.in_edges(v);
    let ghost no = outs@.len() as int;
    let mut j: usize = 0;
    while j < outs.len()
        invariant
            graph.wf(),
            graph.contains_node(v),
            outs@ == graph.out_edges_spec(v),
            ins@ == graph.in_edges_spec(v),
            no == outs@.len(),
            j <= outs@.len(),
            visited@ == cur.0,
            result@ == cur.2,
            cur.0.len() == graph.n(),
            w.0.len() == graph.n(),
            unseen(cur.0) < f,
            visit_from(graph, cur, v, j as int, f) == target,
            forall|i: int| 0 <= i < w.0.len() && #[trigger] w.0[i] ==> cur.0[i],
            cur.0[v.node_index as int],
            f + 1 == fuel,
        decreases outs@.len() - j,
    {
        let x = outs[j].target;
        proof {
            lemma_nbr_node(graph, v, j as int);
        }
        if !visited[x.node_index] && is_tree_edge(graph, v, x) {
            post_visit(graph, visited, result, x, Ghost(cur), Ghost(Some(v)), Ghost(f));
            proof {
                let prev = cur;
                cur = visit(graph, cur, x, Some(v), f);
                assert forall|i: int| 0 <= i < w.0.len() && #[trigger] w.0[i] implies cur.0[i] by {
                    assert(prev.0[i]);
                }
            }
        }
        j += 1;
    }
    let mut j: usize = 0;
    while j < ins.len()
        invariant
            graph.wf(),
            graph.contains_node(v),
            outs@ == graph.out_edges_spec(v),
            ins@ == graph.in_edges_spec(v),
            no == outs@.len(),
            j <= ins@.len(),
            visited@ == cur.0,
            result@ == cur.2,
            cur.0.len() == graph.n(),
            w.0.len() == graph.n(),
            unseen(cur.0) < f,
            visit_from(graph, cur, v, no + j, f) == target,
            forall|i: int| 0 <= i < w.0.len() && #[trigger] w.0[i] ==> cur.0[i],
            cur.0[v.node_index as int],
            f + 1 == fuel,
        decreases ins@.len() - j,
    {
        let x = ins[j].source;
        proof {
            lemma_nbr_node(graph, v, no + j);
        }
        if !visited[x.node_index] && is_tree_edge(graph, x, v) {
            post_visit(graph, visited, result, x, Ghost(cur), Ghost(Some(v)), Ghost(f));
            proof {
                let prev = cur;
                cur = visit(graph, cur, x, Some(v), f);
                assert forall|i: int| 0 <= i < w.0.len() && #[trigger] w.0[i] implies cur.0[i] by {
                    assert(prev.0[i]);
                }
            }
        }
        j += 1;
    }
    result.push(v);
    proof {
        lemma_unseen_mono(w1.0, cur.0);
    }
}

/// The nodes in postorder of the depth-first walks along tree edges
/// started from every node in turn that no earlier walk reached.
pub fn postorder(graph: &Graph) -> (r: Vec<NodeIndex>)
    requires
        graph.wf(),
    ensures
        r@ == postorder_spec(graph),
{
    let n = graph.node_count();
    let mut visited: Vec<bool> = vec![false; n];
    let mut result: Vec<NodeIndex> = Vec::new();
    let ghost fuel = (graph.n() + 1) as nat;
    let ghost mut cur = fresh_walk(graph.n());
    proof {
        assert(visited@ =~= cur.0);
        assert(result@ =~= cur.2);
    }
    let nodes = graph.node_indices();
    let mut k: usize = 0;
    while k < nodes.len()
        invariant
            graph.wf(),
            n == graph.n(),
            nodes@.len() == n,
            forall|i: int| 0 <= i < n ==> #[trigger] nodes@[i] == graph.node_at(i),
            k <= n,
            fuel == n + 1,
            visited@ == cur.0,
            result@ == cur.2,
            cur.0.len() == n,
            visit_all(graph, cur, k as int) == visit_all(graph, fresh_walk(graph.n()), 0),
        decreases n - k,
    {
        let v = nodes[k];
        proof {
            lemma_unseen_le(cur.0);
        }
        if !visited[v.node_index] {
            post_visit(graph, &mut visited, &mut result, v, Ghost(cur), Ghost(None), Ghost(fuel));
        }
        proof {
            cur = visit(graph, cur, v, None, fuel);
        }
        k += 1;
    }
    result
}

/// No more positions are unvisited than there are positions.
pub proof fn lemma_unseen_le(s: Seq<bool>)
    ensures
        unseen(s) <= s.len(),
    decreases s.len(),
{
    if s.len() > 0 {
        lemma_unseen_le(s.drop_last());
    }
}

/// Visits `v` and, depth first, every unvisited node it reaches by tree
/// edges, appending each node to `result` when it is entered.
fn pre_visit(
    graph: &Graph,
    visited: &mut Vec<bool>,
    result: &mut Vec<NodeIndex>,
    v: NodeIndex,
    Ghost(w): Ghost<Walk>,
    Ghost(p): Ghost<Option<NodeIndex>>,
    Ghost(fuel): Ghost<nat>,
)
    requires
        graph.wf(),
        graph.contains_node(v),
        old(visited)@ == w.0,
        old(result)@ == w.1,
        w.0.len() == graph.n(),
        unseen(w.0) < fuel,
        unvisited(w, v),
    ensures
        final(visited)@ == visit(graph, w, v, p, fuel).0,
        final(result)@ == visit(graph, w, v, p, fuel).1,
        final(visited)@.len() == old(visited)@.len(),
        forall|i: int| 0 <= i < old(visited)@.len() && #[trigger] old(visited)@[i] ==> final(visited)@[i],
        unseen(final(visited)@) < unseen(old(visited)@),
    decreases fuel,
{
    let ghost f = (fuel - 1) as nat;
    let ghost w1 = enter(w, v, p);
    let ghost target = visit_from(graph, w1, v, 0, f);
    visited.set(v.node_index, true);
    result.push(v);
    proof {
        lemma_unseen_set(w.0, v.node_index as int);
    }
    let ghost mut cur = w1;
    let outs = graph.out_edges(v);
    let ins = graph.in_edges(v);
    let ghost no = outs@.len() as int;
    let mut j: usize = 0;
    while j < outs.len()
        invariant
            graph.wf(),
            graph.contains_node(v),
            outs@ == graph.out_edges_spec(v),
            ins@ == graph.in_edges_spec(v),
            no == outs@.len(),
            j <= outs@.len(),
            visited@ == cur.0,
            result@ == cur.1,
            cur.0.len() == graph.n(),
            w.0.len() == graph.n(),
            unseen(cur.0) < f,
            visit_from(graph, cur, v, j as int, f) == target,
            forall|i: int| 0 <= i < w.0.len() && #[trigger] w.0[i] ==> cur.0[i],
            cur.0[v.node_index as int],
            f + 1 == fuel,
        decreases outs@.len() - j,
    {
        let x = outs[j].target;
        proof {
            lemma_nbr_node(graph, v, j as int);
        }
        if !visited[x.node_index] && is_tree_edge(graph, v, x) {
            pre_visit(graph, visited, result, x, Ghost(cur), Ghost(Some(v)), Ghost(f));
            proof {
                let prev = cur;
                cur = visit(graph, cur, x, Some(v), f);
                assert forall|i: int| 0 <= i < w.0.len() && #[trigger] w.0[i] implies cur.0[i] by {
                    assert(prev.0[i]);
                }
            }
        }
        j += 1;
    }
    let mut j: usize = 0;
    while j < ins.len()
        invariant
            graph.wf(),
            graph.contains_node(v),
            outs@ == graph.out_edges_spec(v),
            ins@ == graph.in_edges_spec(v),
            no == outs@.len(),
            j <= ins@.len(),
            visited@ == cur.0,
            result@ == cur.1,
            cur.0.len() == graph.n(),
            w.0.len() == graph.n(),
            unseen(cur.0) < f,
            visit_from(graph, cur, v, no + j, f) == target,
            forall|i: int| 0 <= i < w.0.len() && #[trigger] w.0[i] ==> cur.0[i],
            cur.0[v.node_index as int],
            f + 1 == fuel,
        decreases ins@.len() - j,
    {
        let x = ins[j].source;
        proof {
            lemma_nbr_node(graph, v, no + j);
        }
        if !visited[x.node_index] && is_tree_edge(graph, x, v) {
            pre_visit(graph, visited, result, x, Ghost(cur), Ghost(Some(v)), Ghost(f));
            proof {
                let prev = cur;
                cur = visit(graph, cur, x, Some(v), f);
                assert forall|i: int| 0 <= i < w.0.len() && #[trigger] w.0[i] implies cur.0[i] by {
                    assert(prev.0[i]);
                }
            }
        }
        j += 1;
    }
    proof {
        lemma_unseen_mono(w1.0, cur.0);
    }
}

/// The nodes in preorder of the depth-first walk along tree edges from
/// `root`.
pub fn preorder(graph: &Graph, root: NodeIndex) -> (r: Vec<NodeIndex>)
    requires
        graph.wf(),
        graph.contains_node(root),
    ensures
        r@ == preorder_spec(graph, root),
{
    let n = graph.node_count();
    let mut visited: Vec<bool> = vec![false; n];
    let mut result: Vec<NodeIndex> = Vec::new();
    let ghost w = fresh_walk(graph.n());
    proof {
        assert(visited@ =~= w.0);
        assert(result@ =~= w.1);
        lemma_unseen_le(w.0);
    }
    pre_visit(graph, &mut visited, &mut result, root, Ghost(w), Ghost(None), Ghost((graph.n() + 1) as nat));
    result
}

/// The labels `ns` with every node entered in `w` but not in `before`
/// numbered: `low` one more than the nodes left before it was entered,
/// `lim` one more than the nodes left before it was left, and `parent`
/// the node it was reached from.
pub open spec fn numbered(ns: Seq<NodeLabel>, before: Seq<bool>, w: Walk) -> Seq<NodeLabel> {
    Seq::new(
        ns.len(),
        |i: int|
            if w.0[i] && !before[i] {
                NodeLabel { low: Some((1 + w.3[i]) as i32), lim: Some((1 + w.4[i]) as i32), parent: w.5[i], ..ns[i] }
            } else {
                ns[i]
            },
    )
}

/// Numbers `v` and, depth first, every unvisited node it reaches by tree
/// edges with `low` and `lim` counters, starting from `next_lim`, and
/// records the node each was reached from; returns the next free value.
fn dfs_assign_low_lim(
    graph: &mut Graph,
    visited: &mut Vec<bool>,
    next_lim: i32,
    v: NodeIndex,
    parent: Option<NodeIndex>,
    Ghost(g0): Ghost<Graph>,
    Ghost(w): Ghost<Walk>,
    Ghost(fuel): Ghost<nat>,
) -> (r: i32)
    requires
        g0.wf(),
        old(graph).entries() == g0.entries(),
        old(graph).n() == g0.n(),
        old(graph).id() == g0.id(),
        g0.n() + 2 < i32::MAX,
        g0.contains_node(v),
        old(visited)@ == w.0,
        next_lim == 1 + w.2.len(),
        w.0.len() == g0.n(),
        w.3.len() == g0.n(),
        w.4.len() == g0.n(),
        w.5.len() == g0.n(),
        w.2.len() + unseen(w.0) <= g0.n(),
        unseen(w.0) < fuel,
        unvisited(w, v),
    ensures
        final(visited)@ == visit(&g0, w, v, parent, fuel).0,
        r == 1 + visit(&g0, w, v, parent, fuel).2.len(),
        final(graph).node_seq() == numbered(old(graph).node_seq(), w.0, visit(&g0, w, v, parent, fuel)),
        final(graph).entries() == g0.entries(),
        final(graph).id() == g0.id(),
        final(graph).config_spec() == old(graph).config_spec(),
        final(graph).dummy_heads() == old(graph).dummy_heads(),
        visit(&g0, w, v, parent, fuel).3.len() == g0.n(),
        visit(&g0, w, v, parent, fuel).4.len() == g0.n(),
        visit(&g0, w, v, parent, fuel).5.len() == g0.n(),
        visit(&g0, w, v, parent, fuel).2.len() + unseen(final(visited)@) == w.2.len() + unseen(w.0),
        forall|i: int| 0 <= i < g0.n() && #[trigger] w.0[i] ==> visit(&g0, w, v, parent, fuel).3[i] == w.3[i]
            && visit(&g0, w, v, parent, fuel).4[i] == w.4[i] && visit(&g0, w, v, parent, fuel).5[i] == w.5[i],
        final(visited)@.len() == old(visited)@.len(),
        forall|i: int| 0 <= i < old(visited)@.len() && #[trigger] old(visited)@[i] ==> final(visited)@[i],
        unseen(final(visited)@) < unseen(old(visited)@),
    decreases fuel,
{
    let ghost f = (fuel - 1) as nat;
    let ghost w1 = enter(w, v, parent);
    let ghost target = visit_from(&g0, w1, v, 0, f);
    let ghost ns0 = graph.node_seq();
    let low = next_lim;
    let mut next_lim = next_lim;
    visited.set(v.node_index, true);
    proof {
        lemma_unseen_set(w.0, v.node_index as int);
        assert(numbered(ns0, w1.0, w1) =~= ns0);
    }
    let ghost mut cur = w1;
    let outs = graph.out_edges(v);
    let ins = graph.in_edges(v);
    let ghost no = outs@.len() as int;
    let mut j: usize = 0;
    while j < outs.len()
        invariant
            g0.wf(),
            g0.contains_node(v),
            graph.entries() == g0.entries(),
            graph.n() == g0.n(),
            graph.id() == g0.id(),
            graph.config_spec() == old(graph).config_spec(),
            graph.dummy_heads() == old(graph).dummy_heads(),
            g0.n() + 2 < i32::MAX,
            outs@ == g0.out_edges_spec(v),
            ins@ == g0.in_edges_spec(v),
            no == outs@.len(),
            j <= outs@.len(),
            visited@ == cur.0,
            next_lim == 1 + cur.2.len(),
            cur.0.len() == g0.n(),
            cur.3.len() == g0.n(),
            cur.4.len() == g0.n(),
            cur.5.len() == g0.n(),
            w.0.len() == g0.n(),
            cur.2.len() + unseen(cur.0) + 1 == w.2.len() + unseen(w.0),
            w.2.len() + unseen(w.0) <= g0.n(),
            unseen(cur.0) < f,
            visit_from(&g0, cur, v, j as int, f) == target,
            graph.node_seq() == numbered(ns0, w1.0, cur),
            ns0.len() == g0.n(),
            w1 == enter(w, v, parent),
            w.3.len() == g0.n(),
            w.4.len() == g0.n(),
            w.5.len() == g0.n(),
            forall|i: int| 0 <= i < w.0.len() && #[trigger] w.0[i] ==> cur.0[i],
            forall|i: int| 0 <= i < g0.n() && #[trigger] w1.0[i] ==> cur.3[i] == w1.3[i] && cur.4[i] == w1.4[i] && cur.5[i] == w1.5[i],
            cur.0[v.node_index as int],
            f + 1 == fuel,
        decreases outs@.len() - j,
    {
        let x = outs[j].target;
        proof {
            lemma_nbr_node(&g0, v, j as int);
        }
        if !visited[x.node_index] && is_tree_edge(graph, v, x) {
            let ghost gb = graph.node_seq();
            next_lim = dfs_assign_low_lim(graph, visited, next_lim, x, Some(v), Ghost(g0), Ghost(cur), Ghost(f));
            proof {
                let prev = cur;
                cur = visit(&g0, cur, x, Some(v), f);
                assert forall|i: int| 0 <= i < w.0.len() && #[trigger] w.0[i] implies cur.0[i] by {
                    assert(prev.0[i]);
                }
                assert forall|i: int| 0 <= i < g0.n() && #[trigger] w1.0[i] implies cur.3[i] == w1.3[i] && cur.4[i] == w1.4[i] && cur.5[i] == w1.5[i] by {
                    assert(prev.0[i]);
                }
                lemma_numbered_step(ns0, w1.0, prev, cur, gb, graph.node_seq());
            }
        }
        j += 1;
    }
    let mut j: usize = 0;
    while j < ins.len()
        invariant
            g0.wf(),
            g0.contains_node(v),
            graph.entries() == g0.entries(),
            graph.n() == g0.n(),
            graph.id() == g0.id(),
            graph.config_spec() == old(graph).config_spec(),
            graph.dummy_heads() == old(graph).dummy_heads(),
            g0.n() + 2 < i32::MAX,
            outs@ == g0.out_edges_spec(v),
            ins@ == g0.in_edges_spec(v),
            no == outs@.len(),
            j <= ins@.len(),
            visited@ == cur.0,
            next_lim == 1 + cur.2.len(),
            cur.0.len() == g0.n(),
            cur.3.len() == g0.n(),
            cur.4.len() == g0.n(),
            cur.5.len() == g0.n(),
            w.0.len() == g0.n(),
            cur.2.len() + unseen(cur.0) + 1 == w.2.len() + unseen(w.0),
            w.2.len() + unseen(w.0) <= g0.n(),
            unseen(cur.0) < f,
            visit_from(&g0, cur, v, no + j, f) == target,
            graph.node_seq() == numbered(ns0, w1.0, cur),
            ns0.len() == g0.n(),
            w1 == enter(w, v, parent),
            w.3.len() == g0.n(),
            w.4.len() == g0.n(),
            w.5.len() == g0.n(),
            forall|i: int| 0 <= i < w.0.len() && #[trigger] w.0[i] ==> cur.0[i],
            forall|i: int| 0 <= i < g0.n() && #[trigger] w1.0[i] ==> cur.3[i] == w1.3[i] && cur.4[i] == w1.4[i] && cur.5[i] == w1.5[i],
            cur.0[v.node_index as int],
            f + 1 == fuel,
        decreases ins@.len() - j,
    {
        let x = ins[j].source;
        proof {
            lemma_nbr_node(&g0, v, no + j);
        }
        if !visited[x.node_index] && is_tree_edge(graph, x, v) {
            let ghost gb = graph.node_seq();
            next_lim = dfs_assign_low_lim(graph, visited, next_lim, x, Some(v), Ghost(g0), Ghost(cur), Ghost(f));
            proof {
                let prev = cur;
                cur = visit(&g0, cur, x, Some(v), f);
                assert forall|i: int| 0 <= i < w.0.len() && #[trigger] w.0[i] implies cur.0[i] by {
                    assert(prev.0[i]);
                }
                assert forall|i: int| 0 <= i < g0.n() && #[trigger] w1.0[i] implies cur.3[i] == w1.3[i] && cur.4[i] == w1.4[i] && cur.5[i] == w1.5[i] by {
                    assert(prev.0[i]);
                }
                lemma_numbered_step(ns0, w1.0, prev, cur, gb, graph.node_seq());
            }
        }
        j += 1;
    }
    let ghost gb = graph.node_seq();
    match graph.node_label_mut(v) {
        Some(l) => {
            l.low = Some(low);
            l.lim = Some(next_lim);
            l.parent = parent;
        },
        None => {},
    }
    proof {
        lemma_unseen_mono(w1.0, cur.0);
        let fin = leave(cur, v);
        assert(graph.node_seq() =~= numbered(ns0, w.0, fin));
        assert forall|i: int| 0 <= i < g0.n() && #[trigger] w.0[i] implies fin.3[i] == w.3[i] && fin.4[i] == w.4[i]
            && fin.5[i] == w.5[i] by {
            assert(w1.0[i]);
            assert(i != v.node_index);
        }
    }
    next_lim + 1
}

/// Numbering the nodes of a child's walk on top of the numbering so far
/// gives the numbering of the whole walk.
proof fn lemma_numbered_step(
    ns0: Seq<NodeLabel>,
    start: Seq<bool>,
    prev: Walk,
    cur: Walk,
    before: Seq<NodeLabel>,
    after: Seq<NodeLabel>,
)
    requires
        before == numbered(ns0, start, prev),
        after == numbered(before, prev.0, cur),
        start.len() == ns0.len(),
        prev.0.len() == ns0.len(),
        cur.0.len() == ns0.len(),
        forall|i: int| 0 <= i < start.len() && #[trigger] start[i] ==> prev.0[i],
        forall|i: int| 0 <= i < prev.0.len() && #[trigger] prev.0[i] ==> cur.0[i],
        forall|i: int| 0 <= i < ns0.len() && prev.0[i] ==> #[trigger] cur.3[i] == prev.3[i] && cur.4[i] == prev.4[i] && cur.5[i] == prev.5[i],
    ensures
        after == numbered(ns0, start, cur),
{
    assert(after =~= numbered(ns0, start, cur));
}

/// Position `i` holds the first node without a parent.
pub open spec fn is_first_root(g: &Graph, i: int) -> bool {
    &&& 0 <= i < g.n()
    &&& g.node_seq()[i].parent is None
    &&& forall|j: int| 0 <= j < i ==> #[trigger] g.node_seq()[j].parent is Some
}

/// Some node has no parent.
pub open spec fn has_root(g: &Graph) -> bool {
    exists|i: int| 0 <= i < g.n() && #[trigger] g.node_seq()[i].parent is None
}

/// The first node without a parent: the root of the tree.
pub open spec fn tree_root_spec(g: &Graph) -> NodeIndex {
    g.node_at(choose|i: int| is_first_root(g, i))
}

/// The first node without a parent.
pub fn tree_root(graph: &Graph) -> (r: NodeIndex)
    requires
        has_root(graph),
    ensures
        r == tree_root_spec(graph),
        is_first_root(graph, r.node_index as int),
        graph.contains_node(r),
{
    let nodes = graph.node_indices();
    let mut i: usize = 0;
    while i < nodes.len()
        invariant
            nodes@.len() == graph.n(),
            forall|k: int| 0 <= k < graph.n() ==> #[trigger] nodes@[k] == graph.node_at(k),
            i <= graph.n(),
            forall|j: int| 0 <= j < i ==> #[trigger] graph.node_seq()[j].parent is Some,
        decreases graph.n() - i,
    {
        let v = nodes[i];
        match graph.node_label(v) {
            Some(l) => {
                if l.parent.is_none() {
                    proof {
                        assert(is_first_root(graph, i as int));
                        let c = choose|c: int| is_first_root(graph, c);
                        assert(c == i) by {
                            if c < i {
                                assert(graph.node_seq()[c].parent is Some);
                            } else if c > i {
                                assert(graph.node_seq()[i as int].parent is Some);
                            }
                        }
                    }
                    return v;
                }
            },
            None => {},
        }
        i += 1;
    }
    proof {
        let k = choose|k: int| 0 <= k < graph.n() && #[trigger] graph.node_seq()[k].parent is None;
        assert(graph.node_seq()[k].parent is Some);
    }
    nodes[0]
}

/// The walk from the root over a graph of `n` nodes.
pub open spec fn root_walk(g: &Graph) -> Walk {
    visit(g, fresh_walk(g.n()), tree_root_spec(g), None, g.n() + 1)
}

/// Numbers the nodes the walk from the root reaches: `low` and `lim` from
/// the postorder counter starting at 1, and `parent` the node each was
/// reached from (none for the root).
pub fn init_low_lim_values(graph: &mut Graph)
    requires
        old(graph).wf(),
        has_root(&*old(graph)),
        old(graph).n() + 2 < i32::MAX,
    ensures
        final(graph).node_seq() == numbered(old(graph).node_seq(), fresh_walk(old(graph).n()).0, root_walk(&*old(graph))),
        final(graph).entries() == old(graph).entries(),
        final(graph).id() == old(graph).id(),
        final(graph).config_spec() == old(graph).config_spec(),
        final(graph).dummy_heads() == old(graph).dummy_heads(),
        final(graph).wf(),
{
    let ghost g0 = *graph;
    let root = tree_root(graph);
    let n = graph.node_count();
    let mut visited: Vec<bool> = vec![false; n];
    let ghost w = fresh_walk(graph.n());
    proof {
        assert(visited@ =~= w.0);
        lemma_unseen_le(w.0);
    }
    let _ = dfs_assign_low_lim(graph, &mut visited, 1, root, None, Ghost(g0), Ghost(w), Ghost((g0.n() + 1) as nat));
    proof {
        crate::graph::lemma_wf_same_shape(&g0, graph);
    }
}

/// The ranks `rs` after moving `v` next to its parent along the tree edge
/// between them, so that the edge becomes tight; `None` when `v` is no
/// node, its parent belongs to another graph or the new rank leaves `i32`.
pub open spec fn rank_update(g: &Graph, rs: Seq<Option<i32>>, v: NodeIndex) -> Option<Seq<Option<i32>>> {
    let i = v.node_index as int;
    if !g.contains_node(v) {
        None
    } else {
    match g.label_of(v).parent {
        None => Some(rs),
        Some(p) => if p.which_graph != g.id() {
            None
        } else {
            let fwd = Edge { source: v, target: p };
            let bwd = Edge { source: p, target: v };
            if !g.has_edge_spec(fwd) && !g.has_edge_spec(bwd) {
                Some(rs)
            } else {
                let flipped = !g.has_edge_spec(fwd);
                let minlen = g.edge_label_spec(if flipped { bwd } else { fwd }).minlen;
                if p.node_index < rs.len() && rs[i] is Some && rs[p.node_index as int] is Some {
                    let pr = rs[p.node_index as int]->0;
                    let nr: int = if flipped { pr + minlen } else { pr - minlen };
                    if i32::MIN <= nr <= i32::MAX {
                        Some(rs.update(i, Some(nr as i32)))
                    } else {
                        None
                    }
                } else {
                    Some(rs)
                }
            }
        },
    }
    }
}

/// The ranks after updating the nodes of `vs` from position `k` on in turn.
pub open spec fn ranks_updated(g: &Graph, rs: Seq<Option<i32>>, vs: Seq<NodeIndex>, k: int) -> Option<Seq<Option<i32>>>
    decreases vs.len() - k,
{
    if k < 0 || k >= vs.len() {
        Some(rs)
    } else {
        match rank_update(g, rs, vs[k]) {
            None => None,
            Some(rs1) => ranks_updated(g, rs1, vs, k + 1),
        }
    }
}

/// The labels `ns` with the ranks `rs`.
pub open spec fn with_ranks(ns: Seq<NodeLabel>, rs: Seq<Option<i32>>) -> Seq<NodeLabel> {
    Seq::new(ns.len(), |i: int| NodeLabel { rank: rs[i], ..ns[i] })
}

/// The ranks the update from the root gives, when it succeeds.
pub open spec fn updated_ranks(g: &Graph) -> Option<Seq<Option<i32>>> {
    ranks_updated(g, crate::rank::feasible_tree::rank_seq(g), preorder_spec(g, tree_root_spec(g)), 1)
}

/// Re-ranks every node the walk from the root reaches after the root, in
/// preorder: a node whose parent and itself have ranks moves to the
/// parent's rank minus the minimum length of the tree edge between them
/// (plus, when that edge points from the parent to the node). Returns
/// `false`, with the graph partly updated, where a parent belongs to
/// another graph or a new rank leaves `i32`.
pub fn update_ranks(graph: &mut Graph) -> (ok: bool)
    requires
        old(graph).wf(),
        has_root(&*old(graph)),
    ensures
        ok == updated_ranks(&*old(graph)) is Some,
        ok ==> final(graph).node_seq() == with_ranks(old(graph).node_seq(), updated_ranks(&*old(graph))->0),
        final(graph).n() == old(graph).n(),
        final(graph).entries() == old(graph).entries(),
        final(graph).id() == old(graph).id(),
        final(graph).config_spec() == old(graph).config_spec(),
        final(graph).dummy_heads() == old(graph).dummy_heads(),
        final(graph).wf(),
{
    let ghost g0 = *graph;
    let root = tree_root(graph);
    let vs = preorder(graph, root);
    let ghost rs0 = crate::rank::feasible_tree::rank_seq(&g0);
    proof {
        assert(with_ranks(g0.node_seq(), rs0) =~= g0.node_seq());
    }
    let ghost mut rs = rs0;
    let mut k: usize = 1;
    while k < vs.len()
        invariant
            g0.wf(),
            *old(graph) == g0,
            vs@ == preorder_spec(&g0, tree_root_spec(&g0)),
            1 <= k,
            graph.entries() == g0.entries(),
            graph.id() == g0.id(),
            graph.config_spec() == g0.config_spec(),
            graph.dummy_heads() == g0.dummy_heads(),
            graph.node_seq() == with_ranks(g0.node_seq(), rs),
            rs.len() == g0.n(),
            ranks_updated(&g0, rs, vs@, k as int) == updated_ranks(&g0),
        decreases vs@.len() - k,
    {
        let v = vs[k];
        let ghost gb = *graph;
        proof {
            crate::graph::lemma_wf_same_shape(&g0, graph);
        }
        if v.which_graph != graph.graph_id() || v.node_index >= graph.node_count() {
            return false;
        }
        let parent = match graph.node_label(v) {
            Some(l) => l.parent,
            None => None,
        };
        proof {
            assert(graph.node_seq()[v.node_index as int].parent == g0.label_of(v).parent);
        }
        if let Some(p) = parent {
            if p.which_graph != graph.graph_id() {
                return false;
            }
            let (minlen, flipped, found) = match graph.edge_label(&Edge::new(v, p)) {
                Some(l) => (l.minlen, false, true),
                None => match graph.edge_label(&Edge::new(p, v)) {
                    Some(l) => (l.minlen, true, true),
                    None => (0, false, false),
                },
            };
            if found {
                let own = match graph.node_label(v) {
                    Some(l) => l.rank,
                    None => None,
                };
                let pr = match graph.node_label(p) {
                    Some(l) => l.rank,
                    None => None,
                };
                if let (Some(_), Some(pr)) = (own, pr) {
                    let nr = if flipped {
                        pr.checked_add(minlen)
                    } else {
                        pr.checked_sub(minlen)
                    };
                    match nr {
                        Some(x) => {
                            match graph.node_label_mut(v) {
                                Some(l) => {
                                    l.rank = Some(x);
                                },
                                None => {},
                            }
                            proof {
                                let rs1 = rs.update(v.node_index as int, Some(x));
                                assert(graph.node_seq() =~= with_ranks(g0.node_seq(), rs1));
                                rs = rs1;
                            }
                        },
                        None => {
                            return false;
                        },
                    }
                }
            }
        }
        k += 1;
    }
    proof {
        crate::graph::lemma_wf_same_shape(&g0, graph);
    }
    true
}

/// `a` and `b` hold the same nodes, edges and settings.
pub open spec fn same_graph(a: &Graph, b: &Graph) -> bool {
    &&& a.node_seq() == b.node_seq()
    &&& a.entries() == b.entries()
    &&& a.id() == b.id()
    &&& a.config_spec() == b.config_spec()
    &&& a.dummy_heads() == b.dummy_heads()
}

/// `gb` is `ga` after storing the cut value of the tree edge between
/// `child` and its parent on that edge, which `ga` can compute.
pub open spec fn cut_stored(ga: &Graph, gb: &Graph, child: NodeIndex) -> bool {
    &&& ga.wf()
    &&& ga.contains_node(child)
    &&& ga.label_of(child).parent is Some ==> cut_value_fits(ga, child)
    &&& gb.node_seq() == ga.node_seq()
    &&& gb.id() == ga.id()
    &&& gb.config_spec() == ga.config_spec()
    &&& gb.dummy_heads() == ga.dummy_heads()
    &&& ga.label_of(child).parent is None ==> gb.entries() == ga.entries()
    &&& ga.label_of(child).parent is Some ==> {
        let e = stored_edge(ga, child, parent_of(ga, child));
        if ga.has_edge_spec(e) {
            gb.entries() == ga.entries().update(
                key_pos(ga.entries(), e),
                (e, EdgeLabel { cutvalue: Some(cut_value_spec(ga, child) as i32), ..ga.edge_label_spec(e) }),
            )
        } else {
            gb.entries() == ga.entries()
        }
    }
}

/// `gs` are the graphs after storing the cut values of the first `k`
/// nodes of `vs` in turn.
pub open spec fn cut_trace(gs: Seq<Graph>, vs: Seq<NodeIndex>, k: int) -> bool {
    &&& 0 <= k <= vs.len()
    &&& gs.len() == k + 1
    &&& forall|j: int| 0 <= j < k ==> #[trigger] cut_stored(&gs[j], &gs[j + 1], vs[j])
}

/// The nodes whose cut values are computed: the postorder without its
/// last node.
pub open spec fn cut_order(g: &Graph) -> Seq<NodeIndex> {
    let post = postorder_spec(g);
    if post.len() == 0 {
        post
    } else {
        post.drop_last()
    }
}

/// `gb` is `ga` with the cut values of all the nodes of the postorder but
/// the last stored in turn.
pub open spec fn cuts_done(ga: &Graph, gb: &Graph) -> bool {
    exists|gs: Seq<Graph>|
        #[trigger] cut_trace(gs, cut_order(ga), cut_order(ga).len() as int) && same_graph(&gs[0], ga) && same_graph(
            &gs.last(),
            gb,
        )
}

/// Storing the cut values of the postorder in turn from `ga` reaches a
/// node that is no node of the graph, or whose cut value does not fit.
pub open spec fn cuts_fail(ga: &Graph) -> bool {
    exists|gs: Seq<Graph>, k: int|
        #[trigger] cut_trace(gs, cut_order(ga), k) && k < cut_order(ga).len() && same_graph(&gs[0], ga) && {
            let g = gs[k];
            let v = cut_order(ga)[k];
            !g.contains_node(v) || (g.label_of(v).parent is Some && !cut_value_fits(&g, v))
        }
}

/// Stores on every tree edge its cut value, visiting the nodes in
/// postorder and leaving out the last. Returns `false`, with the graph
/// partly updated, where a cut value does not fit in an `i32`.
pub fn init_cut_values(graph: &mut Graph) -> (ok: bool)
    requires
        old(graph).wf(),
    ensures
        ok ==> cuts_done(&*old(graph), &*final(graph)),
        !ok ==> cuts_fail(&*old(graph)),
        final(graph).wf(),
        final(graph).edge_seq() == old(graph).edge_seq(),
        final(graph).node_seq() == old(graph).node_seq(),
        final(graph).id() == old(graph).id(),
        final(graph).config_spec() == old(graph).config_spec(),
        final(graph).dummy_heads() == old(graph).dummy_heads(),
{
    let ghost g0 = *graph;
    let mut vs = postorder(graph);
    if vs.len() > 0 {
        vs.pop();
    }
    let ghost order = cut_order(&g0);
    proof {
        assert(vs@ =~= order);
    }
    let ghost mut gs: Seq<Graph> = seq![*graph];
    let mut k: usize = 0;
    while k < vs.len()
        invariant
            *old(graph) == g0,
            vs@ == order,
            order == cut_order(&g0),
            k <= vs@.len(),
            cut_trace(gs, order, k as int),
            gs[0] == g0,
            gs[k as int] == *graph,
            graph.wf(),
            graph.edge_seq() == g0.edge_seq(),
            graph.node_seq() == g0.node_seq(),
            graph.id() == g0.id(),
            graph.config_spec() == g0.config_spec(),
            graph.dummy_heads() == g0.dummy_heads(),
        decreases vs@.len() - k,
    {
        let v = vs[k];
        if v.which_graph != graph.graph_id() || v.node_index >= graph.node_count() {
            proof {
                assert(cut_trace(gs, cut_order(&g0), k as int));
            }
            return false;
        }
        let has_parent = graph.node_label(v).unwrap().parent.is_some();
        if has_parent && !crate::rank::network_simplex::cut_value_in_range(graph, v) {
            proof {
                assert(cut_trace(gs, cut_order(&g0), k as int));
            }
            return false;
        }
        let ghost ga = *graph;
        crate::rank::network_simplex::assign_cut_value(graph, v);
        proof {
            let gs1 = gs.push(*graph);
            assert(gs1[k as int] == ga);
            if ga.label_of(v).parent is Some {
                let e = crate::rank::network_simplex::stored_edge(&ga, v, crate::rank::network_simplex::parent_of(&ga, v));
                if ga.has_edge_spec(e) {
                    let p = key_pos(ga.entries(), e);
                    assert(ga.entries()[p].0 == e);
                }
            }
            assert(graph.edge_seq() =~= ga.edge_seq());
            assert(cut_stored(&gs1[k as int], &gs1[k + 1], order[k as int]));
            assert forall|j: int| 0 <= j < k + 1 implies #[trigger] cut_stored(&gs1[j], &gs1[j + 1], order[j]) by {
                if j < k {
                    assert(gs1[j] == gs[j] && gs1[j + 1] == gs[j + 1]);
                    assert(cut_stored(&gs[j], &gs[j + 1], order[j]));
                }
            }
            gs = gs1;
        }
        k += 1;
    }
    proof {
        assert(cut_trace(gs, cut_order(&g0), cut_order(&g0).len() as int));
    }
    true
}

/// Whether some node has no parent.
pub fn any_root(graph: &Graph) -> (r: bool)
    ensures
        r == has_root(graph),
{
    let nodes = graph.node_indices();
    let mut i: usize = 0;
    while i < nodes.len()
        invariant
            nodes@.len() == graph.n(),
            forall|k: int| 0 <= k < graph.n() ==> #[trigger] nodes@[k] == graph.node_at(k),
            i <= graph.n(),
            forall|j: int| 0 <= j < i ==> #[trigger] graph.node_seq()[j].parent is Some,
        decreases graph.n() - i,
    {
        if graph.node_label(nodes[i]).unwrap().parent.is_none() {
            return true;
        }
        i += 1;
    }
    false
}

/// The entries `s` with the cut value of edge `e`, when it is one, set
/// to `c`.
pub open spec fn with_cut(s: Seq<(Edge, EdgeLabel)>, e: Edge, c: Option<i32>) -> Seq<(Edge, EdgeLabel)> {
    if crate::index_map::has_key(s, e) {
        s.update(key_pos(s, e), (e, EdgeLabel { cutvalue: c, ..s[key_pos(s, e)].1 }))
    } else {
        s
    }
}

/// `gb` is `ga` with `e` out of the tree and `f` in it, with cut value 0.
pub open spec fn tree_swapped(ga: &Graph, gb: &Graph, e: Edge, f: Edge) -> bool {
    &&& gb.entries() == with_cut(with_cut(ga.entries(), e, None), f, Some(0))
    &&& gb.node_seq() == ga.node_seq()
    &&& gb.id() == ga.id()
    &&& gb.config_spec() == ga.config_spec()
    &&& gb.dummy_heads() == ga.dummy_heads()
}

/// `gb` is `ga` with the nodes the walk from the root reaches numbered.
pub open spec fn low_lim_done(ga: &Graph, gb: &Graph) -> bool {
    &&& gb.node_seq() == numbered(ga.node_seq(), fresh_walk(ga.n()).0, root_walk(ga))
    &&& gb.entries() == ga.entries()
    &&& gb.id() == ga.id()
    &&& gb.config_spec() == ga.config_spec()
    &&& gb.dummy_heads() == ga.dummy_heads()
}

/// `gb` is `ga` re-ranked along the tree from the root.
pub open spec fn ranks_done(ga: &Graph, gb: &Graph) -> bool {
    &&& updated_ranks(ga) is Some
    &&& gb.node_seq() == with_ranks(ga.node_seq(), updated_ranks(ga)->0)
    &&& gb.entries() == ga.entries()
    &&& gb.id() == ga.id()
    &&& gb.config_spec() == ga.config_spec()
    &&& gb.dummy_heads() == ga.dummy_heads()
}

/// `gb` is `ga` after swapping `e` for `f` in the tree (giving `g1`),
/// numbering the nodes (`g2`), computing the cut values (`g3`) and
/// re-ranking.
pub open spec fn exchanged_via(ga: &Graph, g1: &Graph, g2: &Graph, g3: &Graph, gb: &Graph, e: Edge, f: Edge) -> bool {
    tree_swapped(ga, g1, e, f) && low_lim_done(g1, g2) && cuts_done(g2, g3) && ranks_done(g3, gb)
}

/// The exchange from `ga` fails: after swapping `e` for `f` (giving `g1`)
/// no node lacks a parent or there are too many nodes, or after numbering
/// (giving `g2`) a cut value does not fit, or after the cut values no node
/// lacks a parent or the re-ranking fails.
pub open spec fn exchange_fails_at(ga: &Graph, g1: &Graph, g2: &Graph, e: Edge, f: Edge) -> bool {
    tree_swapped(ga, g1, e, f) && (!has_root(g1) || g1.n() + 2 >= i32::MAX || (low_lim_done(g1, g2) && (cuts_fail(g2)
        || exists|g3: Graph| #[trigger] cuts_done(g2, &g3) && (!has_root(&g3) || updated_ranks(&g3) is None))))
}

/// Replaces the tree edge `e` by `f`: `e` loses its cut value, `f` gets
/// cut value 0, then the nodes are numbered anew, the cut values computed
/// anew and the nodes re-ranked along the new tree. Returns `false`, with
/// the graph partly updated, where no node lacks a parent, there are too
/// many nodes to number in an `i32`, a cut value does not fit, or the
/// re-ranking fails.
pub fn exchange_edges(graph: &mut Graph, e: &Edge, f: &Edge) -> (ok: bool)
    requires
        old(graph).wf(),
    ensures
        final(graph).wf(),
        final(graph).n() == old(graph).n(),
        final(graph).edge_seq() == old(graph).edge_seq(),
        final(graph).id() == old(graph).id(),
        final(graph).config_spec() == old(graph).config_spec(),
        ok ==> exists|g1: Graph, g2: Graph, g3: Graph| #[trigger] exchanged_via(&*old(graph), &g1, &g2, &g3, &*final(graph), *e, *f),
        !ok ==> exists|g1: Graph, g2: Graph| #[trigger] exchange_fails_at(&*old(graph), &g1, &g2, *e, *f),
{
    let ghost g0 = *graph;
    let ghost ga = *graph;
    if let Some(l) = graph.edge_label_mut(e) {
        l.cutvalue = None;
    }
    proof {
        if ga.has_edge_spec(*e) {
            crate::graph::lemma_relabel_edge(&ga, graph, *e, EdgeLabel { cutvalue: None, ..ga.edge_label_spec(*e) });
        } else {
            crate::graph::lemma_wf_same_shape(&ga, graph);
        }
    }
    let ghost gm = *graph;
    if let Some(l) = graph.edge_label_mut(f) {
        l.cutvalue = Some(0);
    }
    proof {
        if gm.has_edge_spec(*f) {
            crate::graph::lemma_relabel_edge(&gm, graph, *f, EdgeLabel { cutvalue: Some(0), ..gm.edge_label_spec(*f) });
        } else {
            crate::graph::lemma_wf_same_shape(&gm, graph);
        }
    }
    let ghost g1 = *graph;
    proof {
        assert(tree_swapped(&g0, &g1, *e, *f));
    }
    if !any_root(graph) || graph.node_count() >= 2147483645 {
        proof {
            assert(exchange_fails_at(&g0, &g1, &g1, *e, *f));
        }
        return false;
    }
    init_low_lim_values(graph);
    let ghost g2 = *graph;
    proof {
        assert(low_lim_done(&g1, &g2));
    }
    if !init_cut_values(graph) {
        proof {
            assert(exchange_fails_at(&g0, &g1, &g2, *e, *f));
        }
        return false;
    }
    let ghost g3 = *graph;
    proof {
        assert(cuts_done(&g2, &g3));
    }
    if !any_root(graph) {
        proof {
            assert(cuts_done(&g2, &g3) && !has_root(&g3));
            assert(exchange_fails_at(&g0, &g1, &g2, *e, *f));
        }
        return false;
    }
    if !update_ranks(graph) {
        proof {
            assert(cuts_done(&g2, &g3) && updated_ranks(&g3) is None);
            assert(exchange_fails_at(&g0, &g1, &g2, *e, *f));
        }
        return false;
    }
    proof {
        assert(ranks_done(&g3, graph));
        assert(exchanged_via(&g0, &g1, &g2, &g3, graph, *e, *f));
    }
    true
}

} // verus!
