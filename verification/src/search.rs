//! Depth-first searches that follow every edge from a node: along its
//! out-edges, its in-edges, or both (out-edges first), in the graph's edge
//! order. Their state is a `Walk`, as for the walks along tree edges.
use vstd::prelude::*;
use crate::graph::Graph;
use crate::order::init_order::{unseen, lemma_unseen_set, lemma_unseen_mono};
use crate::rank::tree_walk::{Walk, enter, leave, unvisited, fresh_walk, lemma_unseen_le};
use crate::types::{Edge, NodeIndex};

verus! {

/// Which edges a search follows from a node.
#[derive(Clone, Copy, PartialEq, Eq, Structural)]
pub enum Dir {
    /// Out-edges, to their targets.
    Out,
    /// In-edges, to their sources.
    In,
    /// Out-edges, then in-edges.
    Both,
}

/// The out-edges the search follows from `v`.
pub open spec fn outs_of(g: &Graph, dir: Dir, v: NodeIndex) -> Seq<Edge> {
    if dir == Dir::In {
        Seq::empty()
    } else {
        g.out_edges_spec(v)
    }
}

/// The in-edges the search follows from `v`.
pub open spec fn ins_of(g: &Graph, dir: Dir, v: NodeIndex) -> Seq<Edge> {
    if dir == Dir::Out {
        Seq::empty()
    } else {
        g.in_edges_spec(v)
    }
}

/// How many neighbours the search tries from `v`.
pub open spec fn step_count(g: &Graph, dir: Dir, v: NodeIndex) -> int {
    (outs_of(g, dir, v).len() + ins_of(g, dir, v).len()) as int
}

/// The `k`-th neighbour tried from `v`.
pub open spec fn step_to(g: &Graph, dir: Dir, v: NodeIndex, k: int) -> NodeIndex {
    if k < outs_of(g, dir, v).len() {
        outs_of(g, dir, v)[k].target
    } else {
        ins_of(g, dir, v)[k - outs_of(g, dir, v).len()].source
    }
}

/// The walk after searching from `v`, reached from `p`, unless it was
/// entered before; `fuel` bounds the depth.
pub open spec fn search(g: &Graph, dir: Dir, w: Walk, v: NodeIndex, p: Option<NodeIndex>, fuel: nat) -> Walk
    decreases fuel, 0int, 0int,
{
    if fuel == 0 || !unvisited(w, v) {
        w
    } else {
        leave(search_from(g, dir, enter(w, v, p), v, 0, (fuel - 1) as nat), v)
    }
}

/// The walk after trying the neighbours of `v` from the `k`-th on.
pub open spec fn search_from(g: &Graph, dir: Dir, w: Walk, v: NodeIndex, k: int, fuel: nat) -> Walk
    decreases fuel, 1int, step_count(g, dir, v) - k,
{
    if k < 0 || k >= step_count(g, dir, v) {
        w
    } else {
        let x = step_to(g, dir, v, k);
        let w1 = if unvisited(w, x) {
            search(g, dir, w, x, Some(v), fuel)
        } else {
            w
        };
        search_from(g, dir, w1, v, k + 1, fuel)
    }
}

/// The walk after searching from the nodes at positions `k` on in turn.
pub open spec fn search_all(g: &Graph, dir: Dir, w: Walk, k: int) -> Walk
    decreases g.n() - k,
{
    if k < 0 || k >= g.n() {
        w
    } else {
        search_all(g, dir, search(g, dir, w, g.node_at(k), None, g.n() + 1), k + 1)
    }
}

/// `w` with no node entered or left yet, but the marks of `vis`.
pub open spec fn restart(w: Walk, vis: Seq<bool>) -> Walk {
    (vis, Seq::empty(), Seq::empty(), w.3, w.4, w.5)
}

/// The nodes the search along `dir` from `v` enters, in order, over a
/// fresh graph.
pub open spec fn reached_from(g: &Graph, dir: Dir, v: NodeIndex) -> Seq<NodeIndex> {
    search(g, dir, fresh_walk(g.n()), v, None, g.n() + 1).1
}

/// Every neighbour the search tries is a node.
pub proof fn lemma_step_node(g: &Graph, dir: Dir, v: NodeIndex, k: int)
    requires
        g.wf(),
        0 <= k < step_count(g, dir, v),
    ensures
        g.contains_node(step_to(g, dir, v, k)),
{
    let no = outs_of(g, dir, v).len();
    if k < no {
        crate::graph::lemma_incident_index(g.entries(), v, true, k);
        let i = choose|i: int| 0 <= i < g.entries().len() && #[trigger] g.entries()[i].0 == g.out_edges_spec(v)[k];
        assert(g.contains_node(g.entries()[i].0.source));
        assert(g.contains_node(g.entries()[i].0.target));
    } else {
        crate::graph::lemma_incident_index(g.entries(), v, false, k - no);
        let i = choose|i: int| 0 <= i < g.entries().len() && #[trigger] g.entries()[i].0 == g.in_edges_spec(v)[k - no];
        assert(g.contains_node(g.entries()[i].0.source));
        assert(g.contains_node(g.entries()[i].0.target));
    }
}

/// Searches from the unvisited node `v` along `dir`, appending each node
/// to `entered` when it is entered and to `left` when it is left.
pub fn search_exec(
    graph: &Graph,
    dir: Dir,
    visited: &mut Vec<bool>,
    entered: &mut Vec<NodeIndex>,
    left: &mut Vec<NodeIndex>,
    v: NodeIndex,
    Ghost(w): Ghost<Walk>,
    Ghost(p): Ghost<Option<NodeIndex>>,
    Ghost(fuel): Ghost<nat>,
)
    requires
        graph.wf(),
        graph.contains_node(v),
        old(visited)@ == w.0,
        old(entered)@ == w.1,
        old(left)@ == w.2,
        w.0.len() == graph.n(),
        unseen(w.0) < fuel,
        unvisited(w, v),
    ensures
        final(visited)@ == search(graph, dir, w, v, p, fuel).0,
        final(entered)@ == search(graph, dir, w, v, p, fuel).1,
        final(left)@ == search(graph, dir, w, v, p, fuel).2,
        final(visited)@.len() == old(visited)@.len(),
        forall|i: int| 0 <= i < old(visited)@.len() && #[trigger] old(visited)@[i] ==> final(visited)@[i],
        unseen(final(visited)@) < unseen(old(visited)@),
    decreases fuel,
{
    let ghost f = (fuel - 1) as nat;
    let ghost w1 = enter(w, v, p);
    let ghost target = search_from(graph, dir, w1, v, 0, f);
    visited.set(v.node_index, true);
    entered.push(v);
    proof {
        lemma_unseen_set(w.0, v.node_index as int);
    }
    let ghost mut cur = w1;
    let outs: Vec<Edge> = if dir == Dir::In {
        Vec::new()
    } else {
        graph.out_edges(v)
    };
    let ins: Vec<Edge> = if dir == Dir::Out {
        Vec::new()
    } else {
        graph.in_edges(v)
    };
    proof {
        assert(outs@ =~= outs_of(graph, dir, v));
        assert(ins@ =~= ins_of(graph, dir, v));
    }
    let ghost no = outs@.len() as int;
    let mut j: usize = 0;
    while j < outs.len()
        invariant
            graph.wf(),
            graph.contains_node(v),
            outs@ == outs_of(graph, dir, v),
            ins@ == ins_of(graph, dir, v),
            no == outs@.len(),
            visited@ == cur.0,
            entered@ == cur.1,
            left@ == cur.2,
            cur.0.len() == graph.n(),
            w.0.len() == graph.n(),
            unseen(cur.0) < f,
            forall|i: int| 0 <= i < w.0.len() && #[trigger] w.0[i] ==> cur.0[i],
            cur.0[v.node_index as int],
            f + 1 == fuel,
            j <= outs@.len(),
            search_from(graph, dir, cur, v, j as int, f) == target,
        decreases outs@.len() - j,
    {
        let x = outs[j].target;
        proof {
            lemma_step_node(graph, dir, v, j as int);
        }
        if !visited[x.node_index] {
            search_exec(graph, dir, visited, entered, left, x, Ghost(cur), Ghost(Some(v)), Ghost(f));
            proof {
                let prev = cur;
                cur = search(graph, dir, cur, x, Some(v), f);
                assert forall|i: int| 0 <= i < w.0.len() && #[trigger] w.0[i] implies cur.0[i] by {
                    assert(prev.0[i]);
                }
            }
        }
        j += 1;
    }
    let mut j: usize = 0;
    while j < ins.len()
        invariant
            graph.wf(),
            graph.contains_node(v),
            outs@ == outs_of(graph, dir, v),
            ins@ == ins_of(graph, dir, v),
            no == outs@.len(),
            visited@ == cur.0,
            entered@ == cur.1,
            left@ == cur.2,
            cur.0.len() == graph.n(),
            w.0.len() == graph.n(),
            unseen(cur.0) < f,
            forall|i: int| 0 <= i < w.0.len() && #[trigger] w.0[i] ==> cur.0[i],
            cur.0[v.node_index as int],
            f + 1 == fuel,
            j <= ins@.len(),
            search_from(graph, dir, cur, v, no + j, f) == target,
        decreases ins@.len() - j,
    {
        let x = ins[j].source;
        proof {
            lemma_step_node(graph, dir, v, no + j);
        }
        if !visited[x.node_index] {
            search_exec(graph, dir, visited, entered, left, x, Ghost(cur), Ghost(Some(v)), Ghost(f));
            proof {
                let prev = cur;
                cur = search(graph, dir, cur, x, Some(v), f);
                assert forall|i: int| 0 <= i < w.0.len() && #[trigger] w.0[i] implies cur.0[i] by {
                    assert(prev.0[i]);
                }
            }
        }
        j += 1;
    }
    left.push(v);
    proof {
        lemma_unseen_mono(w1.0, cur.0);
    }
}

/// The nodes the search along `dir` from `v` enters, in order.
pub fn reached(graph: &Graph, dir: Dir, v: NodeIndex) -> (r: Vec<NodeIndex>)
    requires
        graph.wf(),
        graph.contains_node(v),
    ensures
        r@ == reached_from(graph, dir, v),
{
    let n = graph.node_count();
    let mut visited: Vec<bool> = vec![false; n];
    let mut entered: Vec<NodeIndex> = Vec::new();
    let mut left: Vec<NodeIndex> = Vec::new();
    let ghost w = fresh_walk(graph.n());
    proof {
        assert(visited@ =~= w.0);
        assert(entered@ =~= w.1);
        assert(left@ =~= w.2);
        lemma_unseen_le(w.0);
    }
    search_exec(graph, dir, &mut visited, &mut entered, &mut left, v, Ghost(w), Ghost(None), Ghost((graph.n() + 1) as nat));
    entered
}

} // verus!
