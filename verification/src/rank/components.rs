//! Strongly connected components by two depth-first searches: one along
//! the edges that numbers the nodes by finishing time, one along the
//! reversed edges from the nodes in reverse finishing order.
use vstd::prelude::*;
use crate::graph::Graph;
use crate::index_map::{has_key, key_pos, keys_unique};
use crate::order::init_order::unseen;
use crate::rank::tree_walk::{Walk, fresh_walk, unvisited, lemma_unseen_le};
use crate::search::{Dir, search, search_all, search_exec, restart};
use crate::types::{copy_edge_label, copy_label, same_attrs, Edge, EdgeLabel, NodeIndex};

verus! {

/// `rev` holds the nodes of `g` and each of its edges turned round, in
/// the same order and with the same label.
pub open spec fn is_reversal(g: &Graph, rev: &Graph) -> bool {
    &&& rev.wf()
    &&& rev.id() == g.id()
    &&& rev.n() == g.n()
    &&& forall|i: int| 0 <= i < g.n() ==> same_attrs(#[trigger] rev.node_seq()[i], g.node_seq()[i])
    &&& rev.entries() == g.entries().map_values(
        |p: (Edge, EdgeLabel)| (Edge { source: p.0.target, target: p.0.source }, p.1),
    )
}

/// The graph `graph` with every edge turned round. It keeps the id of
/// `graph`, so the node indices of `graph` name the same nodes in it.
pub fn reverse_graph(graph: &Graph) -> (r: Graph)
    requires
        graph.wf(),
    ensures
        is_reversal(graph, &r),
{
    let mut reversed = Graph::new(graph.graph_id());
    let nodes = graph.node_indices();
    let mut i: usize = 0;
    while i < nodes.len()
        invariant
            graph.wf(),
            nodes@.len() == graph.n(),
            forall|k: int| 0 <= k < graph.n() ==> #[trigger] nodes@[k] == graph.node_at(k),
            i <= graph.n(),
            reversed.wf(),
            reversed.id() == graph.id(),
            reversed.n() == i,
            reversed.entries().len() == 0,
            forall|k: int| 0 <= k < i ==> same_attrs(#[trigger] reversed.node_seq()[k], graph.node_seq()[k]),
        decreases graph.n() - i,
    {
        let l = graph.node_label(nodes[i]).unwrap();
        reversed.add_node(copy_label(l));
        i += 1;
    }
    let edges = graph.edges();
    let ghost target = graph.entries().map_values(
        |p: (Edge, EdgeLabel)| (Edge { source: p.0.target, target: p.0.source }, p.1),
    );
    let mut j: usize = 0;
    proof {
        assert(reversed.entries() =~= target.take(0));
    }
    while j < edges.len()
        invariant
            graph.wf(),
            edges@ == graph.edge_seq(),
            j <= edges@.len(),
            target == graph.entries().map_values(
                |p: (Edge, EdgeLabel)| (Edge { source: p.0.target, target: p.0.source }, p.1),
            ),
            reversed.wf(),
            reversed.id() == graph.id(),
            reversed.n() == graph.n(),
            forall|k: int| 0 <= k < graph.n() ==> same_attrs(#[trigger] reversed.node_seq()[k], graph.node_seq()[k]),
            reversed.entries() == target.take(j as int),
        decreases edges@.len() - j,
    {
        let e = edges[j];
        proof {
            assert(graph.entries()[j as int].0 == e);
            assert(graph.contains_node(graph.entries()[j as int].0.source));
            assert(graph.contains_node(graph.entries()[j as int].0.target));
            assert(graph.has_edge_spec(e));
            assert(!reversed.has_edge_spec(Edge { source: e.target, target: e.source })) by {
                if reversed.has_edge_spec(Edge { source: e.target, target: e.source }) {
                    let q = choose|q: int| 0 <= q < reversed.entries().len() && #[trigger] reversed.entries()[q].0 == Edge { source: e.target, target: e.source };
                    assert(target[q] == reversed.entries()[q]);
                    assert(graph.entries()[q].0 == e);
                    assert(graph.entries()[q].0 == graph.entries()[j as int].0);
                }
            }
        }
        let l = copy_edge_label(graph.edge_label(&e).unwrap());
        reversed.add_edge(Edge::new(e.target, e.source), l);
        proof {
            assert(target.take(j + 1) =~= target.take(j as int).push(target[j as int]));
            assert(graph.entries()[j as int].1 == graph.edge_label_spec(e));
        }
        j += 1;
    }
    proof {
        assert(target.take(graph.entries().len() as int) =~= target);
    }
    reversed
}

/// The nodes in the order the searches along out-edges, started from every
/// node in turn that no earlier search reached, finish them.
pub open spec fn finish_order(g: &Graph) -> Seq<NodeIndex> {
    search_all(g, Dir::Out, fresh_walk(g.n()), 0).2
}

/// The components found by searching `rev` from `stack[k - 1]` down to
/// `stack[0]`, skipping nodes already reached (`vis`): each search along
/// out-edges of `rev` gives the nodes it enters.
pub open spec fn components_from(rev: &Graph, stack: Seq<NodeIndex>, vis: Seq<bool>, k: int) -> Seq<Seq<NodeIndex>>
    decreases k,
{
    if k <= 0 {
        Seq::empty()
    } else {
        let v = stack[k - 1];
        let w = restart(fresh_walk(rev.n()), vis);
        if v.which_graph == rev.id() && unvisited(w, v) {
            let w1 = search(rev, Dir::Out, w, v, None, rev.n() + 1);
            if w1.1.len() > 0 {
                seq![w1.1] + components_from(rev, stack, w1.0, k - 1)
            } else {
                components_from(rev, stack, w1.0, k - 1)
            }
        } else {
            components_from(rev, stack, vis, k - 1)
        }
    }
}

/// Searches along out-edges from the unvisited node `v`, appending each
/// node to `stack` when its search finishes.
fn dfs1(graph: &Graph, node_id: NodeIndex, visited: &mut Vec<bool>, stack: &mut Vec<NodeIndex>, Ghost(w): Ghost<Walk>)
    requires
        graph.wf(),
        graph.contains_node(node_id),
        old(visited)@ == w.0,
        old(stack)@ == w.2,
        w.0.len() == graph.n(),
        unvisited(w, node_id),
    ensures
        final(visited)@ == search(graph, Dir::Out, w, node_id, None, graph.n() + 1).0,
        final(stack)@ == search(graph, Dir::Out, w, node_id, None, graph.n() + 1).2,
        final(visited)@.len() == old(visited)@.len(),
{
    let mut entered: Vec<NodeIndex> = Vec::new();
    proof {
        lemma_unseen_le(w.0);
    }
    let ghost w2 = (w.0, entered@, w.2, w.3, w.4, w.5);
    search_exec(graph, Dir::Out, visited, &mut entered, stack, node_id, Ghost(w2), Ghost(None), Ghost((graph.n() + 1) as nat));
    proof {
        lemma_search_parts(graph, Dir::Out, w, w2, node_id, None, (graph.n() + 1) as nat);
    }
}

/// Searches along out-edges of `graph` from the unvisited node `v`,
/// appending each node to `component` when it is entered.
fn dfs2(graph: &Graph, node_id: NodeIndex, visited: &mut Vec<bool>, component: &mut Vec<NodeIndex>, Ghost(w): Ghost<Walk>)
    requires
        graph.wf(),
        graph.contains_node(node_id),
        old(visited)@ == w.0,
        old(component)@ == w.1,
        w.0.len() == graph.n(),
        unvisited(w, node_id),
    ensures
        final(visited)@ == search(graph, Dir::Out, w, node_id, None, graph.n() + 1).0,
        final(component)@ == search(graph, Dir::Out, w, node_id, None, graph.n() + 1).1,
        final(visited)@.len() == old(visited)@.len(),
{
    let mut finished: Vec<NodeIndex> = Vec::new();
    proof {
        lemma_unseen_le(w.0);
    }
    let ghost w2 = (w.0, w.1, finished@, w.3, w.4, w.5);
    search_exec(graph, Dir::Out, visited, component, &mut finished, node_id, Ghost(w2), Ghost(None), Ghost((graph.n() + 1) as nat));
    proof {
        lemma_search_parts(graph, Dir::Out, w, w2, node_id, None, (graph.n() + 1) as nat);
    }
}

/// A search's marks, entered and left nodes depend on those it starts
/// with alone.
pub proof fn lemma_search_parts(g: &Graph, dir: Dir, w: Walk, w2: Walk, v: NodeIndex, p: Option<NodeIndex>, fuel: nat)
    requires
        w.0 == w2.0,
    ensures
        search(g, dir, w, v, p, fuel).0 == search(g, dir, w2, v, p, fuel).0,
        w.1 == w2.1 ==> search(g, dir, w, v, p, fuel).1 == search(g, dir, w2, v, p, fuel).1,
        w.2 == w2.2 ==> search(g, dir, w, v, p, fuel).2 == search(g, dir, w2, v, p, fuel).2,
    decreases fuel, 0int, 0int,
{
    if fuel > 0 && unvisited(w, v) {
        let e1 = crate::rank::tree_walk::enter(w, v, p);
        let e2 = crate::rank::tree_walk::enter(w2, v, p);
        lemma_search_from_parts(g, dir, e1, e2, v, 0, (fuel - 1) as nat);
    }
}

proof fn lemma_search_from_parts(g: &Graph, dir: Dir, w: Walk, w2: Walk, v: NodeIndex, k: int, fuel: nat)
    requires
        w.0 == w2.0,
    ensures
        crate::search::search_from(g, dir, w, v, k, fuel).0 == crate::search::search_from(g, dir, w2, v, k, fuel).0,
        w.1 == w2.1 ==> crate::search::search_from(g, dir, w, v, k, fuel).1 == crate::search::search_from(g, dir, w2, v, k, fuel).1,
        w.2 == w2.2 ==> crate::search::search_from(g, dir, w, v, k, fuel).2 == crate::search::search_from(g, dir, w2, v, k, fuel).2,
    decreases fuel, 1int, crate::search::step_count(g, dir, v) - k,
{
    if 0 <= k < crate::search::step_count(g, dir, v) {
        let x = crate::search::step_to(g, dir, v, k);
        if unvisited(w, x) {
            lemma_search_parts(g, dir, w, w2, x, Some(v), fuel);
            let a = search(g, dir, w, x, Some(v), fuel);
            let b = search(g, dir, w2, x, Some(v), fuel);
            lemma_search_from_parts(g, dir, a, b, v, k + 1, fuel);
        } else {
            lemma_search_from_parts(g, dir, w, w2, v, k + 1, fuel);
        }
    }
}

/// The strongly connected components: the nodes are numbered by when the
/// searches along the edges, started from every node in turn, finish;
/// then, from the node that finished last down to the first, each node not
/// reached yet starts a search along the reversed edges, and the nodes it
/// enters form a component.
pub fn strongly_connected_components(graph: &Graph) -> (r: Vec<Vec<NodeIndex>>)
    requires
        graph.wf(),
    ensures
        exists|rev: Graph|
            #[trigger] is_reversal(graph, &rev) && r@.map_values(|c: Vec<NodeIndex>| c@) == components_from(
                &rev,
                finish_order(graph),
                fresh_walk(graph.n()).0,
                finish_order(graph).len() as int,
            ),
{
    let n = graph.node_count();
    let mut visited: Vec<bool> = vec![false; n];
    let mut stack: Vec<NodeIndex> = Vec::new();
    let ghost mut cur = fresh_walk(graph.n());
    proof {
        assert(visited@ =~= cur.0);
        assert(stack@ =~= cur.2);
    }
    let nodes = graph.node_indices();
    let mut k: usize = 0;
    while k < nodes.len()
        invariant
            graph.wf(),
            n == graph.n(),
            nodes@.len() == n,
            forall|i: int| 0 <= i < n ==> #[trigger] nodes@[i] == graph.node_at(i),
            k <= n,
            visited@ == cur.0,
            stack@ == cur.2,
            cur.0.len() == n,
            search_all(graph, Dir::Out, cur, k as int) == search_all(graph, Dir::Out, fresh_walk(graph.n()), 0),
        decreases n - k,
    {
        let v = nodes[k];
        if !visited[v.node_index] {
            dfs1(graph, v, &mut visited, &mut stack, Ghost(cur));
        }
        proof {
            cur = search(graph, Dir::Out, cur, v, None, (graph.n() + 1) as nat);
        }
        k += 1;
    }
    let reversed = reverse_graph(graph);
    let ghost order = stack@;
    proof {
        assert(order == finish_order(graph));
    }
    let mut visited: Vec<bool> = vec![false; n];
    proof {
        assert(visited@ =~= fresh_walk(graph.n()).0);
    }
    let mut components: Vec<Vec<NodeIndex>> = Vec::new();
    while stack.len() > 0
        invariant
            is_reversal(graph, &reversed),
            reversed.n() == n,
            stack@ == order.take(stack@.len() as int),
            stack@.len() <= order.len(),
            visited@.len() == n,
            components@.map_values(|c: Vec<NodeIndex>| c@) + components_from(&reversed, order, visited@, stack@.len() as int)
                == components_from(&reversed, order, fresh_walk(graph.n()).0, order.len() as int),
        decreases stack@.len(),
    {
        let ghost k = stack@.len() as int;
        let v = stack.pop().unwrap();
        proof {
            assert(v == order[k - 1]);
            assert(stack@ =~= order.take(k - 1));
        }
        let ghost w = restart(fresh_walk(reversed.n()), visited@);
        if v.which_graph == reversed.graph_id() && v.node_index < n && !visited[v.node_index] {
            let mut component: Vec<NodeIndex> = Vec::new();
            proof {
                assert(component@ =~= w.1);
            }
            dfs2(&reversed, v, &mut visited, &mut component, Ghost(w));
            if component.len() > 0 {
                let ghost before = components@;
                components.push(component);
                proof {
                    assert(components@.map_values(|c: Vec<NodeIndex>| c@) =~= before.map_values(|c: Vec<NodeIndex>| c@).push(
                        components@[components@.len() - 1]@,
                    ));
                    let rest = components_from(&reversed, order, visited@, k - 1);
                    assert(seq![components@[components@.len() - 1]@] + rest =~= seq![components@[components@.len() - 1]@].add(rest));
                    assert(before.map_values(|c: Vec<NodeIndex>| c@).push(components@[components@.len() - 1]@) + rest
                        =~= before.map_values(|c: Vec<NodeIndex>| c@) + (seq![components@[components@.len() - 1]@] + rest));
                }
            }
        }
    }
    proof {
        assert(components_from(&reversed, order, visited@, 0) =~= Seq::<Seq<NodeIndex>>::empty());
        assert(components@.map_values(|c: Vec<NodeIndex>| c@) + Seq::<Seq<NodeIndex>>::empty() =~= components@.map_values(
            |c: Vec<NodeIndex>| c@,
        ));
    }
    components
}

} // verus!
