//! One sweep over the layer graphs: each is sorted from its root and its
//! nodes take their positions in the sorted order.
use vstd::prelude::*;
use crate::graph::Graph;
use crate::order::build_layer_graph::LayerGraph;
use crate::order::constraint_graph::{add_subgraph_constraints, parent_in, parents_ranked, ConstraintGraph};
use crate::order::sort_subgraph::{child_of, distinct, sort_subgraph, subgraph_order};
use crate::types::{NodeIndex, NodeLabel};

verus! {

/// Position `i` holds the first node of `g` without in-edges.
pub open spec fn is_first_source(g: &Graph, i: int) -> bool {
    &&& 0 <= i < g.n()
    &&& g.in_edges_spec(g.node_at(i)).len() == 0
    &&& forall|j: int| 0 <= j < i ==> #[trigger] g.in_edges_spec(g.node_at(j)).len() > 0
}

/// The node a layer graph is sorted from: its first node without in-edges,
/// else its first node.
pub open spec fn layer_root(g: &Graph) -> NodeIndex {
    if exists|i: int| is_first_source(g, i) {
        g.node_at(choose|i: int| is_first_source(g, i))
    } else {
        g.node_at(0)
    }
}

/// The first node without in-edges, or else the first node.
pub fn find_root(graph: &Graph) -> (r: NodeIndex)
    requires
        graph.n() > 0,
    ensures
        r == layer_root(graph),
        graph.contains_node(r),
{
    let nodes = graph.node_indices();
    let mut i: usize = 0;
    while i < nodes.len()
        invariant
            nodes@.len() == graph.n(),
            forall|k: int| 0 <= k < graph.n() ==> #[trigger] nodes@[k] == graph.node_at(k),
            i <= graph.n(),
            forall|j: int| 0 <= j < i ==> #[trigger] graph.in_edges_spec(graph.node_at(j)).len() > 0,
        decreases graph.n() - i,
    {
        let v = nodes[i];
        if graph.predecessors(v).len() == 0 {
            proof {
                assert(is_first_source(graph, i as int));
                let c = choose|c: int| is_first_source(graph, c);
                assert(c == i) by {
                    if c < i {
                        assert(graph.in_edges_spec(graph.node_at(c)).len() > 0);
                    } else if c > i {
                        assert(graph.in_edges_spec(graph.node_at(i as int)).len() > 0);
                    }
                }
            }
            return v;
        }
        i += 1;
    }
    proof {
        assert(!exists|c: int| is_first_source(graph, c)) by {
            if exists|c: int| is_first_source(graph, c) {
                let c = choose|c: int| is_first_source(graph, c);
                assert(graph.in_edges_spec(graph.node_at(c)).len() > 0);
            }
        }
    }
    nodes[0]
}

/// The number of steps from `v` up its parents to a node without one,
/// when the climb stays in `g` and takes at most `fuel` steps.
pub open spec fn depth(g: &Graph, v: NodeIndex, fuel: nat) -> Option<nat>
    decreases fuel,
{
    match parent_in(g, v) {
        None => Some(0),
        Some(p) => if fuel == 0 || p.which_graph != g.id() {
            None
        } else {
            match depth(g, p, (fuel - 1) as nat) {
                Some(x) => Some(x + 1),
                None => None,
            }
        },
    }
}

/// Every node's climb up its parents stays in `g` and ends within as many
/// steps as `g` has nodes.
pub open spec fn chains_end(g: &Graph) -> bool {
    forall|i: int| 0 <= i < g.n() ==> #[trigger] depth(g, g.node_at(i), g.n()) is Some
}

/// A climb that ends with some fuel ends the same way with more.
proof fn lemma_depth_mono(g: &Graph, v: NodeIndex, f: nat, f2: nat)
    requires
        depth(g, v, f) is Some,
        f <= f2,
    ensures
        depth(g, v, f2) == depth(g, v, f),
    decreases f,
{
    match parent_in(g, v) {
        None => {},
        Some(p) => {
            lemma_depth_mono(g, p, (f - 1) as nat, (f2 - 1) as nat);
        },
    }
}

/// When every climb ends, the depth ranks the parent relation.
proof fn lemma_chains_ranked(g: &Graph)
    requires
        g.wf(),
        chains_end(g),
    ensures
        exists|d: spec_fn(NodeIndex) -> nat| parents_ranked(g, d),
{
    let n = g.n();
    let d = |v: NodeIndex|
        match depth(g, v, n) {
            Some(x) => x,
            None => 0nat,
        };
    assert forall|v: NodeIndex| #[trigger] parent_in(g, v) is Some implies (parent_in(g, v)->0).which_graph == g.id() && d(
        parent_in(g, v)->0,
    ) < d(v) by {
        let i = v.node_index as int;
        assert(g.node_at(i) == v);
        assert(depth(g, g.node_at(i), n) is Some);
        let p = parent_in(g, v)->0;
        lemma_depth_mono(g, p, (n - 1) as nat, n);
    }
    assert(parents_ranked(g, d));
}

/// Whether every node's climb up its parents stays in `graph` and ends.
pub fn parents_within(graph: &Graph) -> (r: bool)
    requires
        graph.wf(),
    ensures
        r == chains_end(graph),
{
    let n = graph.node_count();
    let nodes = graph.node_indices();
    let mut i: usize = 0;
    while i < nodes.len()
        invariant
            graph.wf(),
            n == graph.n(),
            nodes@.len() == n,
            forall|k: int| 0 <= k < n ==> #[trigger] nodes@[k] == graph.node_at(k),
            i <= n,
            forall|j: int| 0 <= j < i ==> #[trigger] depth(graph, graph.node_at(j), graph.n()) is Some,
        decreases n - i,
    {
        let v = nodes[i];
        let mut c = v;
        let mut steps: usize = 0;
        loop
            invariant_except_break
                graph.wf(),
                n == graph.n(),
                c.which_graph == graph.id(),
                v == graph.node_at(i as int),
                steps <= n,
                (depth(graph, v, n as nat) is Some) == (depth(graph, c, (n - steps) as nat) is Some),
            ensures
                depth(graph, v, n as nat) is Some,
            decreases n - steps,
        {
            match graph.parent(c) {
                None => {
                    break;
                },
                Some(p) => {
                    if p.which_graph != graph.graph_id() || steps >= n {
                        proof {
                            assert(depth(graph, c, (n - steps) as nat) is None);
                            assert(graph.node_at(i as int) == v);
                            assert(!(depth(graph, graph.node_at(i as int), graph.n()) is Some));
                        }
                        return false;
                    }
                    steps += 1;
                    c = p;
                },
            }
        }
        i += 1;
    }
    true
}

/// `gb` is `ga` with the order of each node of `vs` set to its position
/// in `vs`.
pub open spec fn ordered_by(ga: &Graph, gb: &Graph, vs: Seq<NodeIndex>) -> bool {
    &&& gb.entries() == ga.entries()
    &&& gb.id() == ga.id()
    &&& gb.config_spec() == ga.config_spec()
    &&& gb.dummy_heads() == ga.dummy_heads()
    &&& gb.n() == ga.n()
    &&& forall|i: int| 0 <= i < ga.n() ==> #[trigger] gb.node_seq()[i] == if vs.contains(ga.node_at(i)) {
        NodeLabel { order: Some(vs.index_of(ga.node_at(i)) as usize), ..ga.node_seq()[i] }
    } else {
        ga.node_seq()[i]
    }
}

/// `gb` is the layer graph `ga` after its sweep: unchanged when empty,
/// else ordered by the depth-first order of the children of its root with
/// the given bias.
pub open spec fn swept(ga: &Graph, gb: &Graph, bias_right: bool) -> bool {
    if ga.n() == 0 {
        gb == ga
    } else {
        ordered_by(ga, gb, subgraph_order(ga, layer_root(ga), bias_right))
    }
}

/// Sorts every non-empty layer graph from its root, gives each sorted
/// node its position as order, and records the order of its subgraphs in
/// a constraint graph of the sweep. Returns `false` where a node's climb
/// up its parents leaves its layer graph or does not end; the layer graphs
/// before it are swept.
pub fn sweep_layer_graphs(layer_graphs: &mut Vec<LayerGraph>, bias_right: bool) -> (ok: bool)
    requires
        forall|k: int| 0 <= k < old(layer_graphs)@.len() ==> (#[trigger] old(layer_graphs)@[k]).graph.wf(),
    ensures
        final(layer_graphs)@.len() == old(layer_graphs)@.len(),
        forall|k: int| 0 <= k < final(layer_graphs)@.len() ==> (#[trigger] final(layer_graphs)@[k]).graph.wf(),
        forall|k: int| 0 <= k < final(layer_graphs)@.len() ==> (#[trigger] final(layer_graphs)@[k]).node_mapping
            == old(layer_graphs)@[k].node_mapping,
        ok ==> forall|k: int| 0 <= k < final(layer_graphs)@.len() ==> swept(
            &old(layer_graphs)@[k].graph,
            &(#[trigger] final(layer_graphs)@[k]).graph,
            bias_right,
        ),
        ok == forall|k: int| 0 <= k < old(layer_graphs)@.len() ==> chains_end(&(#[trigger] old(layer_graphs)@[k]).graph),
{
    let mut constraint_graph = ConstraintGraph::new();
    let ghost old_lgs = layer_graphs@;
    let mut k: usize = 0;
    while k < layer_graphs.len()
        invariant
            constraint_graph.wf(),
            layer_graphs@.len() == old_lgs.len(),
            old_lgs == old(layer_graphs)@,
            k <= old_lgs.len(),
            forall|j: int| 0 <= j < old_lgs.len() ==> (#[trigger] old_lgs[j]).graph.wf(),
            forall|j: int| 0 <= j < layer_graphs@.len() ==> (#[trigger] layer_graphs@[j]).graph.wf(),
            forall|j: int| 0 <= j < layer_graphs@.len() ==> (#[trigger] layer_graphs@[j]).node_mapping
                == old_lgs[j].node_mapping,
            forall|j: int| 0 <= j < k ==> swept(&old_lgs[j].graph, &(#[trigger] layer_graphs@[j]).graph, bias_right),
            forall|j: int| k <= j < old_lgs.len() ==> #[trigger] layer_graphs@[j] == old_lgs[j],
            forall|j: int| 0 <= j < k ==> chains_end(&(#[trigger] old_lgs[j]).graph),
        decreases old_lgs.len() - k,
    {
        if layer_graphs[k].graph.node_count() == 0 {
            k += 1;
            continue;
        }
        let ghost before = layer_graphs@;
        let mut lg = layer_graphs.remove(k);
        proof {
            assert(lg == old_lgs[k as int]);
        }
        let ghost g0 = lg.graph;
        let root = find_root(&lg.graph);
        let vs = sort_subgraph(&lg.graph, root, &constraint_graph, bias_right);
        let mut i: usize = 0;
        while i < vs.len()
            invariant
                g0.wf(),
                distinct(vs@),
                forall|q: int| 0 <= q < vs@.len() ==> child_of(&g0, root, #[trigger] vs@[q]),
                vs@ == subgraph_order(&g0, root, bias_right),
                root == layer_root(&g0),
                i <= vs@.len(),
                ordered_by(&g0, &lg.graph, vs@.take(i as int)),
                lg.graph.wf(),
                lg.node_mapping == old_lgs[k as int].node_mapping,
            decreases vs@.len() - i,
        {
            let v = vs[i];
            let ghost gb = lg.graph;
            proof {
                assert(g0.contains_node(vs@[i as int]));
            }
            match lg.graph.node_label_mut(v) {
                Some(l) => {
                    l.order = Some(i);
                },
                None => {},
            }
            proof {
                crate::graph::lemma_wf_same_shape(&gb, &lg.graph);
                let pre = vs@.take(i as int);
                let post = vs@.take(i + 1);
                assert(post == pre.push(v));
                assert forall|x: int| 0 <= x < g0.n() implies #[trigger] lg.graph.node_seq()[x] == if post.contains(g0.node_at(x)) {
                    NodeLabel { order: Some(post.index_of(g0.node_at(x)) as usize), ..g0.node_seq()[x] }
                } else {
                    g0.node_seq()[x]
                } by {
                    if g0.node_at(x) == v {
                        assert(!pre.contains(v)) by {
                            if pre.contains(v) {
                                let a = pre.index_of(v);
                                assert(vs@[a] == vs@[i as int]);
                            }
                        }
                        assert(post[i as int] == v);
                        assert(post.index_of(v) == i) by {
                            assert(post.contains(v));
                            let q = post.index_of(v);
                            if q != i {
                                assert(vs@[q] == vs@[i as int]);
                            }
                        }
                        assert(v.node_index == x);
                    } else {
                        assert(post.contains(g0.node_at(x)) == pre.contains(g0.node_at(x))) by {
                            if post.contains(g0.node_at(x)) {
                                let q = post.index_of(g0.node_at(x));
                                assert(pre[q] == post[q]);
                            }
                            if pre.contains(g0.node_at(x)) {
                                let q = pre.index_of(g0.node_at(x));
                                assert(post[q] == pre[q]);
                            }
                        }
                        if pre.contains(g0.node_at(x)) {
                            assert(post.index_of(g0.node_at(x)) == pre.index_of(g0.node_at(x))) by {
                                let q = pre.index_of(g0.node_at(x));
                                let q2 = post.index_of(g0.node_at(x));
                                assert(post[q] == pre[q]);
                                if q2 < q {
                                    assert(pre[q2] == post[q2]);
                                }
                            }
                        }
                        assert(v.node_index != x) by {
                            assert(g0.contains_node(v));
                        }
                    }
                }
            }
            i += 1;
        }
        proof {
            assert(vs@.take(vs@.len() as int) =~= vs@);
            assert(swept(&g0, &lg.graph, bias_right));
        }
        if !parents_within(&lg.graph) {
            let ghost lgk = lg;
            layer_graphs.insert(k, lg);
            proof {
                assert(layer_graphs@ =~= before.update(k as int, lgk));
                lemma_chains_end_orders(&g0, &lgk.graph);
            }
            return false;
        }
        proof {
            lemma_chains_end_orders(&g0, &lg.graph);
            lemma_chains_ranked(&lg.graph);
        }
        add_subgraph_constraints(&lg.graph, &mut constraint_graph, &vs);
        let ghost lgk = lg;
        layer_graphs.insert(k, lg);
        proof {
            assert(layer_graphs@ =~= before.update(k as int, lgk));
        }
        k += 1;
    }
    true
}

/// Changing the orders of nodes changes none of their climbs.
proof fn lemma_chains_end_orders(ga: &Graph, gb: &Graph)
    requires
        gb.n() == ga.n(),
        gb.id() == ga.id(),
        forall|i: int| 0 <= i < ga.n() ==> (#[trigger] gb.node_seq()[i]).parent == ga.node_seq()[i].parent,
    ensures
        chains_end(ga) == chains_end(gb),
{
    assert forall|i: int| 0 <= i < ga.n() implies #[trigger] depth(ga, ga.node_at(i), ga.n()) == depth(gb, gb.node_at(i), gb.n()) by {
        lemma_depth_same(ga, gb, ga.node_at(i), ga.n());
    }
    if chains_end(ga) {
        assert forall|i: int| 0 <= i < gb.n() implies #[trigger] depth(gb, gb.node_at(i), gb.n()) is Some by {
            assert(depth(ga, ga.node_at(i), ga.n()) is Some);
        }
    }
    if chains_end(gb) {
        assert forall|i: int| 0 <= i < ga.n() implies #[trigger] depth(ga, ga.node_at(i), ga.n()) is Some by {
            assert(depth(gb, gb.node_at(i), gb.n()) is Some);
        }
    }
}

proof fn lemma_depth_same(ga: &Graph, gb: &Graph, v: NodeIndex, f: nat)
    requires
        gb.n() == ga.n(),
        gb.id() == ga.id(),
        forall|i: int| 0 <= i < ga.n() ==> (#[trigger] gb.node_seq()[i]).parent == ga.node_seq()[i].parent,
    ensures
        depth(ga, v, f) == depth(gb, v, f),
    decreases f,
{
    assert(parent_in(ga, v) == parent_in(gb, v)) by {
        if ga.contains_node(v) {
            assert(gb.node_seq()[v.node_index as int].parent == ga.node_seq()[v.node_index as int].parent);
        }
    }
    if f > 0 {
        match parent_in(ga, v) {
            Some(p) => {
                lemma_depth_same(ga, gb, p, (f - 1) as nat);
            },
            None => {},
        }
    }
}

} // verus!
