//! Other orders of the nodes a layer graph reaches from its root: after
//! their predecessors, or by degree or edge weight.
use vstd::prelude::*;
use crate::graph::Graph;
use crate::order::init_order::unseen;
use crate::order::layer_sort::{degree_key, layer_keys, sort_layer, sorted_by_key, weight_key};
use crate::rank::tree_walk::{Walk, fresh_walk, unvisited, lemma_unseen_le};
use crate::search::{Dir, reached, reached_from, search, search_exec};
use crate::types::NodeIndex;

verus! {

/// The nodes the search along in-edges from `root` leaves, in order: each
/// after the predecessors it reaches.
pub open spec fn predecessor_postorder(g: &Graph, root: NodeIndex) -> Seq<NodeIndex> {
    search(g, Dir::In, fresh_walk(g.n()), root, None, g.n() + 1).2
}

/// Unless `node` was visited, searches from it along in-edges and appends
/// each node it reaches after the predecessors it reaches.
fn topological_sort_dfs(graph: &Graph, node: NodeIndex, visited: &mut Vec<bool>, result: &mut Vec<NodeIndex>, Ghost(w): Ghost<Walk>)
    requires
        graph.wf(),
        graph.contains_node(node),
        old(visited)@ == w.0,
        old(result)@ == w.2,
        w.0.len() == graph.n(),
    ensures
        final(visited)@ == search(graph, Dir::In, w, node, None, graph.n() + 1).0,
        final(result)@ == search(graph, Dir::In, w, node, None, graph.n() + 1).2,
{
    if visited[node.node_index] {
        return;
    }
    let mut entered: Vec<NodeIndex> = Vec::new();
    proof {
        lemma_unseen_le(w.0);
    }
    let ghost w2 = (w.0, entered@, w.2, w.3, w.4, w.5);
    search_exec(graph, Dir::In, visited, &mut entered, result, node, Ghost(w2), Ghost(None), Ghost((graph.n() + 1) as nat));
    proof {
        crate::rank::components::lemma_search_parts(graph, Dir::In, w, w2, node, None, (graph.n() + 1) as nat);
    }
}

/// The nodes reached from `root` along in-edges, each after the
/// predecessors it reaches; empty when the search from `root` along the
/// edges closes a cycle.
pub fn sort_subgraph_topological(graph: &Graph, root: NodeIndex) -> (r: Vec<NodeIndex>)
    requires
        graph.wf(),
        graph.contains_node(root),
    ensures
        r@ == predecessor_postorder(graph, root) || (r@.len() == 0 && !crate::acyclic::is_dag(graph)),
{
    if crate::acyclic::cycle_reached_from(graph, root) {
        return Vec::new();
    }
    let n = graph.node_count();
    let mut visited: Vec<bool> = vec![false; n];
    let mut result: Vec<NodeIndex> = Vec::new();
    let ghost w = fresh_walk(graph.n());
    proof {
        assert(visited@ =~= w.0);
        assert(result@ =~= w.2);
    }
    topological_sort_dfs(graph, root, &mut visited, &mut result, Ghost(w));
    result
}

/// The nodes reached from `root` along edges in either direction, in the
/// order the search enters them, sorted stably by degree, largest first.
pub fn sort_subgraph_by_degree(graph: &Graph, root: NodeIndex) -> (r: Vec<NodeIndex>)
    requires
        graph.wf(),
        graph.contains_node(root),
    ensures
        r@ == sorted_by_key(reached_from(graph, Dir::Both, root), degree_key(graph)),
{
    let nodes = reached(graph, Dir::Both, root);
    let keys = layer_keys(graph, &nodes, 0);
    proof {
        assert(keys@ =~= nodes@.map_values(|v: NodeIndex| degree_key(graph)(v)));
    }
    sort_layer(&nodes, &keys)
}

/// The nodes reached from `root` along edges in either direction, in the
/// order the search enters them, sorted stably by the total weight of
/// their edges, heaviest first.
pub fn sort_subgraph_by_weight(graph: &Graph, root: NodeIndex) -> (r: Vec<NodeIndex>)
    requires
        graph.wf(),
        graph.contains_node(root),
    ensures
        r@ == sorted_by_key(reached_from(graph, Dir::Both, root), weight_key(graph)),
{
    let nodes = reached(graph, Dir::Both, root);
    let keys = layer_keys(graph, &nodes, 1);
    proof {
        assert(keys@ =~= nodes@.map_values(|v: NodeIndex| weight_key(graph)(v)));
    }
    sort_layer(&nodes, &keys)
}

} // verus!
