//! Constraints between subgraphs found while ordering a layer: a subgraph
//! met before another in one sweep must stay before it.
use vstd::prelude::*;
use indexmap::IndexMap;
use crate::graph::Graph;
use crate::index_map::{
    constraint_entries, constraint_map_clear, constraint_map_get, constraint_map_is_empty,
    constraint_map_new, constraint_map_entry, entry_map, has_key, key_pos, keys_unique, lemma_inserted,
    node_map_get, node_map_insert, node_map_new, node_pair_entries, targets_of,
};
use crate::types::NodeIndex;

verus! {

/// For each node, the nodes it must come before.
#[derive(Debug)]
pub struct ConstraintGraph {
    constraints: IndexMap<NodeIndex, Vec<NodeIndex>>,
}

/// `from` must come before `to` in `view`.
pub open spec fn holds_constraint(view: Map<NodeIndex, Seq<NodeIndex>>, from: NodeIndex, to: NodeIndex) -> bool {
    view.dom().contains(from) && view[from].contains(to)
}

/// `view` with `to` appended to the targets of `from`, unless it is among
/// them already.
pub open spec fn with_constraint(view: Map<NodeIndex, Seq<NodeIndex>>, from: NodeIndex, to: NodeIndex) -> Map<NodeIndex, Seq<NodeIndex>> {
    if holds_constraint(view, from, to) {
        view
    } else {
        view.insert(from, (if view.dom().contains(from) { view[from] } else { Seq::empty() }).push(to))
    }
}

impl ConstraintGraph {
    /// The constraints by source node.
    pub closed spec fn view_entries(&self) -> Seq<(NodeIndex, Seq<NodeIndex>)> {
        constraint_entries(self.constraints)
    }

    /// The constraints as a map from node to targets.
    pub open spec fn constraint_view(&self) -> Map<NodeIndex, Seq<NodeIndex>> {
        entry_map(self.view_entries())
    }

    /// No node has two entries.
    pub open spec fn wf(&self) -> bool {
        keys_unique(self.view_entries())
    }

    /// No constraints.
    pub fn new() -> (r: Self)
        ensures
            r.wf(),
            r.constraint_view() == Map::<NodeIndex, Seq<NodeIndex>>::empty(),
    {
        let r = ConstraintGraph { constraints: constraint_map_new() };
        proof {
            assert(r.constraint_view() =~= Map::<NodeIndex, Seq<NodeIndex>>::empty());
        }
        r
    }

    /// Records that `from` must come before `to`; a constraint recorded
    /// already is not recorded twice.
    pub fn add_constraint(&mut self, from: NodeIndex, to: NodeIndex)
        requires
            old(self).wf(),
        ensures
            final(self).wf(),
            final(self).constraint_view() == with_constraint(old(self).constraint_view(), from, to),
    {
        if self.has_constraint(from, to) {
            return;
        }
        proof {
            let s = self.view_entries();
            lemma_inserted(s, from, targets_of(s, from).push(to));
        }
        let targets = constraint_map_entry(&mut self.constraints, from);
        targets.push(to);
    }

    /// The nodes `node` must come before, if any constraint starts at it.
    pub fn get_constraints(&self, node: NodeIndex) -> (r: Option<&Vec<NodeIndex>>)
        ensures
            r is Some <==> self.constraint_view().dom().contains(node),
            r matches Some(v) ==> v@ == self.constraint_view()[node],
    {
        constraint_map_get(&self.constraints, &node)
    }

    /// Whether `from` must come before `to`.
    pub fn has_constraint(&self, from: NodeIndex, to: NodeIndex) -> (r: bool)
        ensures
            r == (self.constraint_view().dom().contains(from) && self.constraint_view()[from].contains(to)),
    {
        match constraint_map_get(&self.constraints, &from) {
            Some(targets) => {
                let mut i: usize = 0;
                while i < targets.len()
                    invariant
                        i <= targets@.len(),
                        self.constraint_view().dom().contains(from),
                        targets@ == self.constraint_view()[from],
                        forall|k: int| 0 <= k < i ==> targets@[k] != to,
                    decreases targets@.len() - i,
                {
                    if targets[i] == to {
                        proof {
                            assert(targets@[i as int] == to);
                        }
                        return true;
                    }
                    i += 1;
                }
                false
            },
            None => false,
        }
    }

    /// All constraints, by source node in the order the sources were first
    /// constrained.
    pub fn get_all_constraints(&self) -> (r: &IndexMap<NodeIndex, Vec<NodeIndex>>)
        ensures
            constraint_entries(*r) == self.view_entries(),
    {
        &self.constraints
    }

    /// Removes every constraint.
    pub fn clear(&mut self)
        ensures
            final(self).wf(),
            final(self).constraint_view() == Map::<NodeIndex, Seq<NodeIndex>>::empty(),
    {
        constraint_map_clear(&mut self.constraints);
        proof {
            assert(self.constraint_view() =~= Map::<NodeIndex, Seq<NodeIndex>>::empty());
        }
    }

    /// Whether there is no constraint.
    pub fn is_empty(&self) -> (r: bool)
        requires
            self.wf(),
        ensures
            r == (self.constraint_view() == Map::<NodeIndex, Seq<NodeIndex>>::empty()),
    {
        let r = constraint_map_is_empty(&self.constraints);
        proof {
            let s = self.view_entries();
            if !r {
                assert(has_key(s, s[0].0));
                assert(self.constraint_view().dom().contains(s[0].0));
            } else {
                assert(self.constraint_view() =~= Map::<NodeIndex, Seq<NodeIndex>>::empty());
            }
        }
        r
    }
}

/// The parent of `v` in `g` (none for an index that is not a node).
pub open spec fn parent_in(g: &Graph, v: NodeIndex) -> Option<NodeIndex> {
    if g.contains_node(v) {
        g.label_of(v).parent
    } else {
        None
    }
}

/// The parent relation of `g` is well founded: `d` drops from every node
/// to its parent, and every parent carries the id of `g`.
pub open spec fn parents_ranked(g: &Graph, d: spec_fn(NodeIndex) -> nat) -> bool {
    forall|v: NodeIndex| #[trigger] parent_in(g, v) is Some ==> (parent_in(g, v)->0).which_graph == g.id() && d(
        parent_in(g, v)->0,
    ) < d(v)
}

/// The state of the scan: the constraints, the last child seen under each
/// parent, and the last top-level subgraph seen.
pub type ScanState = (Map<NodeIndex, Seq<NodeIndex>>, Map<NodeIndex, NodeIndex>, Option<NodeIndex>);

/// Climbs from the subgraph `c` towards the root: `c` becomes the last
/// child seen under its parent; when another child was seen there before,
/// that one must precede `c` and the climb stops, otherwise it goes on
/// from the parent.
pub open spec fn climb(g: &Graph, d: spec_fn(NodeIndex) -> nat, st: ScanState, c: NodeIndex) -> ScanState
    decreases d(c),
{
    let p = parent_in(g, c);
    let prev_child = match p {
        Some(pn) => if st.1.dom().contains(pn) {
            Some(st.1[pn])
        } else {
            None
        },
        None => st.2,
    };
    let st1: ScanState = match p {
        Some(pn) => (st.0, st.1.insert(pn, c), st.2),
        None => (st.0, st.1, Some(c)),
    };
    if prev_child is Some && prev_child->0 != c {
        (with_constraint(st1.0, prev_child->0, c), st1.1, st1.2)
    } else {
        match p {
            Some(pn) => if d(pn) < d(c) {
                climb(g, d, st1, pn)
            } else {
                st1
            },
            None => st1,
        }
    }
}

/// The scan of the nodes from position `k` of `sorted` on, each climbing
/// from its parent.
pub open spec fn scan_nodes(g: &Graph, d: spec_fn(NodeIndex) -> nat, st: ScanState, sorted: Seq<NodeIndex>, k: int) -> ScanState
    decreases sorted.len() - k,
{
    if k < 0 || k >= sorted.len() {
        st
    } else {
        let st1 = match parent_in(g, sorted[k]) {
            Some(c) => climb(g, d, st, c),
            None => st,
        };
        scan_nodes(g, d, st1, sorted, k + 1)
    }
}

/// Records, for the nodes of a layer in their new order, that a subgraph
/// met before another under the same parent must precede it.
pub fn add_subgraph_constraints(layer_graph: &Graph, constraint_graph: &mut ConstraintGraph, sorted_nodes: &[NodeIndex])
    requires
        old(constraint_graph).wf(),
        exists|d: spec_fn(NodeIndex) -> nat| parents_ranked(layer_graph, d),
        forall|k: int| 0 <= k < sorted_nodes@.len() ==> (#[trigger] sorted_nodes@[k]).which_graph == layer_graph.id(),
    ensures
        final(constraint_graph).wf(),
        final(constraint_graph).constraint_view() == scan_nodes(
            layer_graph,
            choose|d: spec_fn(NodeIndex) -> nat| parents_ranked(layer_graph, d),
            (old(constraint_graph).constraint_view(), Map::empty(), None),
            sorted_nodes@,
            0,
        ).0,
{
    let ghost d = choose|d: spec_fn(NodeIndex) -> nat| parents_ranked(layer_graph, d);
    let ghost target = scan_nodes(layer_graph, d, (constraint_graph.constraint_view(), Map::empty(), None), sorted_nodes@, 0);
    let mut prev = node_map_new();
    let mut root_prev: Option<NodeIndex> = None;
    proof {
        assert(entry_map(node_pair_entries(prev)) =~= Map::<NodeIndex, NodeIndex>::empty());
    }
    let mut k: usize = 0;
    while k < sorted_nodes.len()
        invariant
            parents_ranked(layer_graph, d),
            forall|j: int| 0 <= j < sorted_nodes@.len() ==> (#[trigger] sorted_nodes@[j]).which_graph == layer_graph.id(),
            k <= sorted_nodes@.len(),
            constraint_graph.wf(),
            keys_unique(node_pair_entries(prev)),
            scan_nodes(
                layer_graph,
                d,
                (constraint_graph.constraint_view(), entry_map(node_pair_entries(prev)), root_prev),
                sorted_nodes@,
                k as int,
            ) == target,
        decreases sorted_nodes@.len() - k,
    {
        let node = sorted_nodes[k];
        let mut child = layer_graph.parent(node);
        let ghost st0: ScanState = (constraint_graph.constraint_view(), entry_map(node_pair_entries(prev)), root_prev);
        let ghost goal: ScanState = match parent_in(layer_graph, node) {
            Some(c) => climb(layer_graph, d, st0, c),
            None => st0,
        };
        loop
            invariant_except_break
                parents_ranked(layer_graph, d),
                constraint_graph.wf(),
                keys_unique(node_pair_entries(prev)),
                child matches Some(c) ==> c.which_graph == layer_graph.id(),
                (match child {
                    Some(c) => climb(
                        layer_graph,
                        d,
                        (constraint_graph.constraint_view(), entry_map(node_pair_entries(prev)), root_prev),
                        c,
                    ),
                    None => (constraint_graph.constraint_view(), entry_map(node_pair_entries(prev)), root_prev),
                }) == goal,
            ensures
                constraint_graph.wf(),
                keys_unique(node_pair_entries(prev)),
                (constraint_graph.constraint_view(), entry_map(node_pair_entries(prev)), root_prev) == goal,
            decreases (match child {
                Some(c) => d(c) + 1,
                None => 0,
            }),
        {
            let c = match child {
                Some(c) => c,
                None => {
                    break;
                },
            };
            let ghost st: ScanState = (constraint_graph.constraint_view(), entry_map(node_pair_entries(prev)), root_prev);
            let parent = layer_graph.parent(c);
            proof {
                assert(parent == parent_in(layer_graph, c));
            }
            let prev_child = match parent {
                Some(pn) => {
                    let pc = node_map_get(&prev, &pn);
                    proof {
                        lemma_inserted(node_pair_entries(prev), pn, c);
                    }
                    node_map_insert(&mut prev, pn, c);
                    pc
                },
                None => {
                    let pc = root_prev;
                    root_prev = Some(c);
                    pc
                },
            };
            match prev_child {
                Some(pc) => {
                    if pc != c {
                        constraint_graph.add_constraint(pc, c);
                        break;
                    }
                },
                None => {},
            }
            child = parent;
        }
        k += 1;
    }
}

} // verus!
