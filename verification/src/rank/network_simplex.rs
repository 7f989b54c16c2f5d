//! The steps of the network simplex ranking that decide: cut values of
//! tree edges, the edge that leaves the tree and the edge that enters it.
//!
//! Tree edges are the edges whose label carries a cut value.
use vstd::prelude::*;
use crate::graph::Graph;
use crate::index_map::{key_pos, has_key};
use crate::graph::lemma_relabel_edge;
use crate::rank::util::{slack, slack_fits, slack_spec, minlen_or_one};
use crate::rank::feasible_tree::{feasible_spec, slacks_fit};
use crate::types::{Edge, EdgeLabel, NodeIndex, NodeLabel};

verus! {

/// The edge from `u` to `v`.
pub open spec fn edge_of(u: NodeIndex, v: NodeIndex) -> Edge {
    Edge { source: u, target: v }
}

/// The edge between `u` and `v` is a tree edge: the edge `u → v` when
/// there is one, else the edge `v → u`.
pub open spec fn tree_edge(g: &Graph, u: NodeIndex, v: NodeIndex) -> bool {
    if g.has_edge_spec(edge_of(u, v)) {
        g.edge_label_spec(edge_of(u, v)).cutvalue is Some
    } else if g.has_edge_spec(edge_of(v, u)) {
        g.edge_label_spec(edge_of(v, u)).cutvalue is Some
    } else {
        false
    }
}

/// Whether the edge between `u` and `v`, in either direction, is a tree
/// edge.
pub fn is_tree_edge(graph: &Graph, u: NodeIndex, v: NodeIndex) -> (r: bool)
    ensures
        r == tree_edge(graph, u, v),
{
    match graph.edge_label(&Edge::new(u, v)) {
        Some(l) => l.cutvalue.is_some(),
        None => match graph.edge_label(&Edge::new(v, u)) {
            Some(l) => l.cutvalue.is_some(),
            None => false,
        },
    }
}

/// `x`, negated unless `keep`.
pub open spec fn signed(keep: bool, x: int) -> int {
    if keep {
        x
    } else {
        -x
    }
}

/// The weight of an edge as the cut value counts it.
pub open spec fn weight_i32(l: EdgeLabel) -> int {
    (l.weight as i32) as int
}

/// The child is the tail of the tree edge to its parent.
pub open spec fn child_is_tail(g: &Graph, child: NodeIndex, parent: NodeIndex) -> bool {
    g.has_edge_spec(edge_of(child, parent))
}

/// The weight of the edge between child and parent (0 when none).
pub open spec fn cut_base(g: &Graph, child: NodeIndex, parent: NodeIndex) -> int {
    if g.has_edge_spec(edge_of(child, parent)) {
        weight_i32(g.edge_label_spec(edge_of(child, parent)))
    } else if g.has_edge_spec(edge_of(parent, child)) {
        weight_i32(g.edge_label_spec(edge_of(parent, child)))
    } else {
        0
    }
}

/// What the edge `e` leaving the child adds to its cut value: its weight,
/// counted positively when it points the way the tree edge to the parent
/// does, and, for a tree edge, its cut value with the opposite sign.
pub open spec fn out_term(g: &Graph, child: NodeIndex, parent: NodeIndex, e: Edge) -> int {
    if e.target == parent {
        0
    } else {
        let head = child_is_tail(g, child, parent);
        let l = g.edge_label_spec(e);
        signed(head, weight_i32(l)) + match l.cutvalue {
            Some(c) => signed(!head, c as int),
            None => 0,
        }
    }
}

/// What the edge `e` entering the child adds to its cut value.
pub open spec fn in_term(g: &Graph, child: NodeIndex, parent: NodeIndex, e: Edge) -> int {
    if e.source == parent {
        0
    } else {
        let head = !child_is_tail(g, child, parent);
        let l = g.edge_label_spec(e);
        signed(head, weight_i32(l)) + if tree_edge(g, child, e.source) {
            match l.cutvalue {
                Some(c) => signed(!head, c as int),
                None => 0,
            }
        } else {
            0
        }
    }
}

/// The largest magnitude the term of an edge can have.
pub open spec fn abs_term(g: &Graph, e: Edge) -> int {
    let l = g.edge_label_spec(e);
    let w = weight_i32(l);
    (if w < 0 { -w } else { w }) + match l.cutvalue {
        Some(c) => if c < 0 { -(c as int) } else { c as int },
        None => 0,
    }
}

/// Sum of `out_term` (when `out`) or `in_term` over `es`.
pub open spec fn sum_terms(g: &Graph, child: NodeIndex, parent: NodeIndex, es: Seq<Edge>, out: bool) -> int
    decreases es.len(),
{
    if es.len() == 0 {
        0
    } else {
        sum_terms(g, child, parent, es.drop_last(), out) + if out {
            out_term(g, child, parent, es.last())
        } else {
            in_term(g, child, parent, es.last())
        }
    }
}

/// Sum of `abs_term` over `es`.
pub open spec fn sum_abs(g: &Graph, es: Seq<Edge>) -> int
    decreases es.len(),
{
    if es.len() == 0 {
        0
    } else {
        sum_abs(g, es.drop_last()) + abs_term(g, es.last())
    }
}

/// The parent of `child` in the tree.
pub open spec fn parent_of(g: &Graph, child: NodeIndex) -> NodeIndex {
    g.label_of(child).parent->0
}

/// The cut value of the tree edge between `child` and its parent: the
/// total weight of the edges crossing the cut the tree edge defines, those
/// pointing the way it does counted positively, computed from the cut
/// values of the tree edges below.
pub open spec fn cut_value_spec(g: &Graph, child: NodeIndex) -> int {
    let p = parent_of(g, child);
    cut_base(g, child, p) + sum_terms(g, child, p, g.out_edges_spec(child), true) + sum_terms(
        g,
        child,
        p,
        g.in_edges_spec(child),
        false,
    )
}

/// The cut value and every partial sum on the way fit in an `i32`.
pub open spec fn cut_value_fits(g: &Graph, child: NodeIndex) -> bool {
    let p = parent_of(g, child);
    let b = cut_base(g, child, p);
    (if b < 0 { -b } else { b }) + sum_abs(g, g.out_edges_spec(child)) + sum_abs(g, g.in_edges_spec(child)) <= i32::MAX
}

proof fn lemma_term_bound(g: &Graph, child: NodeIndex, parent: NodeIndex, e: Edge, out: bool)
    ensures
        abs_term(g, e) >= 0,
        -abs_term(g, e) <= (if out { out_term(g, child, parent, e) } else { in_term(g, child, parent, e) }) <= abs_term(g, e),
{
}

proof fn lemma_sum_abs_prefix(g: &Graph, es: Seq<Edge>, i: int)
    requires
        0 <= i <= es.len(),
    ensures
        0 <= sum_abs(g, es.take(i)) <= sum_abs(g, es),
    decreases es.len() - i,
{
    if i < es.len() {
        lemma_sum_abs_prefix(g, es, i + 1);
        assert(es.take(i + 1).drop_last() =~= es.take(i));
        assert(es.take(i + 1).last() == es[i]);
        lemma_sum_abs_nonneg(g, es.take(i));
        lemma_term_bound(g, NodeIndex { node_index: 0, which_graph: 0 }, NodeIndex { node_index: 0, which_graph: 0 }, es[i], true);
    } else {
        assert(es.take(i) =~= es);
        lemma_sum_abs_nonneg(g, es);
    }
}

proof fn lemma_sum_abs_nonneg(g: &Graph, es: Seq<Edge>)
    ensures
        sum_abs(g, es) >= 0,
    decreases es.len(),
{
    if es.len() > 0 {
        lemma_sum_abs_nonneg(g, es.drop_last());
        lemma_term_bound(g, NodeIndex { node_index: 0, which_graph: 0 }, NodeIndex { node_index: 0, which_graph: 0 }, es.last(), true);
    }
}

/// Adds the terms of the edges `es` to `acc`.
fn add_terms(graph: &Graph, child: NodeIndex, parent: NodeIndex, es: &Vec<Edge>, out: bool, acc: i32, Ghost(budget): Ghost<int>) -> (r: i32)
    requires
        forall|k: int| 0 <= k < es@.len() ==> graph.has_edge_spec(#[trigger] es@[k]),
        forall|k: int| 0 <= k < es@.len() ==> (#[trigger] es@[k]).source == child || !out,
        forall|k: int| 0 <= k < es@.len() ==> (#[trigger] es@[k]).target == child || out,
        (if acc < 0 { -acc } else { acc as int }) + sum_abs(graph, es@) <= budget,
        budget <= i32::MAX,
    ensures
        r == acc + sum_terms(graph, child, parent, es@, out),
        (if r < 0 { -r } else { r as int }) <= budget,
{
    let head = if out {
        graph.has_edge(&Edge::new(child, parent))
    } else {
        !graph.has_edge(&Edge::new(child, parent))
    };
    let mut cut = acc;
    let mut i: usize = 0;
    proof {
        assert(es@.take(0) =~= Seq::<Edge>::empty());
        lemma_sum_abs_prefix(graph, es@, 0);
    }
    while i < es.len()
        invariant
            forall|k: int| 0 <= k < es@.len() ==> graph.has_edge_spec(#[trigger] es@[k]),
            forall|k: int| 0 <= k < es@.len() ==> (#[trigger] es@[k]).source == child || !out,
            forall|k: int| 0 <= k < es@.len() ==> (#[trigger] es@[k]).target == child || out,
            head == (if out { child_is_tail(graph, child, parent) } else { !child_is_tail(graph, child, parent) }),
            i <= es@.len(),
            cut == acc + sum_terms(graph, child, parent, es@.take(i as int), out),
            (if cut < 0 { -cut } else { cut as int }) <= (if acc < 0 { -acc } else { acc as int }) + sum_abs(graph, es@.take(i as int)),
            (if acc < 0 { -acc } else { acc as int }) + sum_abs(graph, es@) <= budget,
            budget <= i32::MAX,
        decreases es@.len() - i,
    {
        let e = es[i];
        proof {
            assert(es@.take(i + 1).drop_last() =~= es@.take(i as int));
            assert(es@.take(i + 1).last() == e);
            lemma_sum_abs_prefix(graph, es@, i + 1);
            lemma_term_bound(graph, child, parent, e, out);
        }
        let other = if out { e.target } else { e.source };
        if other != parent {
            let l = graph.edge_label(&e).unwrap();
            let w = l.weight as i32;
            let tree = if out {
                true
            } else {
                is_tree_edge(graph, child, other)
            };
            if head {
                cut = cut + w;
            } else {
                cut = cut - w;
            }
            if tree {
                match l.cutvalue {
                    Some(c) => {
                        if head {
                            cut = cut - c;
                        } else {
                            cut = cut + c;
                        }
                    },
                    None => {},
                }
            }
        }
        i += 1;
    }
    proof {
        assert(es@.take(es@.len() as int) =~= es@);
    }
    cut
}

/// The cut value of the tree edge between `child` and its parent.
pub fn calc_cut_value(graph: &Graph, child: NodeIndex) -> (r: i32)
    requires
        graph.wf(),
        graph.contains_node(child),
        graph.label_of(child).parent is Some,
        cut_value_fits(graph, child),
    ensures
        r == cut_value_spec(graph, child),
{
    let parent = graph.node_label(child).unwrap().parent.unwrap();
    let base: i32 = match graph.edge_label(&Edge::new(child, parent)) {
        Some(l) => l.weight as i32,
        None => match graph.edge_label(&Edge::new(parent, child)) {
            Some(l) => l.weight as i32,
            None => 0,
        },
    };
    let outs = graph.out_edges(child);
    let ins = graph.in_edges(child);
    proof {
        lemma_incident_facts(graph, child);
        lemma_sum_abs_nonneg(graph, outs@);
        lemma_sum_abs_nonneg(graph, ins@);
    }
    let ghost budget = (if base < 0 { -base } else { base as int }) + sum_abs(graph, outs@) + sum_abs(graph, ins@);
    let c1 = add_terms(graph, child, parent, &outs, true, base, Ghost(budget - sum_abs(graph, ins@)));
    let c2 = add_terms(graph, child, parent, &ins, false, c1, Ghost(budget));
    c2
}

/// The magnitude of the weight of the edge between `child` and `parent`.
fn base_magnitude(graph: &Graph, child: NodeIndex, parent: NodeIndex) -> (r: i64)
    ensures
        r == (if cut_base(graph, child, parent) < 0 { -cut_base(graph, child, parent) } else { cut_base(graph, child, parent) }),
{
    let b: i32 = match graph.edge_label(&Edge::new(child, parent)) {
        Some(l) => l.weight as i32,
        None => match graph.edge_label(&Edge::new(parent, child)) {
            Some(l) => l.weight as i32,
            None => 0,
        },
    };
    if b < 0 {
        -(b as i64)
    } else {
        b as i64
    }
}

/// Adds `abs_term` over `es` to `acc`, stopping once the total passes
/// `i32::MAX`.
fn add_magnitudes(graph: &Graph, es: &Vec<Edge>, acc: i64) -> (r: i64)
    requires
        0 <= acc <= i32::MAX,
        forall|k: int| 0 <= k < es@.len() ==> graph.has_edge_spec(#[trigger] es@[k]),
    ensures
        r <= i32::MAX ==> r == acc + sum_abs(graph, es@),
        r > i32::MAX ==> acc + sum_abs(graph, es@) > i32::MAX,
        r >= 0,
{
    let mut total = acc;
    let mut i: usize = 0;
    proof {
        assert(es@.take(0) =~= Seq::<Edge>::empty());
    }
    while i < es.len()
        invariant
            forall|k: int| 0 <= k < es@.len() ==> graph.has_edge_spec(#[trigger] es@[k]),
            i <= es@.len(),
            total == acc + sum_abs(graph, es@.take(i as int)),
            0 <= total <= i32::MAX,
        decreases es@.len() - i,
    {
        let e = es[i];
        proof {
            assert(es@.take(i + 1).drop_last() =~= es@.take(i as int));
            assert(es@.take(i + 1).last() == e);
        }
        let l = graph.edge_label(&e).unwrap();
        let w = l.weight as i32;
        let wm: i64 = if w < 0 { -(w as i64) } else { w as i64 };
        let cm: i64 = match l.cutvalue {
            Some(c) => if c < 0 { -(c as i64) } else { c as i64 },
            None => 0,
        };
        total = total + wm + cm;
        i += 1;
        if total > 2147483647 {
            proof {
                lemma_sum_abs_prefix(graph, es@, i as int);
            }
            return total;
        }
    }
    proof {
        assert(es@.take(es@.len() as int) =~= es@);
    }
    total
}

/// Whether the cut value of the tree edge between `child` and its parent,
/// and every partial sum on the way, fit in an `i32`.
pub fn cut_value_in_range(graph: &Graph, child: NodeIndex) -> (r: bool)
    requires
        graph.contains_node(child),
        graph.label_of(child).parent is Some,
    ensures
        r == cut_value_fits(graph, child),
{
    let parent = graph.node_label(child).unwrap().parent.unwrap();
    let b = base_magnitude(graph, child, parent);
    let outs = graph.out_edges(child);
    let ins = graph.in_edges(child);
    proof {
        lemma_incident_facts(graph, child);
        lemma_sum_abs_nonneg(graph, outs@);
        lemma_sum_abs_nonneg(graph, ins@);
    }
    if b > 2147483647 {
        return false;
    }
    let t1 = add_magnitudes(graph, &outs, b);
    if t1 > 2147483647 {
        return false;
    }
    let t2 = add_magnitudes(graph, &ins, t1);
    t2 <= 2147483647
}

/// The edges leaving (entering) a node are edges of the graph that leave
/// (enter) it.
pub proof fn lemma_incident_facts(g: &Graph, v: NodeIndex)
    ensures
        forall|k: int| 0 <= k < g.out_edges_spec(v).len() ==> g.has_edge_spec(#[trigger] g.out_edges_spec(v)[k]) && g.out_edges_spec(v)[k].source == v,
        forall|k: int| 0 <= k < g.in_edges_spec(v).len() ==> g.has_edge_spec(#[trigger] g.in_edges_spec(v)[k]) && g.in_edges_spec(v)[k].target == v,
{
    assert forall|k: int| 0 <= k < g.out_edges_spec(v).len() implies g.has_edge_spec(#[trigger] g.out_edges_spec(v)[k]) && g.out_edges_spec(v)[k].source == v by {
        crate::graph::lemma_incident_index(g.entries(), v, true, k);
    }
    assert forall|k: int| 0 <= k < g.in_edges_spec(v).len() implies g.has_edge_spec(#[trigger] g.in_edges_spec(v)[k]) && g.in_edges_spec(v)[k].target == v by {
        crate::graph::lemma_incident_index(g.entries(), v, false, k);
    }
}

/// The tree edge between `child` and `parent` as the graph stores it:
/// `child → parent` when there is such an edge, else `parent → child`.
pub open spec fn stored_edge(g: &Graph, child: NodeIndex, parent: NodeIndex) -> Edge {
    if g.has_edge_spec(edge_of(child, parent)) {
        edge_of(child, parent)
    } else {
        edge_of(parent, child)
    }
}

/// Stores the cut value of the tree edge between `child` and its parent
/// on that edge; a node without a parent changes nothing.
pub fn assign_cut_value(graph: &mut Graph, child: NodeIndex)
    requires
        old(graph).wf(),
        old(graph).contains_node(child),
        old(graph).label_of(child).parent is Some ==> cut_value_fits(&*old(graph), child),
    ensures
        final(graph).wf(),
        final(graph).node_seq() == old(graph).node_seq(),
        final(graph).id() == old(graph).id(),
        final(graph).config_spec() == old(graph).config_spec(),
        final(graph).dummy_heads() == old(graph).dummy_heads(),
        old(graph).label_of(child).parent is None ==> final(graph).entries() == old(graph).entries(),
        old(graph).label_of(child).parent is Some ==> {
            let e = stored_edge(&*old(graph), child, parent_of(&*old(graph), child));
            if old(graph).has_edge_spec(e) {
                final(graph).entries() == old(graph).entries().update(
                    key_pos(old(graph).entries(), e),
                    (e, EdgeLabel { cutvalue: Some(cut_value_spec(&*old(graph), child) as i32), ..old(graph).edge_label_spec(e) }),
                )
            } else {
                final(graph).entries() == old(graph).entries()
            }
        },
{
    let parent = match graph.node_label(child).unwrap().parent {
        Some(p) => p,
        None => {
            return;
        },
    };
    let cut = calc_cut_value(graph, child);
    let ghost g0 = *graph;
    let forward = Edge::new(child, parent);
    let e = if graph.has_edge(&forward) {
        forward
    } else {
        Edge::new(parent, child)
    };
    if let Some(l) = graph.edge_label_mut(&e) {
        l.cutvalue = Some(cut);
    }
    proof {
        if g0.has_edge_spec(e) {
            lemma_relabel_edge(&g0, graph, e, EdgeLabel { cutvalue: Some(cut), ..g0.edge_label_spec(e) });
        } else {
            crate::graph::lemma_wf_same_shape(&g0, graph);
        }
    }
}

/// The label of edge `e` carries a negative cut value.
pub open spec fn negative_cut(g: &Graph, e: Edge) -> bool {
    match g.edge_label_spec(e).cutvalue {
        Some(c) => c < 0,
        None => false,
    }
}

/// The first tree edge, in edge order, with a negative cut value, if any:
/// the edge that leaves the tree.
pub fn leave_edge(graph: &Graph) -> (r: Option<Edge>)
    requires
        graph.wf(),
    ensures
        r is None <==> forall|i: int| 0 <= i < graph.edge_seq().len() ==> !negative_cut(graph, #[trigger] graph.edge_seq()[i]),
        r matches Some(e) ==> exists|i: int| 0 <= i < graph.edge_seq().len() && #[trigger] graph.edge_seq()[i] == e
            && negative_cut(graph, e) && forall|j: int| 0 <= j < i ==> !negative_cut(graph, #[trigger] graph.edge_seq()[j]),
{
    let es = graph.edges();
    let mut i: usize = 0;
    while i < es.len()
        invariant
            es@ == graph.edge_seq(),
            i <= es@.len(),
            forall|j: int| 0 <= j < i ==> !negative_cut(graph, #[trigger] graph.edge_seq()[j]),
        decreases es@.len() - i,
    {
        let e = es[i];
        if let Some(l) = graph.edge_label(&e) {
            if let Some(c) = l.cutvalue {
                if c < 0 {
                    return Some(e);
                }
            }
        } else {
            proof {
                assert(graph.entries()[i as int].0 == e);
                assert(graph.has_edge_spec(e));
            }
        }
        i += 1;
    }
    None
}

/// The node with label `v` lies below the node with label `root` in the
/// tree: its `lim` lies within the root's `low..=lim` (unset values
/// count as 0).
pub open spec fn descendant(v: NodeLabel, root: NodeLabel) -> bool {
    let v_lim = match v.lim {
        Some(x) => x,
        None => 0,
    };
    let low = match root.low {
        Some(x) => x,
        None => 0,
    };
    let lim = match root.lim {
        Some(x) => x,
        None => 0,
    };
    low <= v_lim && v_lim <= lim
}

/// Whether the node with label `v_label` lies below the node with label
/// `root_label` in the tree.
pub fn is_descendant(_graph: &Graph, v_label: &NodeLabel, root_label: &NodeLabel) -> (r: bool)
    ensures
        r == descendant(*v_label, *root_label),
{
    let v_lim = match v_label.lim {
        Some(x) => x,
        None => 0,
    };
    let root_low = match root_label.low {
        Some(x) => x,
        None => 0,
    };
    let root_lim = match root_label.lim {
        Some(x) => x,
        None => 0,
    };
    root_low <= v_lim && v_lim <= root_lim
}

/// The `lim` of a label, 0 when unset.
pub open spec fn lim_of(l: NodeLabel) -> int {
    match l.lim {
        Some(x) => x as int,
        None => 0,
    }
}

/// The leaving edge oriented as the graph stores it.
pub open spec fn leaving(g: &Graph, e: Edge) -> Edge {
    if g.has_edge_spec(e) {
        e
    } else {
        edge_of(e.target, e.source)
    }
}

/// Whether the tree below the leaving edge hangs from its head: when the
/// tail's `lim` exceeds the head's, the head's side is the subtree.
pub open spec fn enter_flip(g: &Graph, e: Edge) -> bool {
    let d = leaving(g, e);
    lim_of(g.label_of(d.source)) > lim_of(g.label_of(d.target))
}

/// The label of the root of the subtree cut off by the leaving edge.
pub open spec fn enter_tail(g: &Graph, e: Edge) -> NodeLabel {
    let d = leaving(g, e);
    if enter_flip(g, e) {
        g.label_of(d.target)
    } else {
        g.label_of(d.source)
    }
}

/// Edge `f` may enter the tree in place of `e`: it crosses the cut
/// between the subtree and the rest in the right direction.
pub open spec fn enter_candidate(g: &Graph, e: Edge, f: Edge) -> bool {
    let flip = enter_flip(g, e);
    let tail = enter_tail(g, e);
    flip == descendant(g.label_of(f.source), tail) && flip != descendant(g.label_of(f.target), tail)
}

/// The edge that enters the tree when `edge` leaves it: the first
/// candidate, in edge order, of least slack.
pub fn enter_edge(graph: &Graph, edge: &Edge) -> (r: Edge)
    requires
        graph.wf(),
        graph.contains_node(edge.source),
        graph.contains_node(edge.target),
        forall|i: int| 0 <= i < graph.edge_seq().len() ==> slack_fits(graph, #[trigger] graph.edge_seq()[i]),
        exists|i: int| 0 <= i < graph.edge_seq().len() && enter_candidate(graph, *edge, #[trigger] graph.edge_seq()[i]),
    ensures
        exists|i: int| 0 <= i < graph.edge_seq().len() && #[trigger] graph.edge_seq()[i] == r
            && enter_candidate(graph, *edge, r)
            && (forall|j: int| 0 <= j < graph.edge_seq().len() && enter_candidate(graph, *edge, #[trigger] graph.edge_seq()[j])
                ==> slack_spec(graph, r) <= slack_spec(graph, graph.edge_seq()[j]))
            && (forall|j: int| 0 <= j < i && enter_candidate(graph, *edge, #[trigger] graph.edge_seq()[j])
                ==> slack_spec(graph, r) < slack_spec(graph, graph.edge_seq()[j])),
{
    let (v, w) = if !graph.has_edge(&Edge::new(edge.source, edge.target)) {
        (edge.target, edge.source)
    } else {
        (edge.source, edge.target)
    };
    let v_label = graph.node_label(v).unwrap();
    let w_label = graph.node_label(w).unwrap();
    let v_lim: i64 = match v_label.lim {
        Some(x) => x as i64,
        None => 0,
    };
    let w_lim: i64 = match w_label.lim {
        Some(x) => x as i64,
        None => 0,
    };
    let mut tail_label = v_label;
    let mut flip = false;
    if v_lim > w_lim {
        tail_label = w_label;
        flip = true;
    }
    proof {
        assert(flip == enter_flip(graph, *edge));
        assert(*tail_label == enter_tail(graph, *edge));
    }
    let es = graph.edges();
    let mut best: Option<(Edge, i32)> = None;
    let ghost mut best_i: int = 0;
    let mut i: usize = 0;
    while i < es.len()
        invariant
            graph.wf(),
            es@ == graph.edge_seq(),
            forall|k: int| 0 <= k < graph.edge_seq().len() ==> slack_fits(graph, #[trigger] graph.edge_seq()[k]),
            flip == enter_flip(graph, *edge),
            *tail_label == enter_tail(graph, *edge),
            i <= es@.len(),
            best is None ==> forall|j: int| 0 <= j < i ==> !enter_candidate(graph, *edge, #[trigger] graph.edge_seq()[j]),
            best matches Some(b) ==> {
                &&& 0 <= best_i < i
                &&& graph.edge_seq()[best_i] == b.0
                &&& b.1 == slack_spec(graph, b.0)
                &&& enter_candidate(graph, *edge, b.0)
                &&& forall|j: int| 0 <= j < i && enter_candidate(graph, *edge, #[trigger] graph.edge_seq()[j])
                    ==> b.1 <= slack_spec(graph, graph.edge_seq()[j])
                &&& forall|j: int| 0 <= j < best_i && enter_candidate(graph, *edge, #[trigger] graph.edge_seq()[j])
                    ==> b.1 < slack_spec(graph, graph.edge_seq()[j])
            },
        decreases es@.len() - i,
    {
        let f = es[i];
        proof {
            assert(graph.entries()[i as int].0 == f);
            assert(graph.contains_node(graph.entries()[i as int].0.source));
            assert(graph.contains_node(graph.entries()[i as int].0.target));
        }
        let fv = graph.node_label(f.source).unwrap();
        let fw = graph.node_label(f.target).unwrap();
        let dv = is_descendant(graph, fv, tail_label);
        let dw = is_descendant(graph, fw, tail_label);
        if flip == dv && flip != dw {
            let sf = slack(graph, &f);
            match best {
                Some(b) => {
                    if sf < b.1 {
                        best = Some((f, sf));
                        proof {
                            best_i = i as int;
                        }
                    }
                },
                None => {
                    best = Some((f, sf));
                    proof {
                        best_i = i as int;
                    }
                },
            }
        }
        i += 1;
    }
    match best {
        Some(b) => b.0,
        None => {
            proof {
                let k = choose|k: int| 0 <= k < graph.edge_seq().len() && enter_candidate(graph, *edge, #[trigger] graph.edge_seq()[k]);
                assert(false);
            }
            Edge::new(v, w)
        },
    }
}

/// Whether some edge may enter the tree in place of `edge`.
pub fn has_enter_candidate(graph: &Graph, edge: &Edge) -> (r: bool)
    requires
        graph.wf(),
        graph.contains_node(edge.source),
        graph.contains_node(edge.target),
    ensures
        r == exists|i: int| 0 <= i < graph.edge_seq().len() && enter_candidate(graph, *edge, #[trigger] graph.edge_seq()[i]),
{
    let (v, w) = if !graph.has_edge(&Edge::new(edge.source, edge.target)) {
        (edge.target, edge.source)
    } else {
        (edge.source, edge.target)
    };
    let v_label = graph.node_label(v).unwrap();
    let w_label = graph.node_label(w).unwrap();
    let v_lim: i64 = match v_label.lim {
        Some(x) => x as i64,
        None => 0,
    };
    let w_lim: i64 = match w_label.lim {
        Some(x) => x as i64,
        None => 0,
    };
    let mut tail_label = v_label;
    let mut flip = false;
    if v_lim > w_lim {
        tail_label = w_label;
        flip = true;
    }
    let es = graph.edges();
    let mut i: usize = 0;
    while i < es.len()
        invariant
            graph.wf(),
            es@ == graph.edge_seq(),
            flip == enter_flip(graph, *edge),
            *tail_label == enter_tail(graph, *edge),
            i <= es@.len(),
            forall|j: int| 0 <= j < i ==> !enter_candidate(graph, *edge, #[trigger] graph.edge_seq()[j]),
        decreases es@.len() - i,
    {
        let f = es[i];
        proof {
            assert(graph.entries()[i as int].0 == f);
            assert(graph.contains_node(graph.entries()[i as int].0.source));
            assert(graph.contains_node(graph.entries()[i as int].0.target));
        }
        let fv = graph.node_label(f.source).unwrap();
        let fw = graph.node_label(f.target).unwrap();
        if flip == is_descendant(graph, fv, tail_label) && flip != is_descendant(graph, fw, tail_label) {
            return true;
        }
        i += 1;
    }
    false
}

/// Whether some edge has one end in the tree and the other outside.
pub fn has_crossing_edge(graph: &Graph, in_tree: &Vec<bool>) -> (r: bool)
    requires
        graph.wf(),
    ensures
        r == exists|i: int| 0 <= i < graph.edge_seq().len() && crosses(in_tree@, #[trigger] graph.edge_seq()[i]),
{
    let es = graph.edges();
    let mut i: usize = 0;
    while i < es.len()
        invariant
            es@ == graph.edge_seq(),
            i <= es@.len(),
            forall|j: int| 0 <= j < i ==> !crosses(in_tree@, #[trigger] graph.edge_seq()[j]),
        decreases es@.len() - i,
    {
        let e = es[i];
        let s = e.source.node_index < in_tree.len() && in_tree[e.source.node_index];
        let t = e.target.node_index < in_tree.len() && in_tree[e.target.node_index];
        if s != t {
            return true;
        }
        i += 1;
    }
    false
}

/// Whether shifting the ranks of the tree's nodes by `delta` keeps every
/// rank an `i32`.
pub fn shift_in_range(graph: &Graph, in_tree: &Vec<bool>, delta: i32) -> (r: bool)
    requires
        in_tree@.len() == graph.n(),
    ensures
        r == forall|i: int| 0 <= i < graph.n() && in_tree@[i] && (#[trigger] graph.node_seq()[i]).rank is Some
            ==> i32::MIN <= graph.node_seq()[i].rank->0 + delta <= i32::MAX,
{
    let nodes = graph.node_indices();
    let mut i: usize = 0;
    while i < nodes.len()
        invariant
            nodes@.len() == graph.n(),
            forall|k: int| 0 <= k < graph.n() ==> #[trigger] nodes@[k] == graph.node_at(k),
            in_tree@.len() == graph.n(),
            i <= graph.n(),
            forall|j: int| 0 <= j < i && in_tree@[j] && (#[trigger] graph.node_seq()[j]).rank is Some
                ==> i32::MIN <= graph.node_seq()[j].rank->0 + delta <= i32::MAX,
        decreases graph.n() - i,
    {
        if in_tree[i] {
            if let Some(rk) = graph.node_label(nodes[i]).unwrap().rank {
                if rk.checked_add(delta).is_none() {
                    return false;
                }
            }
        }
        i += 1;
    }
    true
}

/// Node `v` is marked in `in_tree`, a flag per node position.
pub open spec fn marked(in_tree: Seq<bool>, v: NodeIndex) -> bool {
    v.node_index < in_tree.len() && in_tree[v.node_index as int]
}

/// Edge `e` has one end in the tree and the other outside.
pub open spec fn crosses(in_tree: Seq<bool>, e: Edge) -> bool {
    marked(in_tree, e.source) != marked(in_tree, e.target)
}

/// The number of set flags.
pub open spec fn count_true(s: Seq<bool>) -> nat
    decreases s.len(),
{
    if s.len() == 0 {
        0
    } else {
        count_true(s.drop_last()) + if s.last() {
            1nat
        } else {
            0nat
        }
    }
}

proof fn lemma_count_true_bound(s: Seq<bool>)
    ensures
        count_true(s) <= s.len(),
    decreases s.len(),
{
    if s.len() > 0 {
        lemma_count_true_bound(s.drop_last());
    }
}

proof fn lemma_count_true_set(s: Seq<bool>, i: int)
    requires
        0 <= i < s.len(),
        !s[i],
    ensures
        count_true(s.update(i, true)) == count_true(s) + 1,
    decreases s.len(),
{
    let t = s.update(i, true);
    if i == s.len() - 1 {
        assert(t.drop_last() =~= s.drop_last());
    } else {
        assert(t.drop_last() =~= s.drop_last().update(i, true));
        lemma_count_true_set(s.drop_last(), i);
    }
}

/// Moves every ranked node of the tree by `delta` ranks.
pub fn shift_ranks_for_tree(graph: &mut Graph, in_tree: &Vec<bool>, delta: i32)
    requires
        old(graph).wf(),
        in_tree@.len() == old(graph).n(),
        forall|i: int| 0 <= i < old(graph).n() && in_tree@[i] && (#[trigger] old(graph).node_seq()[i]).rank is Some
            ==> i32::MIN <= old(graph).node_seq()[i].rank->0 + delta <= i32::MAX,
    ensures
        final(graph).wf(),
        final(graph).n() == old(graph).n(),
        final(graph).entries() == old(graph).entries(),
        final(graph).id() == old(graph).id(),
        final(graph).config_spec() == old(graph).config_spec(),
        forall|i: int| 0 <= i < old(graph).n() ==> #[trigger] final(graph).node_seq()[i] == (
            if in_tree@[i] && old(graph).node_seq()[i].rank is Some {
                NodeLabel { rank: Some((old(graph).node_seq()[i].rank->0 + delta) as i32), ..old(graph).node_seq()[i] }
            } else {
                old(graph).node_seq()[i]
            }),
{
    let ghost g0 = *graph;
    let n = graph.node_count();
    let id = graph.graph_id();
    let mut i: usize = 0;
    while i < n
        invariant
            g0.wf(),
            n == g0.n(),
            id == g0.id(),
            in_tree@.len() == n,
            i <= n,
            graph.n() == n,
            graph.entries() == g0.entries(),
            graph.id() == id,
            graph.config_spec() == g0.config_spec(),
            forall|k: int| 0 <= k < g0.n() && in_tree@[k] && (#[trigger] g0.node_seq()[k]).rank is Some
                ==> i32::MIN <= g0.node_seq()[k].rank->0 + delta <= i32::MAX,
            forall|k: int| 0 <= k < n ==> #[trigger] graph.node_seq()[k] == (
                if k < i && in_tree@[k] && g0.node_seq()[k].rank is Some {
                    NodeLabel { rank: Some((g0.node_seq()[k].rank->0 + delta) as i32), ..g0.node_seq()[k] }
                } else {
                    g0.node_seq()[k]
                }),
        decreases n - i,
    {
        if in_tree[i] {
            let v = NodeIndex { node_index: i, which_graph: id };
            if let Some(label) = graph.node_label_mut(v) {
                if let Some(r) = label.rank {
                    label.rank = Some(r + delta);
                }
            }
        }
        i += 1;
    }
    proof {
        crate::graph::lemma_wf_same_shape(&g0, graph);
    }
}

/// The first edge, in edge order, of least slack among those with exactly
/// one end in the tree.
pub fn find_min_slack_edge_for_tree(graph: &Graph, in_tree: &Vec<bool>) -> (r: Edge)
    requires
        graph.wf(),
        forall|i: int| 0 <= i < graph.edge_seq().len() ==> slack_fits(graph, #[trigger] graph.edge_seq()[i]),
        exists|i: int| 0 <= i < graph.edge_seq().len() && crosses(in_tree@, #[trigger] graph.edge_seq()[i]),
    ensures
        exists|i: int| 0 <= i < graph.edge_seq().len() && #[trigger] graph.edge_seq()[i] == r
            && crosses(in_tree@, r)
            && (forall|j: int| 0 <= j < graph.edge_seq().len() && crosses(in_tree@, #[trigger] graph.edge_seq()[j])
                ==> slack_spec(graph, r) <= slack_spec(graph, graph.edge_seq()[j]))
            && (forall|j: int| 0 <= j < i && crosses(in_tree@, #[trigger] graph.edge_seq()[j])
                ==> slack_spec(graph, r) < slack_spec(graph, graph.edge_seq()[j])),
{
    let es = graph.edges();
    let mut best: Option<(Edge, i32)> = None;
    let ghost mut best_i: int = 0;
    let mut i: usize = 0;
    while i < es.len()
        invariant
            graph.wf(),
            es@ == graph.edge_seq(),
            forall|k: int| 0 <= k < graph.edge_seq().len() ==> slack_fits(graph, #[trigger] graph.edge_seq()[k]),
            i <= es@.len(),
            best is None ==> forall|j: int| 0 <= j < i ==> !crosses(in_tree@, #[trigger] graph.edge_seq()[j]),
            best matches Some(b) ==> {
                &&& 0 <= best_i < i
                &&& graph.edge_seq()[best_i] == b.0
                &&& b.1 == slack_spec(graph, b.0)
                &&& crosses(in_tree@, b.0)
                &&& forall|j: int| 0 <= j < i && crosses(in_tree@, #[trigger] graph.edge_seq()[j])
                    ==> b.1 <= slack_spec(graph, graph.edge_seq()[j])
                &&& forall|j: int| 0 <= j < best_i && crosses(in_tree@, #[trigger] graph.edge_seq()[j])
                    ==> b.1 < slack_spec(graph, graph.edge_seq()[j])
            },
        decreases es@.len() - i,
    {
        let f = es[i];
        proof {
            assert(graph.entries()[i as int].0 == f);
            assert(graph.contains_node(graph.entries()[i as int].0.source));
            assert(graph.contains_node(graph.entries()[i as int].0.target));
        }
        let src_in = f.source.node_index < in_tree.len() && in_tree[f.source.node_index];
        let tgt_in = f.target.node_index < in_tree.len() && in_tree[f.target.node_index];
        if src_in != tgt_in {
            let sf = slack(graph, &f);
            match best {
                Some(b) => {
                    if sf < b.1 {
                        best = Some((f, sf));
                        proof {
                            best_i = i as int;
                        }
                    }
                },
                None => {
                    best = Some((f, sf));
                    proof {
                        best_i = i as int;
                    }
                },
            }
        }
        i += 1;
    }
    match best {
        Some(b) => b.0,
        None => {
            proof {
                let k = choose|k: int| 0 <= k < graph.edge_seq().len() && crosses(in_tree@, #[trigger] graph.edge_seq()[k]);
                assert(false);
            }
            es[0]
        },
    }
}

/// `u` and `w` are joined by an edge of slack 0, in either direction.
pub open spec fn tight_link(g: &Graph, u: NodeIndex, w: NodeIndex) -> bool {
    (g.has_edge_spec(edge_of(u, w)) && slack_spec(g, edge_of(u, w)) == 0) || (g.has_edge_spec(edge_of(w, u))
        && slack_spec(g, edge_of(w, u)) == 0)
}

/// `p` is a path of nodes of `g` joined by tight links.
pub open spec fn tight_path(g: &Graph, p: Seq<NodeIndex>) -> bool {
    &&& p.len() >= 1
    &&& forall|k: int| 0 <= k < p.len() ==> g.contains_node(#[trigger] p[k])
    &&& forall|k: int| 0 <= k < p.len() - 1 ==> tight_link(g, #[trigger] p[k], p[k + 1])
}

/// Node `v` is joined to a node marked in `start` by a tight path.
pub open spec fn tightly_reached(g: &Graph, start: Seq<bool>, v: NodeIndex) -> bool {
    exists|p: Seq<NodeIndex>| #[trigger] tight_path(g, p) && marked(start, p[0]) && p.last() == v
}

proof fn lemma_extend_path(g: &Graph, start: Seq<bool>, v: NodeIndex, w: NodeIndex)
    requires
        tightly_reached(g, start, v),
        g.contains_node(w),
        tight_link(g, v, w),
    ensures
        tightly_reached(g, start, w),
{
    let p = choose|p: Seq<NodeIndex>| #[trigger] tight_path(g, p) && marked(start, p[0]) && p.last() == v;
    let q = p.push(w);
    assert(q[0] == p[0]);
    assert forall|k: int| 0 <= k < q.len() - 1 implies tight_link(g, #[trigger] q[k], q[k + 1]) by {
        if k < p.len() - 1 {
            assert(q[k] == p[k] && q[k + 1] == p[k + 1]);
        } else {
            assert(q[k] == v && q[k + 1] == w);
        }
    }
    assert forall|k: int| 0 <= k < q.len() implies g.contains_node(#[trigger] q[k]) by {
        if k < p.len() {
            assert(q[k] == p[k]);
        }
    }
    assert(tight_path(g, q));
}

/// Every tight edge at `x` has both ends in the tree.
pub open spec fn closed_at(g: &Graph, in_tree: Seq<bool>, x: NodeIndex) -> bool {
    forall|k: int| 0 <= k < g.edge_seq().len() && slack_spec(g, #[trigger] g.edge_seq()[k]) == 0
        && (g.edge_seq()[k].source == x || g.edge_seq()[k].target == x) ==> marked(in_tree, g.edge_seq()[k].source)
        && marked(in_tree, g.edge_seq()[k].target)
}

proof fn lemma_edge_in_seq(g: &Graph, e: Edge)
    requires
        g.wf(),
        g.has_edge_spec(e),
    ensures
        exists|q: int| 0 <= q < g.edge_seq().len() && #[trigger] g.edge_seq()[q] == e,
        g.contains_node(e.source),
        g.contains_node(e.target),
{
    let q = choose|q: int| 0 <= q < g.entries().len() && #[trigger] g.entries()[q].0 == e;
    assert(g.edge_seq()[q] == e);
    assert(g.contains_node(g.entries()[q].0.source));
    assert(g.contains_node(g.entries()[q].0.target));
}

proof fn lemma_mark(
    g: &Graph,
    start: Seq<bool>,
    in_tree: Seq<bool>,
    stack: Seq<NodeIndex>,
    done: Set<NodeIndex>,
    v: NodeIndex,
    w: NodeIndex,
)
    requires
        g.wf(),
        in_tree.len() == g.n(),
        g.contains_node(v),
        g.contains_node(w),
        marked(in_tree, v),
        !marked(in_tree, w),
        tight_link(g, v, w),
        forall|k: int| 0 <= k < g.n() && #[trigger] in_tree[k] ==> tightly_reached(g, start, g.node_at(k)),
        forall|k: int| 0 <= k < stack.len() ==> g.contains_node(#[trigger] stack[k]) && marked(in_tree, stack[k]),
        forall|k: int| 0 <= k < g.n() && #[trigger] in_tree[k] ==> done.contains(g.node_at(k)) || stack.contains(g.node_at(k))
            || g.node_at(k) == v,
        forall|x: NodeIndex| #[trigger] done.contains(x) ==> closed_at(g, in_tree, x),
    ensures
        ({
            let t = in_tree.update(w.node_index as int, true);
            let st = stack.push(w);
            &&& count_true(t) == count_true(in_tree) + 1
            &&& count_true(t) <= g.n()
            &&& forall|k: int| 0 <= k < g.n() && #[trigger] t[k] ==> tightly_reached(g, start, g.node_at(k))
            &&& forall|k: int| 0 <= k < st.len() ==> g.contains_node(#[trigger] st[k]) && marked(t, st[k])
            &&& forall|k: int| 0 <= k < g.n() && #[trigger] t[k] ==> done.contains(g.node_at(k)) || st.contains(g.node_at(k))
                || g.node_at(k) == v
            &&& forall|x: NodeIndex| #[trigger] done.contains(x) ==> closed_at(g, t, x)
            &&& forall|k: int| 0 <= k < g.n() && in_tree[k] ==> #[trigger] t[k]
            &&& marked(t, v)
            &&& forall|x: NodeIndex| marked(in_tree, x) ==> #[trigger] marked(t, x)
        }),
{
    let t = in_tree.update(w.node_index as int, true);
    let st = stack.push(w);
    lemma_count_true_set(in_tree, w.node_index as int);
    lemma_count_true_bound(t);
    assert(g.node_at(w.node_index as int) == w);
    assert(g.node_at(v.node_index as int) == v);
    lemma_extend_path(g, start, v, w);
    assert forall|k: int| 0 <= k < st.len() implies g.contains_node(#[trigger] st[k]) && marked(t, st[k]) by {
        if k < stack.len() {
            assert(st[k] == stack[k]);
        }
    }
    assert forall|k: int| 0 <= k < g.n() && #[trigger] t[k] implies done.contains(g.node_at(k)) || st.contains(g.node_at(k))
        || g.node_at(k) == v by {
        crate::order::init_order::lemma_contains_push_any(stack, w, g.node_at(k));
    }
    assert forall|x: NodeIndex| #[trigger] done.contains(x) implies closed_at(g, t, x) by {
        assert(closed_at(g, in_tree, x));
    }
}

proof fn lemma_closed_at(g: &Graph, in_tree: Seq<bool>, v: NodeIndex, outs: Seq<Edge>, ins: Seq<Edge>)
    requires
        g.wf(),
        marked(in_tree, v),
        outs == g.out_edges_spec(v),
        ins == g.in_edges_spec(v),
        forall|k: int| 0 <= k < outs.len() && slack_spec(g, #[trigger] outs[k]) == 0 ==> marked(in_tree, outs[k].target),
        forall|k: int| 0 <= k < ins.len() && slack_spec(g, #[trigger] ins[k]) == 0 ==> marked(in_tree, ins[k].source),
    ensures
        closed_at(g, in_tree, v),
{
    assert forall|k: int| 0 <= k < g.edge_seq().len() && slack_spec(g, #[trigger] g.edge_seq()[k]) == 0
        && (g.edge_seq()[k].source == v || g.edge_seq()[k].target == v) implies marked(in_tree, g.edge_seq()[k].source)
        && marked(in_tree, g.edge_seq()[k].target) by {
        let e = g.edge_seq()[k];
        assert(g.entries()[k].0 == e);
        if e.source == v {
            crate::graph::lemma_incident_contains(g.entries(), v, true, e);
            let q = choose|q: int| 0 <= q < outs.len() && outs[q] == e;
            assert(slack_spec(g, outs[q]) == 0);
        }
        if e.target == v {
            crate::graph::lemma_incident_contains(g.entries(), v, false, e);
            let q = choose|q: int| 0 <= q < ins.len() && ins[q] == e;
            assert(slack_spec(g, ins[q]) == 0);
        }
    }
}

/// Grows the tree by every node joined to it by a path of tight edges,
/// and returns its size.
pub fn tight_tree(graph: &Graph, in_tree: &mut Vec<bool>) -> (r: usize)
    requires
        graph.wf(),
        old(in_tree)@.len() == graph.n(),
        forall|i: int| 0 <= i < graph.edge_seq().len() ==> slack_fits(graph, #[trigger] graph.edge_seq()[i]),
    ensures
        final(in_tree)@.len() == graph.n(),
        r == count_true(final(in_tree)@),
        forall|i: int| 0 <= i < graph.n() && old(in_tree)@[i] ==> #[trigger] final(in_tree)@[i],
        forall|i: int| 0 <= i < graph.n() && #[trigger] final(in_tree)@[i] ==> tightly_reached(graph, old(in_tree)@, graph.node_at(i)),
        forall|i: int| 0 <= i < graph.edge_seq().len() && slack_spec(graph, #[trigger] graph.edge_seq()[i]) == 0
            ==> !crosses(final(in_tree)@, graph.edge_seq()[i]),
{
    let ghost start = in_tree@;
    let n = in_tree.len();
    let id = graph.graph_id();
    let mut stack: Vec<NodeIndex> = Vec::new();
    let mut count: usize = 0;
    let mut i: usize = 0;
    while i < n
        invariant
            n == in_tree@.len(),
            n == graph.n(),
            id == graph.id(),
            in_tree@ == start,
            i <= n,
            count == count_true(start.take(i as int)),
            forall|k: int| 0 <= k < stack@.len() ==> graph.contains_node(#[trigger] stack@[k]) && marked(in_tree@, stack@[k]),
            forall|k: int| 0 <= k < i && start[k] ==> stack@.contains(graph.node_at(k)),
        decreases n - i,
    {
        proof {
            assert(start.take(i + 1).drop_last() =~= start.take(i as int));
            lemma_count_true_bound(start.take(i as int));
        }
        let ghost st0 = stack@;
        if in_tree[i] {
            let v = NodeIndex { node_index: i, which_graph: id };
            stack.push(v);
            count += 1;
            proof {
                assert(stack@[stack@.len() - 1] == v);
                assert forall|k: int| 0 <= k < i + 1 && start[k] implies stack@.contains(graph.node_at(k)) by {
                    crate::order::init_order::lemma_contains_push_any(st0, v, graph.node_at(k));
                }
            }
        }
        i += 1;
    }
    proof {
        assert(start.take(n as int) =~= start);
        lemma_count_true_bound(start);
        assert forall|k: int| 0 <= k < n && #[trigger] start[k] implies tightly_reached(graph, start, graph.node_at(k)) by {
            let p = seq![graph.node_at(k)];
            assert(tight_path(graph, p));
        }
    }
    let ghost mut done: Set<NodeIndex> = Set::empty();
    while stack.len() > 0
        invariant
            graph.wf(),
            n == in_tree@.len(),
            n == graph.n(),
            id == graph.id(),
            forall|k: int| 0 <= k < graph.edge_seq().len() ==> slack_fits(graph, #[trigger] graph.edge_seq()[k]),
            count == count_true(in_tree@),
            count <= n,
            forall|k: int| 0 <= k < n && start[k] ==> #[trigger] in_tree@[k],
            forall|k: int| 0 <= k < n && #[trigger] in_tree@[k] ==> tightly_reached(graph, start, graph.node_at(k)),
            forall|k: int| 0 <= k < stack@.len() ==> graph.contains_node(#[trigger] stack@[k]) && marked(in_tree@, stack@[k]),
            forall|k: int| 0 <= k < n && #[trigger] in_tree@[k] ==> done.contains(graph.node_at(k)) || stack@.contains(graph.node_at(k)),
            forall|x: NodeIndex| #[trigger] done.contains(x) ==> closed_at(graph, in_tree@, x),
        decreases n - count, stack@.len(),
    {
        let ghost before = stack@;
        let v = stack.pop().unwrap();
        let ghost c0 = count;
        let ghost rest = stack@;
        proof {
            assert(rest.push(v) =~= before);
            assert(before[before.len() - 1] == v);
            assert(marked(in_tree@, v));
            lemma_incident_facts(graph, v);
            assert(graph.node_at(v.node_index as int) == v);
            assert forall|k: int| 0 <= k < n && #[trigger] in_tree@[k] implies done.contains(graph.node_at(k)) || stack@.contains(graph.node_at(k))
                || graph.node_at(k) == v by {
                crate::order::init_order::lemma_contains_push_any(rest, v, graph.node_at(k));
            }
        }
        let outs = graph.out_edges(v);
        let mut j: usize = 0;
        while j < outs.len()
            invariant
                graph.wf(),
                n == in_tree@.len(),
                n == graph.n(),
                id == graph.id(),
                graph.contains_node(v),
                marked(in_tree@, v),
                outs@ == graph.out_edges_spec(v),
                forall|k: int| 0 <= k < graph.out_edges_spec(v).len() ==> graph.has_edge_spec(#[trigger] graph.out_edges_spec(v)[k]) && graph.out_edges_spec(v)[k].source == v,
                forall|k: int| 0 <= k < graph.edge_seq().len() ==> slack_fits(graph, #[trigger] graph.edge_seq()[k]),
                j <= outs@.len(),
                count == count_true(in_tree@),
                count <= n,
                c0 <= count,
                count == c0 ==> stack@ == rest,
                forall|k: int| 0 <= k < n && start[k] ==> #[trigger] in_tree@[k],
                forall|k: int| 0 <= k < n && #[trigger] in_tree@[k] ==> tightly_reached(graph, start, graph.node_at(k)),
                forall|k: int| 0 <= k < stack@.len() ==> graph.contains_node(#[trigger] stack@[k]) && marked(in_tree@, stack@[k]),
                forall|k: int| 0 <= k < n && #[trigger] in_tree@[k] ==> done.contains(graph.node_at(k)) || stack@.contains(graph.node_at(k))
                    || graph.node_at(k) == v,
                forall|x: NodeIndex| #[trigger] done.contains(x) ==> closed_at(graph, in_tree@, x),
                forall|k: int| 0 <= k < j && slack_spec(graph, #[trigger] outs@[k]) == 0 ==> marked(in_tree@, outs@[k].target),
            decreases outs@.len() - j,
        {
            let e = outs[j];
            let w = e.target;
            proof {
                lemma_edge_in_seq(graph, e);
            }
            if !in_tree[w.node_index] && slack(graph, &e) == 0 {
                proof {
                    lemma_mark(graph, start, in_tree@, stack@, done, v, w);
                }
                in_tree.set(w.node_index, true);
                count += 1;
                stack.push(w);
            }
            j += 1;
        }
        let ins = graph.in_edges(v);
        let mut j: usize = 0;
        while j < ins.len()
            invariant
                graph.wf(),
                n == in_tree@.len(),
                n == graph.n(),
                id == graph.id(),
                graph.contains_node(v),
                marked(in_tree@, v),
                outs@ == graph.out_edges_spec(v),
                ins@ == graph.in_edges_spec(v),
                forall|k: int| 0 <= k < graph.in_edges_spec(v).len() ==> graph.has_edge_spec(#[trigger] graph.in_edges_spec(v)[k]) && graph.in_edges_spec(v)[k].target == v,
                forall|k: int| 0 <= k < graph.edge_seq().len() ==> slack_fits(graph, #[trigger] graph.edge_seq()[k]),
                j <= ins@.len(),
                count == count_true(in_tree@),
                count <= n,
                c0 <= count,
                count == c0 ==> stack@ == rest,
                forall|k: int| 0 <= k < n && start[k] ==> #[trigger] in_tree@[k],
                forall|k: int| 0 <= k < n && #[trigger] in_tree@[k] ==> tightly_reached(graph, start, graph.node_at(k)),
                forall|k: int| 0 <= k < stack@.len() ==> graph.contains_node(#[trigger] stack@[k]) && marked(in_tree@, stack@[k]),
                forall|k: int| 0 <= k < n && #[trigger] in_tree@[k] ==> done.contains(graph.node_at(k)) || stack@.contains(graph.node_at(k))
                    || graph.node_at(k) == v,
                forall|x: NodeIndex| #[trigger] done.contains(x) ==> closed_at(graph, in_tree@, x),
                forall|k: int| 0 <= k < outs@.len() && slack_spec(graph, #[trigger] outs@[k]) == 0 ==> marked(in_tree@, outs@[k].target),
                forall|k: int| 0 <= k < j && slack_spec(graph, #[trigger] ins@[k]) == 0 ==> marked(in_tree@, ins@[k].source),
            decreases ins@.len() - j,
        {
            let e = ins[j];
            let w = e.source;
            proof {
                lemma_edge_in_seq(graph, e);
            }
            if !in_tree[w.node_index] && slack(graph, &e) == 0 {
                proof {
                    lemma_mark(graph, start, in_tree@, stack@, done, v, w);
                }
                in_tree.set(w.node_index, true);
                count += 1;
                stack.push(w);
            }
            j += 1;
        }
        proof {
            lemma_closed_at(graph, in_tree@, v, outs@, ins@);
            done = done.insert(v);
        }
    }
    proof {
        assert forall|k: int| 0 <= k < graph.edge_seq().len() && slack_spec(graph, #[trigger] graph.edge_seq()[k]) == 0
            implies !crosses(in_tree@, graph.edge_seq()[k]) by {
            let e = graph.edge_seq()[k];
            assert(graph.entries()[k].0 == e);
            assert(graph.contains_node(graph.entries()[k].0.source));
            assert(graph.contains_node(graph.entries()[k].0.target));
            assert(graph.node_at(e.source.node_index as int) == e.source);
            assert(graph.node_at(e.target.node_index as int) == e.target);
            if marked(in_tree@, e.source) {
                assert(done.contains(e.source));
            }
            if marked(in_tree@, e.target) {
                assert(done.contains(e.target));
            }
        }
        lemma_count_true_bound(in_tree@);
    }
    count
}

/// `g` is `g0` with only the cut values of its edges changed, edge by
/// edge in the same positions.
pub open spec fn same_but_cut(g0: &Graph, g: &Graph) -> bool {
    &&& g.wf()
    &&& g.n() == g0.n()
    &&& g.id() == g0.id()
    &&& g.config_spec() == g0.config_spec()
    &&& g.node_seq() == g0.node_seq()
    &&& g.entries().len() == g0.entries().len()
    &&& forall|i: int| 0 <= i < g.entries().len() ==> (#[trigger] g.entries()[i]).0 == g0.entries()[i].0
        && g.entries()[i].1 == (EdgeLabel { cutvalue: g.entries()[i].1.cutvalue, ..g0.entries()[i].1 })
}

proof fn lemma_incident_keys(s1: Seq<(Edge, EdgeLabel)>, s2: Seq<(Edge, EdgeLabel)>, v: NodeIndex, out: bool)
    requires
        s1.len() == s2.len(),
        forall|i: int| 0 <= i < s1.len() ==> (#[trigger] s1[i]).0 == s2[i].0,
    ensures
        crate::graph::incident(s1, v, out) == crate::graph::incident(s2, v, out),
    decreases s1.len(),
{
    if s1.len() > 0 {
        assert forall|i: int| 0 <= i < s1.drop_first().len() implies (#[trigger] s1.drop_first()[i]).0 == s2.drop_first()[i].0 by {
            assert(s1[i + 1].0 == s2[i + 1].0);
        }
        lemma_incident_keys(s1.drop_first(), s2.drop_first(), v, out);
        assert(s1[0].0 == s2[0].0);
    }
}

/// What `same_but_cut` keeps: edges, their labels but for the cut value,
/// incident edges, slacks.
proof fn lemma_same_but_cut(g0: &Graph, g: &Graph)
    requires
        g0.wf(),
        same_but_cut(g0, g),
    ensures
        g.edge_seq() == g0.edge_seq(),
        forall|e: Edge| #[trigger] g.has_edge_spec(e) == g0.has_edge_spec(e),
        forall|e: Edge| g0.has_edge_spec(e) ==> #[trigger] g.edge_label_spec(e) == (EdgeLabel { cutvalue: g.edge_label_spec(e).cutvalue, ..g0.edge_label_spec(e) }),
        forall|v: NodeIndex| #[trigger] g.out_edges_spec(v) == g0.out_edges_spec(v),
        forall|v: NodeIndex| #[trigger] g.in_edges_spec(v) == g0.in_edges_spec(v),
        forall|e: Edge| #[trigger] slack_spec(g, e) == slack_spec(g0, e),
{
    let s = g.entries();
    let s0 = g0.entries();
    assert(g.edge_seq() =~= g0.edge_seq());
    assert forall|e: Edge| #[trigger] g.has_edge_spec(e) == g0.has_edge_spec(e) by {
        if has_key(s, e) {
            let i = choose|i: int| 0 <= i < s.len() && #[trigger] s[i].0 == e;
            assert(s0[i].0 == e);
        }
        if has_key(s0, e) {
            let i = choose|i: int| 0 <= i < s0.len() && #[trigger] s0[i].0 == e;
            assert(s[i].0 == e);
        }
    }
    assert forall|e: Edge| g0.has_edge_spec(e) implies #[trigger] g.edge_label_spec(e) == (EdgeLabel { cutvalue: g.edge_label_spec(e).cutvalue, ..g0.edge_label_spec(e) }) by {
        let p = key_pos(s0, e);
        assert(s0[p].0 == e);
        assert(s[p].0 == e);
        crate::graph::lemma_key_pos_unique(s, e, p);
    }
    assert forall|v: NodeIndex| #[trigger] g.out_edges_spec(v) == g0.out_edges_spec(v) by {
        lemma_incident_keys(s, s0, v, true);
    }
    assert forall|v: NodeIndex| #[trigger] g.in_edges_spec(v) == g0.in_edges_spec(v) by {
        lemma_incident_keys(s, s0, v, false);
    }
    assert forall|e: Edge| #[trigger] slack_spec(g, e) == slack_spec(g0, e) by {
        if g0.has_edge_spec(e) {
            assert(g.edge_label_spec(e).minlen == g0.edge_label_spec(e).minlen);
        }
    }
}

/// `w` is joined to `start` by a tight path through nodes of the tree.
pub open spec fn tree_reached(g: &Graph, in_tree: Seq<bool>, start: NodeIndex, w: NodeIndex) -> bool {
    exists|p: Seq<NodeIndex>| #[trigger] tight_path(g, p) && p[0] == start && p.last() == w
        && forall|k: int| 0 <= k < p.len() ==> marked(in_tree, #[trigger] p[k])
}

/// The edge between `p` and `w`, in either direction, is marked as a tree
/// edge (cut value 0).
pub open spec fn marked_between(g: &Graph, p: NodeIndex, w: NodeIndex) -> bool {
    (g.has_edge_spec(edge_of(p, w)) && g.edge_label_spec(edge_of(p, w)).cutvalue == Some(0i32)) || (g.has_edge_spec(
        edge_of(w, p),
    ) && g.edge_label_spec(edge_of(w, p)).cutvalue == Some(0i32))
}

/// Clears every cut value.
fn clear_cut_values(graph: &mut Graph)
    requires
        old(graph).wf(),
    ensures
        same_but_cut(&*old(graph), &*final(graph)),
        forall|i: int| 0 <= i < final(graph).entries().len() ==> (#[trigger] final(graph).entries()[i]).1.cutvalue is None,
{
    let ghost g0 = *graph;
    let es = graph.edges();
    let mut i: usize = 0;
    while i < es.len()
        invariant
            g0.wf(),
            es@ == g0.edge_seq(),
            i <= es@.len(),
            same_but_cut(&g0, graph),
            forall|k: int| 0 <= k < i ==> (#[trigger] graph.entries()[k]).1.cutvalue is None,
        decreases es@.len() - i,
    {
        let e = es[i];
        let ghost gb = *graph;
        proof {
            assert(gb.entries()[i as int].0 == e);
            crate::graph::lemma_key_pos_unique(gb.entries(), e, i as int);
        }
        if let Some(l) = graph.edge_label_mut(&e) {
            l.cutvalue = None;
        }
        proof {
            lemma_relabel_edge(&gb, graph, e, EdgeLabel { cutvalue: None, ..gb.edge_label_spec(e) });
            assert forall|k: int| 0 <= k < graph.entries().len() implies (#[trigger] graph.entries()[k]).0 == g0.entries()[k].0
                && graph.entries()[k].1 == (EdgeLabel { cutvalue: graph.entries()[k].1.cutvalue, ..g0.entries()[k].1 }) by {
                assert(gb.entries()[k].0 == g0.entries()[k].0);
            }
        }
        i += 1;
    }
}

/// The edges at `v`: its out edges, then its in edges.
pub open spec fn degree(g: &Graph, v: NodeIndex) -> int {
    (g.out_edges_spec(v).len() + g.in_edges_spec(v).len()) as int
}

/// The `k`-th edge at `v`.
pub open spec fn frame_edge(g: &Graph, v: NodeIndex, k: int) -> Edge {
    if k < g.out_edges_spec(v).len() {
        g.out_edges_spec(v)[k]
    } else {
        g.in_edges_spec(v)[k - g.out_edges_spec(v).len()]
    }
}

/// The node at the other end of the `k`-th edge at `v`.
pub open spec fn frame_other(g: &Graph, v: NodeIndex, k: int) -> NodeIndex {
    if k < g.out_edges_spec(v).len() {
        frame_edge(g, v, k).target
    } else {
        frame_edge(g, v, k).source
    }
}

/// The state of the tree search: the visited flags, the parent found for
/// each node, and the stack of nodes with the position of the next edge to
/// look at.
pub type DfsState = (Seq<bool>, Seq<Option<NodeIndex>>, Seq<(NodeIndex, usize)>);

/// The search begins at `start`, visited, with nothing else found.
pub open spec fn dfs_start(g: &Graph, start: NodeIndex) -> DfsState {
    (
        Seq::new(g.n(), |i: int| i == start.node_index as int),
        Seq::new(g.n(), |i: int| None::<NodeIndex>),
        seq![(start, 0usize)],
    )
}

/// One step of the tree search: the node on top of the stack looks at its
/// next edge (its out edges first, then its in edges); when that edge is
/// tight and leads to an unvisited tree node, that node is visited, gets the
/// top node as parent, and is pushed. A node with no edge left is popped.
pub open spec fn dfs_step(g: &Graph, in_tree: Seq<bool>, s: DfsState) -> DfsState {
    let (vis, par, st) = s;
    if st.len() == 0 {
        s
    } else {
        let v = st.last().0;
        let k = st.last().1 as int;
        if k < degree(g, v) {
            let e = frame_edge(g, v, k);
            let w = frame_other(g, v, k);
            let st1 = st.update(st.len() - 1, (v, (k + 1) as usize));
            if marked(in_tree, w) && !marked(vis, w) && slack_spec(g, e) == 0 {
                (vis.update(w.node_index as int, true), par.update(w.node_index as int, Some(v)), st1.push((w, 0usize)))
            } else {
                (vis, par, st1)
            }
        } else {
            (vis, par, st.drop_last())
        }
    }
}

/// The state after `steps` steps of the tree search from `s`.
pub open spec fn dfs_run(g: &Graph, in_tree: Seq<bool>, s: DfsState, steps: nat) -> DfsState
    decreases steps,
{
    if steps == 0 {
        s
    } else {
        dfs_run(g, in_tree, dfs_step(g, in_tree, s), (steps - 1) as nat)
    }
}

proof fn lemma_dfs_run_next(g: &Graph, in_tree: Seq<bool>, s: DfsState, steps: nat)
    ensures
        dfs_run(g, in_tree, s, steps + 1) == dfs_step(g, in_tree, dfs_run(g, in_tree, s, steps)),
    decreases steps,
{
    if steps > 0 {
        lemma_dfs_run_next(g, in_tree, dfs_step(g, in_tree, s), (steps - 1) as nat);
        assert(dfs_run(g, in_tree, s, steps) == dfs_run(g, in_tree, dfs_step(g, in_tree, s), (steps - 1) as nat));
    } else {
        assert(dfs_run(g, in_tree, dfs_step(g, in_tree, s), 0) == dfs_step(g, in_tree, s));
    }
}

proof fn lemma_dfs_run_same(ga: &Graph, gb: &Graph, in_tree: Seq<bool>, s: DfsState, steps: nat)
    requires
        forall|v: NodeIndex| #[trigger] gb.out_edges_spec(v) == ga.out_edges_spec(v),
        forall|v: NodeIndex| #[trigger] gb.in_edges_spec(v) == ga.in_edges_spec(v),
        forall|e: Edge| #[trigger] slack_spec(gb, e) == slack_spec(ga, e),
    ensures
        dfs_run(ga, in_tree, s, steps) == dfs_run(gb, in_tree, s, steps),
    decreases steps,
{
    if steps > 0 {
        if s.2.len() > 0 {
            let v = s.2.last().0;
            assert(gb.out_edges_spec(v) == ga.out_edges_spec(v));
            assert(gb.in_edges_spec(v) == ga.in_edges_spec(v));
            let k = s.2.last().1 as int;
            if k < degree(ga, v) {
                assert(slack_spec(gb, frame_edge(ga, v, k)) == slack_spec(ga, frame_edge(ga, v, k)));
            }
        }
        assert(dfs_step(ga, in_tree, s) == dfs_step(gb, in_tree, s));
        lemma_dfs_run_same(ga, gb, in_tree, dfs_step(ga, in_tree, s), (steps - 1) as nat);
    }
}

/// The `k`-th edge at `x`, when tight and leading to a tree node, leads
/// to a visited node.
pub open spec fn handled(g: &Graph, in_tree: Seq<bool>, vis: Seq<bool>, x: NodeIndex, k: int) -> bool {
    slack_spec(g, frame_edge(g, x, k)) == 0 && marked(in_tree, frame_other(g, x, k)) ==> marked(vis, frame_other(g, x, k))
}

/// Every edge at `x` is handled.
pub open spec fn closed_tree_at(g: &Graph, in_tree: Seq<bool>, vis: Seq<bool>, x: NodeIndex) -> bool {
    forall|k: int| 0 <= k < degree(g, x) ==> #[trigger] handled(g, in_tree, vis, x, k)
}

/// The work left on a search stack: for each frame, the edges still to look
/// at, plus one.
pub open spec fn stack_work(g: &Graph, st: Seq<(NodeIndex, usize)>) -> int
    decreases st.len(),
{
    if st.len() == 0 {
        0
    } else {
        stack_work(g, st.drop_last()) + degree(g, st.last().0) + 1 - st.last().1
    }
}

proof fn lemma_stack_work_nonneg(g: &Graph, st: Seq<(NodeIndex, usize)>)
    requires
        forall|f: int| 0 <= f < st.len() ==> (#[trigger] st[f]).1 <= degree(g, st[f].0),
    ensures
        stack_work(g, st) >= 0,
    decreases st.len(),
{
    if st.len() > 0 {
        assert forall|f: int| 0 <= f < st.drop_last().len() implies (#[trigger] st.drop_last()[f]).1 <= degree(g, st.drop_last()[f].0) by {
            assert(st.drop_last()[f] == st[f]);
        }
        lemma_stack_work_nonneg(g, st.drop_last());
    }
}

/// A tight path through tree nodes from a visited node stays visited when
/// every visited node is closed.
proof fn lemma_closed_reach(g: &Graph, in_tree: Seq<bool>, vis: Seq<bool>, p: Seq<NodeIndex>)
    requires
        g.wf(),
        tight_path(g, p),
        marked(vis, p[0]),
        forall|k: int| 0 <= k < p.len() ==> marked(in_tree, #[trigger] p[k]),
        forall|x: NodeIndex| g.contains_node(x) && #[trigger] marked(vis, x) ==> closed_tree_at(g, in_tree, vis, x),
    ensures
        marked(vis, p.last()),
    decreases p.len(),
{
    if p.len() > 1 {
        let q = p.drop_last();
        assert forall|k: int| 0 <= k < q.len() implies g.contains_node(#[trigger] q[k]) by {
            assert(q[k] == p[k]);
        }
        assert forall|k: int| 0 <= k < q.len() - 1 implies tight_link(g, #[trigger] q[k], q[k + 1]) by {
            assert(q[k] == p[k] && q[k + 1] == p[k + 1]);
        }
        assert forall|k: int| 0 <= k < q.len() implies marked(in_tree, #[trigger] q[k]) by {
            assert(q[k] == p[k]);
        }
        lemma_closed_reach(g, in_tree, vis, q);
        let x = p[p.len() - 2];
        let w = p.last();
        assert(q.last() == x);
        assert(tight_link(g, x, w));
        assert(g.contains_node(x));
        assert(closed_tree_at(g, in_tree, vis, x));
        lemma_incident_facts(g, x);
        if g.has_edge_spec(edge_of(x, w)) && slack_spec(g, edge_of(x, w)) == 0 {
            crate::graph::lemma_incident_contains(g.entries(), x, true, edge_of(x, w));
            let q0 = choose|q0: int| 0 <= q0 < g.entries().len() && #[trigger] g.entries()[q0].0 == edge_of(x, w);
            assert(g.out_edges_spec(x).contains(edge_of(x, w)));
            let j = choose|j: int| 0 <= j < g.out_edges_spec(x).len() && g.out_edges_spec(x)[j] == edge_of(x, w);
            assert(handled(g, in_tree, vis, x, j));
        } else {
            assert(g.has_edge_spec(edge_of(w, x)) && slack_spec(g, edge_of(w, x)) == 0);
            crate::graph::lemma_incident_contains(g.entries(), x, false, edge_of(w, x));
            let q0 = choose|q0: int| 0 <= q0 < g.entries().len() && #[trigger] g.entries()[q0].0 == edge_of(w, x);
            assert(g.in_edges_spec(x).contains(edge_of(w, x)));
            let j = choose|j: int| 0 <= j < g.in_edges_spec(x).len() && g.in_edges_spec(x)[j] == edge_of(w, x);
            let jj = j + g.out_edges_spec(x).len();
            assert(frame_edge(g, x, jj) == edge_of(w, x));
            assert(handled(g, in_tree, vis, x, jj));
        }
    }
}

/// `e` joins some node reached by the search to the node it was reached from.
pub open spec fn joins_child_to_parent(g1: &Graph, par: Seq<Option<NodeIndex>>, e: Edge) -> bool {
    exists|j: int| 0 <= j < g1.n() && (#[trigger] par[j]) is Some && (e == edge_of(par[j]->0, g1.node_at(j)) || e
        == edge_of(g1.node_at(j), par[j]->0))
}

/// The state of the tree search is sound: see `mark_tight_tree`.
pub open spec fn search_ok(
    g1: &Graph,
    g: &Graph,
    in_tree: Seq<bool>,
    start: NodeIndex,
    vis: Seq<bool>,
    par: Seq<Option<NodeIndex>>,
) -> bool {
    &&& g1.wf()
    &&& same_but_cut(g1, g)
    &&& vis.len() == g1.n()
    &&& par.len() == g1.n()
    &&& in_tree.len() == g1.n()
    &&& g1.contains_node(start)
    &&& marked(vis, start)
    &&& par[start.node_index as int] is None
    &&& forall|i: int| 0 <= i < g1.n() && #[trigger] vis[i] ==> in_tree[i]
    &&& forall|i: int| 0 <= i < g1.n() && #[trigger] vis[i] ==> tree_reached(g1, in_tree, start, g1.node_at(i))
    &&& forall|i: int| 0 <= i < g.entries().len() ==> ((#[trigger] g.entries()[i]).1.cutvalue is None || (
        g.entries()[i].1.cutvalue == Some(0i32) && slack_spec(g1, g1.entries()[i].0) == 0 && marked(vis, g1.entries()[i].0.source)
            && marked(vis, g1.entries()[i].0.target)))
    &&& forall|i: int| 0 <= i < g1.n() && (#[trigger] par[i]) is Some ==> vis[i] && g1.node_at(i) != start
        && g1.contains_node(par[i]->0) && marked(vis, par[i]->0) && marked_between(g, par[i]->0, g1.node_at(i))
    &&& forall|i: int| 0 <= i < g1.n() && #[trigger] vis[i] && g1.node_at(i) != start ==> par[i] is Some
    &&& forall|i: int| 0 <= i < g.entries().len() && (#[trigger] g.entries()[i]).1.cutvalue is Some
        ==> joins_child_to_parent(g1, par, g1.entries()[i].0)
}

/// The stack of the tree search is sound: every frame holds a visited node
/// whose edges before its position are handled, and every visited node is
/// closed or on the stack.
pub open spec fn stack_ok(g1: &Graph, in_tree: Seq<bool>, vis: Seq<bool>, st: Seq<(NodeIndex, usize)>) -> bool {
    &&& forall|f: int| 0 <= f < st.len() ==> g1.contains_node((#[trigger] st[f]).0) && marked(vis, st[f].0)
        && st[f].1 <= degree(g1, st[f].0)
    &&& forall|f: int, j: int| 0 <= f < st.len() && 0 <= j < (#[trigger] st[f]).1 ==> #[trigger] handled(g1, in_tree, vis, st[f].0, j)
    &&& forall|i: int| 0 <= i < g1.n() && #[trigger] vis[i] ==> closed_tree_at(g1, in_tree, vis, g1.node_at(i))
        || exists|f: int| 0 <= f < st.len() && (#[trigger] st[f]).0 == g1.node_at(i)
}

/// Visiting `w` from `v` over the tight edge `e` keeps the search sound.
proof fn lemma_visit(
    g1: &Graph,
    g: &Graph,
    g2: &Graph,
    in_tree: Seq<bool>,
    start: NodeIndex,
    vis: Seq<bool>,
    par: Seq<Option<NodeIndex>>,
    v: NodeIndex,
    w: NodeIndex,
    e: Edge,
)
    requires
        search_ok(g1, g, in_tree, start, vis, par),
        g1.contains_node(v),
        marked(vis, v),
        g1.contains_node(w),
        !marked(vis, w),
        marked(in_tree, w),
        e == edge_of(v, w) || e == edge_of(w, v),
        g1.has_edge_spec(e),
        slack_spec(g1, e) == 0,
        g2.entries() == g.entries().update(key_pos(g.entries(), e), (e, EdgeLabel { cutvalue: Some(0i32), ..g.edge_label_spec(e) })),
        g2.n() == g.n(),
        g2.id() == g.id(),
        g2.config_spec() == g.config_spec(),
        g2.node_seq() == g.node_seq(),
    ensures
        search_ok(
            g1,
            g2,
            in_tree,
            start,
            vis.update(w.node_index as int, true),
            par.update(w.node_index as int, Some(v)),
        ),
{
    lemma_same_but_cut(g1, g);
    assert(g.has_edge_spec(e));
    lemma_relabel_edge(g, g2, e, EdgeLabel { cutvalue: Some(0i32), ..g.edge_label_spec(e) });
    let vis2 = vis.update(w.node_index as int, true);
    let par2 = par.update(w.node_index as int, Some(v));
    let p = key_pos(g.entries(), e);
    assert(g.entries()[p].0 == e);
    assert(g1.entries()[p].0 == e);
    assert(g1.node_at(w.node_index as int) == w);
    assert(g1.node_at(v.node_index as int) == v);
    assert forall|i: int| 0 <= i < g2.entries().len() implies (#[trigger] g2.entries()[i]).0 == g1.entries()[i].0
        && g2.entries()[i].1 == (EdgeLabel { cutvalue: g2.entries()[i].1.cutvalue, ..g1.entries()[i].1 }) by {
        assert(g.entries()[i].0 == g1.entries()[i].0);
    }
    assert(same_but_cut(g1, g2));
    assert forall|i: int| 0 <= i < g2.entries().len() implies ((#[trigger] g2.entries()[i]).1.cutvalue is None || (
        g2.entries()[i].1.cutvalue == Some(0i32) && slack_spec(g1, g1.entries()[i].0) == 0 && marked(vis2, g1.entries()[i].0.source)
            && marked(vis2, g1.entries()[i].0.target))) by {
        if i != p {
            assert(g.entries()[i] == g2.entries()[i]);
        }
    }
    assert forall|i: int| 0 <= i < g2.entries().len() && (#[trigger] g2.entries()[i]).1.cutvalue is Some
        implies joins_child_to_parent(g1, par2, g1.entries()[i].0) by {
        if i == p {
            let j = w.node_index as int;
            assert(par2[j] == Some(v));
            assert(g1.entries()[i].0 == e);
        } else {
            assert(g.entries()[i] == g2.entries()[i]);
            let j = choose|j: int| 0 <= j < g1.n() && (#[trigger] par[j]) is Some && (g1.entries()[i].0 == edge_of(
                par[j]->0,
                g1.node_at(j),
            ) || g1.entries()[i].0 == edge_of(g1.node_at(j), par[j]->0));
            assert(vis[j]);
            assert(j != w.node_index);
            assert(par2[j] == par[j]);
        }
    }
    assert forall|i: int| 0 <= i < g1.n() && #[trigger] vis2[i] implies tree_reached(g1, in_tree, start, g1.node_at(i)) by {
        if i == w.node_index {
            assert(vis[v.node_index as int]);
            let pv = choose|pv: Seq<NodeIndex>| #[trigger] tight_path(g1, pv) && pv[0] == start && pv.last() == g1.node_at(
                v.node_index as int,
            ) && forall|k: int| 0 <= k < pv.len() ==> marked(in_tree, #[trigger] pv[k]);
            let q = pv.push(w);
            assert(tight_link(g1, v, w));
            assert forall|k: int| 0 <= k < q.len() - 1 implies tight_link(g1, #[trigger] q[k], q[k + 1]) by {
                if k < pv.len() - 1 {
                    assert(q[k] == pv[k] && q[k + 1] == pv[k + 1]);
                } else {
                    assert(q[k] == v && q[k + 1] == w);
                }
            }
            assert forall|k: int| 0 <= k < q.len() implies g1.contains_node(#[trigger] q[k]) by {
                if k < pv.len() {
                    assert(q[k] == pv[k]);
                }
            }
            assert forall|k: int| 0 <= k < q.len() implies marked(in_tree, #[trigger] q[k]) by {
                if k < pv.len() {
                    assert(q[k] == pv[k]);
                }
            }
            assert(tight_path(g1, q));
            assert(q[0] == start);
        }
    }
    assert forall|i: int| 0 <= i < g1.n() && (#[trigger] par2[i]) is Some implies vis2[i] && g1.node_at(i) != start
        && g1.contains_node(par2[i]->0) && marked(vis2, par2[i]->0) && marked_between(g2, par2[i]->0, g1.node_at(i)) by {
        if i != w.node_index {
            let q = par[i]->0;
            let x = g1.node_at(i);
            assert(marked_between(g, q, x));
            if g.has_edge_spec(edge_of(q, x)) && g.edge_label_spec(edge_of(q, x)).cutvalue == Some(0i32) {
                if edge_of(q, x) != e {
                    assert(g2.edge_label_spec(edge_of(q, x)) == g.edge_label_spec(edge_of(q, x)));
                }
            } else {
                if edge_of(x, q) != e {
                    assert(g2.edge_label_spec(edge_of(x, q)) == g.edge_label_spec(edge_of(x, q)));
                }
            }
        } else {
            assert(marked_between(g2, v, w));
        }
    }
}

/// Every node with a parent in `par` was reached after its parent, by the
/// numbers `disc`: no chain of parents closes a cycle.
pub open spec fn reached_before(disc: Seq<int>, par: Seq<Option<NodeIndex>>) -> bool {
    &&& disc.len() == par.len()
    &&& forall|i: int| 0 <= i < par.len() && (#[trigger] par[i]) is Some ==> par[i]->0.node_index < par.len()
        && disc[par[i]->0.node_index as int] < disc[i]
}

/// Marks, with cut value 0, the edges of a depth-first search from `start`
/// along tight edges within the tree, and returns which nodes it reached
/// and the node each was reached from. Every reached node is joined to
/// `start` by a tight path through tree nodes, and every such node is
/// reached.
fn mark_tight_tree(graph: &mut Graph, in_tree: &Vec<bool>, start: NodeIndex) -> (r: (Vec<bool>, Vec<Option<NodeIndex>>))
    requires
        old(graph).wf(),
        in_tree@.len() == old(graph).n(),
        old(graph).contains_node(start),
        marked(in_tree@, start),
        old(graph).entries().len() < usize::MAX / 2,
        forall|i: int| 0 <= i < old(graph).edge_seq().len() ==> slack_fits(&*old(graph), #[trigger] old(graph).edge_seq()[i]),
        forall|i: int| 0 <= i < old(graph).entries().len() ==> (#[trigger] old(graph).entries()[i]).1.cutvalue is None,
    ensures
        search_ok(&*old(graph), &*final(graph), in_tree@, start, r.0@, r.1@),
        forall|i: int| 0 <= i < old(graph).n() ==> (#[trigger] r.0@[i] <==> tree_reached(&*old(graph), in_tree@, start, old(graph).node_at(i))),
        exists|disc: Seq<int>| #[trigger] reached_before(disc, r.1@),
        exists|steps: nat| #[trigger] dfs_run(&*old(graph), in_tree@, dfs_start(&*old(graph), start), steps) == (
            r.0@,
            r.1@,
            Seq::<(NodeIndex, usize)>::empty(),
        ),
{
    let ghost g1 = *graph;
    let n = graph.node_count();
    let mut vis: Vec<bool> = Vec::new();
    let mut par: Vec<Option<NodeIndex>> = Vec::new();
    let mut i: usize = 0;
    while i < n
        invariant
            i <= n,
            vis@.len() == i,
            par@.len() == i,
            forall|k: int| 0 <= k < i ==> !(#[trigger] vis@[k]),
            forall|k: int| 0 <= k < i ==> (#[trigger] par@[k]) is None,
        decreases n - i,
    {
        vis.push(false);
        par.push(None);
        i += 1;
    }
    proof {
        assert(vis@ =~= Seq::new(n as nat, |k: int| false));
        lemma_count_true_zero(vis@);
        lemma_count_true_set(vis@, start.node_index as int);
        lemma_count_true_bound(vis@.update(start.node_index as int, true));
    }
    vis.set(start.node_index, true);
    let mut cnt: usize = 1;
    let ghost mut disc: Seq<int> = Seq::new(n as nat, |i: int| 0);
    let mut stack: Vec<(NodeIndex, usize)> = Vec::new();
    stack.push((start, 0));
    let ghost mut steps: nat = 0;
    proof {
        assert(vis@ =~= dfs_start(&g1, start).0);
        assert(par@ =~= dfs_start(&g1, start).1);
        assert(stack@ =~= dfs_start(&g1, start).2);
        lemma_same_but_cut_refl(&g1);
        assert(g1.node_at(start.node_index as int) == start);
        assert forall|k: int| 0 <= k < g1.n() && #[trigger] vis@[k] implies tree_reached(&g1, in_tree@, start, g1.node_at(k)) by {
            let pth = seq![start];
            assert(tight_path(&g1, pth));
            assert(k == start.node_index);
        }
        assert forall|k: int| 0 <= k < g1.n() && #[trigger] vis@[k] implies closed_tree_at(&g1, in_tree@, vis@, g1.node_at(k))
            || exists|f: int| 0 <= f < stack@.len() && (#[trigger] stack@[f]).0 == g1.node_at(k) by {
            assert(k == start.node_index);
            assert(stack@[0].0 == g1.node_at(k));
        }
    }
    while stack.len() > 0
        invariant
            search_ok(&g1, graph, in_tree@, start, vis@, par@),
            stack_ok(&g1, in_tree@, vis@, stack@),
            n == g1.n(),
            g1.entries().len() < usize::MAX / 2,
            forall|k: int| 0 <= k < g1.edge_seq().len() ==> slack_fits(&g1, #[trigger] g1.edge_seq()[k]),
            cnt == count_true(vis@),
            cnt <= n,
            reached_before(disc, par@),
            forall|i: int| 0 <= i < n && #[trigger] vis@[i] ==> 0 <= disc[i] < cnt,
            dfs_run(&g1, in_tree@, dfs_start(&g1, start), steps) == (vis@, par@, stack@),
        decreases n - cnt, stack_work(&g1, stack@),
    {
        let top = stack.len() - 1;
        let (v, k) = stack[top];
        let ghost st0 = stack@;
        let ghost vis0 = vis@;
        let ghost par00 = par@;
        proof {
            lemma_dfs_run_next(&g1, in_tree@, dfs_start(&g1, start), steps);
            assert(st0.last() == (v, k));
        }
        proof {
            lemma_same_but_cut(&g1, graph);
            lemma_incident_facts(&g1, v);
            lemma_incident_len(g1.entries(), v, true);
            lemma_incident_len(g1.entries(), v, false);
            lemma_stack_work_nonneg(&g1, stack@);
            assert(st0[top as int] == (v, k));
            assert(g1.contains_node(v));
        }
        let outs = graph.out_edges(v);
        let ins = graph.in_edges(v);
        if k < outs.len() || k - outs.len() < ins.len() {
            let e = if k < outs.len() {
                outs[k]
            } else {
                ins[k - outs.len()]
            };
            let w = if k < outs.len() {
                e.target
            } else {
                e.source
            };
            proof {
                assert(e == frame_edge(&g1, v, k as int));
                assert(w == frame_other(&g1, v, k as int));
                let q = choose|q: int| 0 <= q < g1.entries().len() && #[trigger] g1.entries()[q].0 == e;
                assert(g1.edge_seq()[q] == e);
                assert(g1.contains_node(g1.entries()[q].0.source));
                assert(g1.contains_node(g1.entries()[q].0.target));
                lemma_stack_work_update(&g1, st0, (v, (k + 1) as usize));
            }
            stack.set(top, (v, k + 1));
            if in_tree[w.node_index] && !vis[w.node_index] && slack(graph, &e) == 0 {
                let ghost gb = *graph;
                let ghost par0 = par@;
                proof {
                    lemma_count_true_set(vis@, w.node_index as int);
                    lemma_count_true_bound(vis@.update(w.node_index as int, true));
                    assert(g1.node_at(w.node_index as int) == w);
                }
                vis.set(w.node_index, true);
                par.set(w.node_index, Some(v));
                if let Some(l) = graph.edge_label_mut(&e) {
                    l.cutvalue = Some(0);
                }
                proof {
                    lemma_visit(&g1, &gb, graph, in_tree@, start, vis0, par0, v, w, e);
                    assert(vis0[v.node_index as int]);
                    let d2 = disc.update(w.node_index as int, cnt as int);
                    assert forall|i: int| 0 <= i < par@.len() && (#[trigger] par@[i]) is Some implies par@[i]->0.node_index < par@.len()
                        && d2[par@[i]->0.node_index as int] < d2[i] by {
                        if i != w.node_index {
                            assert(par0[i] is Some);
                            assert(marked(vis0, par0[i]->0));
                        }
                    }
                    disc = d2;
                }
                cnt += 1;
                stack.push((w, 0));
                proof {
                    lemma_stack_after_visit(&g1, in_tree@, vis0, st0, v, k, w);
                    lemma_stack_work_nonneg(&g1, stack@);
                    assert(k < degree(&g1, v));
                    assert(marked(in_tree@, w) && !marked(vis0, w) && slack_spec(&g1, e) == 0);
                    assert(vis@ =~= vis0.update(w.node_index as int, true));
                    assert(par@ =~= par00.update(w.node_index as int, Some(v)));
                    assert(stack@ =~= st0.update(st0.len() - 1, (v, (k + 1) as usize)).push((w, 0usize)));
                    assert((vis@, par@, stack@) == dfs_step(&g1, in_tree@, (vis0, par00, st0)));
                    steps = steps + 1;
                }
            } else {
                proof {
                    lemma_stack_after_skip(&g1, in_tree@, vis0, st0, v, k);
                    lemma_stack_work_nonneg(&g1, stack@);
                    assert(k < degree(&g1, v));
                    assert(!(marked(in_tree@, w) && !marked(vis0, w) && slack_spec(&g1, e) == 0));
                    assert(stack@ =~= st0.update(st0.len() - 1, (v, (k + 1) as usize)));
                    assert((vis@, par@, stack@) == dfs_step(&g1, in_tree@, (vis0, par00, st0)));
                    steps = steps + 1;
                }
            }
        } else {
            proof {
                assert(k as int == degree(&g1, v));
                lemma_stack_after_pop(&g1, in_tree@, vis0, st0);
            }
            stack.pop();
            proof {
                lemma_stack_work_nonneg(&g1, stack@);
                assert(stack@ =~= st0.drop_last());
                assert((vis@, par@, stack@) == dfs_step(&g1, in_tree@, (vis0, par00, st0)));
                steps = steps + 1;
            }
        }
    }
    proof {
        assert(stack@ =~= Seq::<(NodeIndex, usize)>::empty());
    }
    proof {
        assert forall|x: NodeIndex| g1.contains_node(x) && #[trigger] marked(vis@, x) implies closed_tree_at(&g1, in_tree@, vis@, x) by {
            assert(g1.node_at(x.node_index as int) == x);
            assert(vis@[x.node_index as int]);
        }
        assert(reached_before(disc, par@));
        assert forall|i: int| 0 <= i < g1.n() implies (#[trigger] vis@[i] <==> tree_reached(&g1, in_tree@, start, g1.node_at(i))) by {
            if tree_reached(&g1, in_tree@, start, g1.node_at(i)) {
                let pth = choose|pth: Seq<NodeIndex>| #[trigger] tight_path(&g1, pth) && pth[0] == start && pth.last() == g1.node_at(i)
                    && forall|k: int| 0 <= k < pth.len() ==> marked(in_tree@, #[trigger] pth[k]);
                lemma_closed_reach(&g1, in_tree@, vis@, pth);
            }
        }
    }
    let ghost par_final = par@;
    let r = (vis, par);
    proof {
        assert(r.1@ == par_final);
        assert(reached_before(disc, r.1@));
    }
    r
}

proof fn lemma_count_true_zero(s: Seq<bool>)
    requires
        forall|k: int| 0 <= k < s.len() ==> !#[trigger] s[k],
    ensures
        count_true(s) == 0,
    decreases s.len(),
{
    if s.len() > 0 {
        assert forall|k: int| 0 <= k < s.drop_last().len() implies !#[trigger] s.drop_last()[k] by {
            assert(s.drop_last()[k] == s[k]);
        }
        lemma_count_true_zero(s.drop_last());
    }
}

proof fn lemma_same_but_cut_refl(g: &Graph)
    requires
        g.wf(),
    ensures
        same_but_cut(g, g),
{
    assert forall|i: int| 0 <= i < g.entries().len() implies (#[trigger] g.entries()[i]).0 == g.entries()[i].0
        && g.entries()[i].1 == (EdgeLabel { cutvalue: g.entries()[i].1.cutvalue, ..g.entries()[i].1 }) by {}
}

proof fn lemma_incident_len(s: Seq<(Edge, EdgeLabel)>, v: NodeIndex, out: bool)
    ensures
        crate::graph::incident(s, v, out).len() <= s.len(),
    decreases s.len(),
{
    if s.len() > 0 {
        lemma_incident_len(s.drop_first(), v, out);
    }
}

proof fn lemma_stack_work_update(g: &Graph, st: Seq<(NodeIndex, usize)>, f: (NodeIndex, usize))
    requires
        st.len() > 0,
        f.0 == st.last().0,
        f.1 == st.last().1 + 1,
    ensures
        stack_work(g, st.update(st.len() - 1, f)) == stack_work(g, st) - 1,
{
    let t = st.update(st.len() - 1, f);
    assert(t.drop_last() =~= st.drop_last());
}

/// Growing the visited set keeps every handled edge handled.
proof fn lemma_handled_grow(g: &Graph, in_tree: Seq<bool>, vis: Seq<bool>, w: int, x: NodeIndex, j: int)
    requires
        0 <= w < vis.len(),
        handled(g, in_tree, vis, x, j),
    ensures
        handled(g, in_tree, vis.update(w, true), x, j),
{
}

proof fn lemma_closed_grow(g: &Graph, in_tree: Seq<bool>, vis: Seq<bool>, w: int, x: NodeIndex)
    requires
        0 <= w < vis.len(),
        closed_tree_at(g, in_tree, vis, x),
    ensures
        closed_tree_at(g, in_tree, vis.update(w, true), x),
{
    assert forall|k: int| 0 <= k < degree(g, x) implies #[trigger] handled(g, in_tree, vis.update(w, true), x, k) by {
        lemma_handled_grow(g, in_tree, vis, w, x, k);
    }
}

proof fn lemma_stack_after_skip(g1: &Graph, in_tree: Seq<bool>, vis: Seq<bool>, st: Seq<(NodeIndex, usize)>, v: NodeIndex, k: usize)
    requires
        stack_ok(g1, in_tree, vis, st),
        st.len() > 0,
        st.last() == (v, k),
        k < degree(g1, v),
        k < usize::MAX,
        handled(g1, in_tree, vis, v, k as int),
    ensures
        stack_ok(g1, in_tree, vis, st.update(st.len() - 1, (v, (k + 1) as usize))),
{
    let t = st.update(st.len() - 1, (v, (k + 1) as usize));
    let top = st.len() - 1;
    assert forall|f: int, j: int| 0 <= f < t.len() && 0 <= j < (#[trigger] t[f]).1 implies #[trigger] handled(g1, in_tree, vis, t[f].0, j) by {
        if f != top {
            assert(t[f] == st[f]);
        } else if j < k {
            assert(st[top].1 == k);
        }
    }
    assert forall|i: int| 0 <= i < g1.n() && #[trigger] vis[i] implies closed_tree_at(g1, in_tree, vis, g1.node_at(i))
        || exists|f: int| 0 <= f < t.len() && (#[trigger] t[f]).0 == g1.node_at(i) by {
        if !closed_tree_at(g1, in_tree, vis, g1.node_at(i)) {
            let f = choose|f: int| 0 <= f < st.len() && (#[trigger] st[f]).0 == g1.node_at(i);
            assert(t[f].0 == st[f].0);
        }
    }
}

proof fn lemma_stack_after_visit(g1: &Graph, in_tree: Seq<bool>, vis: Seq<bool>, st: Seq<(NodeIndex, usize)>, v: NodeIndex, k: usize, w: NodeIndex)
    requires
        stack_ok(g1, in_tree, vis, st),
        st.len() > 0,
        st.last() == (v, k),
        k < degree(g1, v),
        k < usize::MAX,
        frame_other(g1, v, k as int) == w,
        g1.contains_node(w),
        vis.len() == g1.n(),
    ensures
        stack_ok(
            g1,
            in_tree,
            vis.update(w.node_index as int, true),
            st.update(st.len() - 1, (v, (k + 1) as usize)).push((w, 0usize)),
        ),
{
    let vis2 = vis.update(w.node_index as int, true);
    let t = st.update(st.len() - 1, (v, (k + 1) as usize)).push((w, 0usize));
    let top = st.len() - 1;
    assert(g1.node_at(w.node_index as int) == w);
    assert forall|f: int| 0 <= f < t.len() implies g1.contains_node((#[trigger] t[f]).0) && marked(vis2, t[f].0)
        && t[f].1 <= degree(g1, t[f].0) by {
        if f < top {
            assert(t[f] == st[f]);
        }
    }
    assert forall|f: int, j: int| 0 <= f < t.len() && 0 <= j < (#[trigger] t[f]).1 implies #[trigger] handled(g1, in_tree, vis2, t[f].0, j) by {
        if f < top {
            assert(t[f] == st[f]);
            lemma_handled_grow(g1, in_tree, vis, w.node_index as int, st[f].0, j);
        } else if f == top {
            if j < k {
                assert(st[top].1 == k);
                lemma_handled_grow(g1, in_tree, vis, w.node_index as int, v, j);
            }
        }
    }
    assert forall|i: int| 0 <= i < g1.n() && #[trigger] vis2[i] implies closed_tree_at(g1, in_tree, vis2, g1.node_at(i))
        || exists|f: int| 0 <= f < t.len() && (#[trigger] t[f]).0 == g1.node_at(i) by {
        if i == w.node_index {
            assert(t[t.len() - 1].0 == g1.node_at(i));
        } else {
            assert(vis2[i] == vis[i]);
            if closed_tree_at(g1, in_tree, vis, g1.node_at(i)) {
                lemma_closed_grow(g1, in_tree, vis, w.node_index as int, g1.node_at(i));
            } else {
                let f = choose|f: int| 0 <= f < st.len() && (#[trigger] st[f]).0 == g1.node_at(i);
                assert(t[f].0 == st[f].0);
            }
        }
    }
}

proof fn lemma_stack_after_pop(g1: &Graph, in_tree: Seq<bool>, vis: Seq<bool>, st: Seq<(NodeIndex, usize)>)
    requires
        stack_ok(g1, in_tree, vis, st),
        st.len() > 0,
        st.last().1 == degree(g1, st.last().0),
    ensures
        stack_ok(g1, in_tree, vis, st.drop_last()),
        stack_work(g1, st.drop_last()) < stack_work(g1, st),
{
    let t = st.drop_last();
    let top = st.len() - 1;
    let v = st[top].0;
    assert forall|j: int| 0 <= j < degree(g1, v) implies #[trigger] handled(g1, in_tree, vis, v, j) by {
        assert(handled(g1, in_tree, vis, st[top].0, j));
    }
    assert(closed_tree_at(g1, in_tree, vis, v));
    assert forall|f: int, j: int| 0 <= f < t.len() && 0 <= j < (#[trigger] t[f]).1 implies #[trigger] handled(g1, in_tree, vis, t[f].0, j) by {
        assert(t[f] == st[f]);
    }
    assert forall|i: int| 0 <= i < g1.n() && #[trigger] vis[i] implies closed_tree_at(g1, in_tree, vis, g1.node_at(i))
        || exists|f: int| 0 <= f < t.len() && (#[trigger] t[f]).0 == g1.node_at(i) by {
        if !closed_tree_at(g1, in_tree, vis, g1.node_at(i)) {
            let f = choose|f: int| 0 <= f < st.len() && (#[trigger] st[f]).0 == g1.node_at(i);
            if f == top {
                assert(false);
            }
            assert(t[f].0 == st[f].0);
        }
    }
}

proof fn lemma_tree_reached_same(g0: &Graph, g1: &Graph, in_tree: Seq<bool>, start: NodeIndex, w: NodeIndex)
    requires
        g0.wf(),
        same_but_cut(g0, g1),
    ensures
        tree_reached(g0, in_tree, start, w) == tree_reached(g1, in_tree, start, w),
{
    lemma_same_but_cut(g0, g1);
    assert forall|p: Seq<NodeIndex>| #[trigger] tight_path(g0, p) == tight_path(g1, p) by {
        assert forall|k: int| 0 <= k < p.len() - 1 implies tight_link(g0, #[trigger] p[k], p[k + 1]) == tight_link(g1, p[k], p[k + 1]) by {
            assert(g1.has_edge_spec(edge_of(p[k], p[k + 1])) == g0.has_edge_spec(edge_of(p[k], p[k + 1])));
            assert(g1.has_edge_spec(edge_of(p[k + 1], p[k])) == g0.has_edge_spec(edge_of(p[k + 1], p[k])));
            assert(slack_spec(g1, edge_of(p[k], p[k + 1])) == slack_spec(g0, edge_of(p[k], p[k + 1])));
            assert(slack_spec(g1, edge_of(p[k + 1], p[k])) == slack_spec(g0, edge_of(p[k + 1], p[k])));
        }
    }
    if tree_reached(g0, in_tree, start, w) {
        let p = choose|p: Seq<NodeIndex>| #[trigger] tight_path(g0, p) && p[0] == start && p.last() == w
            && forall|k: int| 0 <= k < p.len() ==> marked(in_tree, #[trigger] p[k]);
        assert(tight_path(g1, p));
    }
    if tree_reached(g1, in_tree, start, w) {
        let p = choose|p: Seq<NodeIndex>| #[trigger] tight_path(g1, p) && p[0] == start && p.last() == w
            && forall|k: int| 0 <= k < p.len() ==> marked(in_tree, #[trigger] p[k]);
        assert(tight_path(g0, p));
    }
}

/// The tree search from `start` in `g0` ends after `steps` steps, and every
/// node it found a parent for has that parent in `g`.
pub open spec fn parents_from_search(g0: &Graph, g: &Graph, in_tree: Seq<bool>, start: NodeIndex, steps: nat) -> bool {
    let s = dfs_run(g0, in_tree, dfs_start(g0, start), steps);
    &&& s.2.len() == 0
    &&& forall|i: int| 0 <= i < g0.n() && (#[trigger] s.1[i]) is Some ==> g.node_seq()[i].parent == s.1[i]
}

/// By the numbers `disc`, every node reached from `start`, other than
/// `start`, comes after its parent in `g`: the parents form a tree.
pub open spec fn parents_before(g0: &Graph, g: &Graph, in_tree: Seq<bool>, start: NodeIndex, disc: Seq<int>) -> bool {
    forall|i: int| 0 <= i < g0.n() && tree_reached(g0, in_tree, start, #[trigger] g0.node_at(i)) && g0.node_at(i) != start
        ==> g.node_seq()[i].parent is Some && g.node_seq()[i].parent->0.node_index < disc.len()
            && disc[g.node_seq()[i].parent->0.node_index as int] < disc[i]
}

/// `e` joins a node reached from `start`, other than `start`, to its parent
/// in `g`.
pub open spec fn parent_edge_in(g0: &Graph, g: &Graph, in_tree: Seq<bool>, start: NodeIndex, e: Edge) -> bool {
    exists|j: int| 0 <= j < g0.n() && tree_reached(g0, in_tree, start, #[trigger] g0.node_at(j)) && g0.node_at(j) != start
        && g.node_seq()[j].parent is Some && (e == edge_of(g.node_seq()[j].parent->0, g0.node_at(j)) || e == edge_of(
        g0.node_at(j),
        g.node_seq()[j].parent->0,
    ))
}

/// Makes the tree explicit: every cut value is cleared, then a depth-first
/// search from `start` along tight edges between tree nodes (each node
/// looking at its out edges, then its in edges, as `dfs_step` says) marks
/// the edge over which it first reaches each node (cut value 0) and makes
/// the node it came from that node's parent. The nodes reached are exactly
/// those joined to `start` by a tight path through tree nodes; other
/// parents stay as they were.
pub fn establish_tree_relationships(graph: &mut Graph, in_tree: &Vec<bool>, start: NodeIndex)
    requires
        old(graph).wf(),
        in_tree@.len() == old(graph).n(),
        old(graph).contains_node(start),
        marked(in_tree@, start),
        old(graph).entries().len() < usize::MAX / 2,
        forall|i: int| 0 <= i < old(graph).edge_seq().len() ==> slack_fits(&*old(graph), #[trigger] old(graph).edge_seq()[i]),
    ensures
        final(graph).wf(),
        final(graph).n() == old(graph).n(),
        final(graph).id() == old(graph).id(),
        final(graph).config_spec() == old(graph).config_spec(),
        final(graph).entries().len() == old(graph).entries().len(),
        forall|i: int| 0 <= i < final(graph).entries().len() ==> (#[trigger] final(graph).entries()[i]).0 == old(graph).entries()[i].0
            && final(graph).entries()[i].1 == (EdgeLabel { cutvalue: final(graph).entries()[i].1.cutvalue, ..old(graph).entries()[i].1 }),
        forall|i: int| 0 <= i < final(graph).entries().len() ==> ((#[trigger] final(graph).entries()[i]).1.cutvalue is None || (
            final(graph).entries()[i].1.cutvalue == Some(0i32) && slack_spec(&*old(graph), old(graph).entries()[i].0) == 0
                && tree_reached(&*old(graph), in_tree@, start, old(graph).entries()[i].0.source)
                && tree_reached(&*old(graph), in_tree@, start, old(graph).entries()[i].0.target))),
        forall|i: int| 0 <= i < old(graph).n() ==> #[trigger] final(graph).node_seq()[i] == (NodeLabel {
            parent: final(graph).node_seq()[i].parent,
            ..old(graph).node_seq()[i]
        }),
        forall|i: int| 0 <= i < old(graph).n() && tree_reached(&*old(graph), in_tree@, start, #[trigger] old(graph).node_at(i))
            && old(graph).node_at(i) != start ==> ({
                let p = final(graph).node_seq()[i].parent;
                p is Some && tree_reached(&*old(graph), in_tree@, start, p->0) && old(graph).contains_node(p->0)
                    && marked_between(&*final(graph), p->0, old(graph).node_at(i))
            }),
        forall|i: int| 0 <= i < old(graph).n() && !(tree_reached(&*old(graph), in_tree@, start, #[trigger] old(graph).node_at(i))
            && old(graph).node_at(i) != start) ==> final(graph).node_seq()[i].parent == old(graph).node_seq()[i].parent,
        forall|i: int| 0 <= i < final(graph).entries().len() && (#[trigger] final(graph).entries()[i]).1.cutvalue is Some
            ==> parent_edge_in(&*old(graph), &*final(graph), in_tree@, start, old(graph).entries()[i].0),
        exists|disc: Seq<int>| #[trigger] parents_before(&*old(graph), &*final(graph), in_tree@, start, disc),
        exists|steps: nat| #[trigger] parents_from_search(&*old(graph), &*final(graph), in_tree@, start, steps),
{
    let ghost g0 = *graph;
    clear_cut_values(graph);
    let ghost g1 = *graph;
    proof {
        lemma_same_but_cut(&g0, &g1);
        assert forall|i: int| 0 <= i < g1.edge_seq().len() implies slack_fits(&g1, #[trigger] g1.edge_seq()[i]) by {
            assert(g1.edge_seq()[i] == g0.edge_seq()[i]);
        }
    }
    let (vis, par) = mark_tight_tree(graph, in_tree, start);
    let ghost g2 = *graph;
    proof {
        lemma_same_but_cut(&g1, &g2);
        assert forall|w: NodeIndex| #[trigger] tree_reached(&g0, in_tree@, start, w) == tree_reached(&g1, in_tree@, start, w) by {
            lemma_tree_reached_same(&g0, &g1, in_tree@, start, w);
        }
    }
    let n = graph.node_count();
    let id = graph.graph_id();
    let mut i: usize = 0;
    while i < n
        invariant
            n == g2.n(),
            id == g2.id(),
            g2.wf(),
            i <= n,
            vis@.len() == n,
            par@.len() == n,
            graph.n() == n,
            graph.id() == id,
            graph.entries() == g2.entries(),
            graph.config_spec() == g2.config_spec(),
            forall|k: int| 0 <= k < n ==> #[trigger] graph.node_seq()[k] == (if k < i && par@[k] is Some {
                NodeLabel { parent: par@[k], ..g2.node_seq()[k] }
            } else {
                g2.node_seq()[k]
            }),
        decreases n - i,
    {
        if let Some(p) = par[i] {
            let v = NodeIndex { node_index: i, which_graph: id };
            if let Some(l) = graph.node_label_mut(v) {
                l.parent = Some(p);
            }
        }
        i += 1;
    }
    proof {
        crate::graph::lemma_wf_same_shape(&g2, graph);
        assert forall|i: int| 0 <= i < g0.n() && tree_reached(&g0, in_tree@, start, #[trigger] g0.node_at(i)) && g0.node_at(i) != start implies ({
            let p = graph.node_seq()[i].parent;
            p is Some && tree_reached(&g0, in_tree@, start, p->0) && g0.contains_node(p->0) && marked_between(&*graph, p->0, g0.node_at(i))
        }) by {
            assert(g1.node_at(i) == g0.node_at(i));
            assert(vis@[i]);
            assert(par@[i] is Some);
            let p = par@[i]->0;
            assert(marked(vis@, p));
            assert(g1.node_at(p.node_index as int) == p);
            assert(vis@[p.node_index as int]);
            assert(marked_between(&g2, p, g0.node_at(i)));
        }
        assert forall|i: int| 0 <= i < g0.n() && !(tree_reached(&g0, in_tree@, start, #[trigger] g0.node_at(i))
            && g0.node_at(i) != start) implies graph.node_seq()[i].parent == g0.node_seq()[i].parent by {
            assert(g1.node_at(i) == g0.node_at(i));
            if par@[i] is Some {
                assert(vis@[i]);
            }
        }
        assert forall|i: int| 0 <= i < graph.entries().len() implies ((#[trigger] graph.entries()[i]).1.cutvalue is None || (
            graph.entries()[i].1.cutvalue == Some(0i32) && slack_spec(&g0, g0.entries()[i].0) == 0
                && tree_reached(&g0, in_tree@, start, g0.entries()[i].0.source)
                && tree_reached(&g0, in_tree@, start, g0.entries()[i].0.target))) by {
            if graph.entries()[i].1.cutvalue is Some {
                let e = g1.entries()[i].0;
                assert(g0.entries()[i].0 == e);
                assert(g1.contains_node(g1.entries()[i].0.source));
                assert(g1.contains_node(g1.entries()[i].0.target));
                assert(g1.node_at(e.source.node_index as int) == e.source);
                assert(g1.node_at(e.target.node_index as int) == e.target);
                assert(vis@[e.source.node_index as int]);
                assert(vis@[e.target.node_index as int]);
            }
        }
        let disc = choose|disc: Seq<int>| #[trigger] reached_before(disc, par@);
        assert forall|i: int| 0 <= i < g0.n() && tree_reached(&g0, in_tree@, start, #[trigger] g0.node_at(i)) && g0.node_at(i) != start
            implies graph.node_seq()[i].parent is Some && graph.node_seq()[i].parent->0.node_index < disc.len()
            && disc[graph.node_seq()[i].parent->0.node_index as int] < disc[i] by {
            assert(g1.node_at(i) == g0.node_at(i));
            assert(vis@[i]);
            assert(par@[i] is Some);
        }
        assert(parents_before(&g0, &*graph, in_tree@, start, disc));
        let steps = choose|steps: nat| #[trigger] dfs_run(&g1, in_tree@, dfs_start(&g1, start), steps) == (
            vis@,
            par@,
            Seq::<(NodeIndex, usize)>::empty(),
        );
        lemma_same_but_cut(&g0, &g1);
        lemma_dfs_run_same(&g0, &g1, in_tree@, dfs_start(&g0, start), steps);
        assert(dfs_start(&g0, start) == dfs_start(&g1, start));
        assert forall|i: int| 0 <= i < g0.n() && (#[trigger] par@[i]) is Some implies graph.node_seq()[i].parent == par@[i] by {}
        assert(parents_from_search(&g0, &*graph, in_tree@, start, steps));
        assert forall|i: int| 0 <= i < graph.entries().len() && (#[trigger] graph.entries()[i]).1.cutvalue is Some
            implies parent_edge_in(&g0, &*graph, in_tree@, start, g0.entries()[i].0) by {
            assert(g2.entries()[i] == graph.entries()[i]);
            assert(g1.entries()[i].0 == g0.entries()[i].0);
            let j = choose|j: int| 0 <= j < g1.n() && (#[trigger] par@[j]) is Some && (g1.entries()[i].0 == edge_of(
                par@[j]->0,
                g1.node_at(j),
            ) || g1.entries()[i].0 == edge_of(g1.node_at(j), par@[j]->0));
            assert(vis@[j]);
            assert(g1.node_at(j) == g0.node_at(j));
            assert(tree_reached(&g1, in_tree@, start, g1.node_at(j)));
            assert(graph.node_seq()[j].parent == par@[j]);
        }
        assert forall|i: int| 0 <= i < graph.entries().len() implies (#[trigger] graph.entries()[i]).0 == g0.entries()[i].0
            && graph.entries()[i].1 == (EdgeLabel { cutvalue: graph.entries()[i].1.cutvalue, ..g0.entries()[i].1 }) by {
            assert(g2.entries()[i].0 == g1.entries()[i].0);
            assert(g1.entries()[i].0 == g0.entries()[i].0);
        }
    }
}

/// A sequence of flags as long as `s` with as many set flags as it has
/// entries has every flag set.
proof fn lemma_count_true_full(s: Seq<bool>)
    requires
        count_true(s) >= s.len(),
    ensures
        forall|i: int| 0 <= i < s.len() ==> #[trigger] s[i],
    decreases s.len(),
{
    if s.len() > 0 {
        lemma_count_true_bound(s.drop_last());
        lemma_count_true_full(s.drop_last());
        assert forall|i: int| 0 <= i < s.len() implies #[trigger] s[i] by {
            if i < s.len() - 1 {
                assert(s.drop_last()[i] == s[i]);
            }
        }
    }
}

/// Every node of `g` is reached by a tight path from a node of `start`.
pub open spec fn all_tightly_reached(g: &Graph, start: Seq<bool>) -> bool {
    forall|i: int| 0 <= i < g.n() ==> #[trigger] tightly_reached(g, start, g.node_at(i))
}

/// `gb` is `ga` with only its ranks changed.
pub open spec fn same_but_ranks_of(ga: &Graph, gb: &Graph) -> bool {
    &&& gb.wf()
    &&& gb.n() == ga.n()
    &&& gb.entries() == ga.entries()
    &&& gb.id() == ga.id()
    &&& gb.config_spec() == ga.config_spec()
    &&& forall|i: int| 0 <= i < ga.n() ==> #[trigger] gb.node_seq()[i] == NodeLabel { rank: gb.node_seq()[i].rank, ..ga.node_seq()[i] }
}

/// Every node has a rank.
pub open spec fn all_ranked_spec(g: &Graph) -> bool {
    forall|i: int| 0 <= i < g.n() ==> (#[trigger] g.node_seq()[i]).rank is Some
}

/// Whether every node has a rank.
pub fn all_ranked(graph: &Graph) -> (r: bool)
    ensures
        r == all_ranked_spec(graph),
{
    let n = graph.node_count();
    let id = graph.graph_id();
    let mut i: usize = 0;
    while i < n
        invariant
            n == graph.n(),
            id == graph.id(),
            i <= n,
            forall|k: int| 0 <= k < i ==> (#[trigger] graph.node_seq()[k]).rank is Some,
        decreases n - i,
    {
        let v = NodeIndex { node_index: i, which_graph: id };
        match graph.node_label(v) {
            Some(l) => {
                if l.rank.is_none() {
                    return false;
                }
            },
            None => {},
        }
        i += 1;
    }
    true
}

/// Every flag is set: the tree spans the graph.
pub open spec fn spans(t: Seq<bool>) -> bool {
    forall|i: int| 0 <= i < t.len() ==> #[trigger] t[i]
}

/// No edge of slack 0 has one end in the tree and the other outside.
pub open spec fn tight_closed(g: &Graph, t: Seq<bool>) -> bool {
    forall|i: int| 0 <= i < g.edge_seq().len() && slack_spec(g, #[trigger] g.edge_seq()[i]) == 0
        ==> !crosses(t, g.edge_seq()[i])
}

/// Position `i` holds the first edge, in edge order, of least slack among
/// those with exactly one end in the tree.
pub open spec fn min_crossing_at(g: &Graph, t: Seq<bool>, i: int) -> bool {
    &&& 0 <= i < g.edge_seq().len()
    &&& crosses(t, g.edge_seq()[i])
    &&& forall|j: int| 0 <= j < g.edge_seq().len() && crosses(t, #[trigger] g.edge_seq()[j])
        ==> slack_spec(g, g.edge_seq()[i]) <= slack_spec(g, g.edge_seq()[j])
    &&& forall|j: int| 0 <= j < i && crosses(t, #[trigger] g.edge_seq()[j])
        ==> slack_spec(g, g.edge_seq()[i]) < slack_spec(g, g.edge_seq()[j])
}

/// The edge that the next round of growth makes tight.
pub open spec fn min_crossing_edge(g: &Graph, t: Seq<bool>) -> Edge {
    g.edge_seq()[choose|i: int| min_crossing_at(g, t, i)]
}

/// The amount by which the tree moves to make `e` tight: its slack, toward
/// the end outside the tree.
pub open spec fn tree_shift(g: &Graph, t: Seq<bool>, e: Edge) -> int {
    if marked(t, e.source) {
        slack_spec(g, e)
    } else {
        -slack_spec(g, e)
    }
}

/// Moving every ranked tree node by `d` keeps its rank an `i32`.
pub open spec fn shift_fits(g: &Graph, t: Seq<bool>, d: int) -> bool {
    forall|i: int| 0 <= i < g.n() && t[i] && (#[trigger] g.node_seq()[i]).rank is Some
        ==> i32::MIN <= g.node_seq()[i].rank->0 + d <= i32::MAX
}

/// Where growing the tree stops short of spanning the graph: a slack or a
/// rank difference leaves `i32`; or the tree takes in every tight edge at
/// it, leaves a node out, and either no edge joins it to the rest or the
/// move that would make the edge of least slack tight leaves `i32`.
pub open spec fn grow_stuck(g: &Graph, t: Seq<bool>) -> bool {
    ||| !slacks_fit(g)
    ||| {
        &&& tight_closed(g, t)
        &&& !spans(t)
        &&& (!(exists|i: int| 0 <= i < g.edge_seq().len() && crosses(t, #[trigger] g.edge_seq()[i])) || {
            let d = tree_shift(g, t, min_crossing_edge(g, t));
            !(i32::MIN <= d <= i32::MAX) || !shift_fits(g, t, d)
        })
    }
}

proof fn lemma_min_crossing_unique(g: &Graph, t: Seq<bool>, i: int, j: int)
    requires
        min_crossing_at(g, t, i),
        min_crossing_at(g, t, j),
    ensures
        i == j,
{
    if i < j {
        assert(slack_spec(g, g.edge_seq()[j]) < slack_spec(g, g.edge_seq()[i]));
    }
    if j < i {
        assert(slack_spec(g, g.edge_seq()[i]) < slack_spec(g, g.edge_seq()[j]));
    }
}

proof fn lemma_count_true_spans(s: Seq<bool>)
    ensures
        spans(s) ==> count_true(s) == s.len(),
    decreases s.len(),
{
    if s.len() > 0 {
        lemma_count_true_spans(s.drop_last());
        if spans(s) {
            assert(s.last());
            assert forall|i: int| 0 <= i < s.drop_last().len() implies #[trigger] s.drop_last()[i] by {
                assert(s[i]);
            }
        }
    }
}

proof fn lemma_count_true_mono(a: Seq<bool>, b: Seq<bool>)
    requires
        a.len() == b.len(),
        forall|i: int| 0 <= i < a.len() && a[i] ==> #[trigger] b[i],
    ensures
        count_true(a) <= count_true(b),
    decreases a.len(),
{
    if a.len() > 0 {
        assert forall|i: int| 0 <= i < a.drop_last().len() && a.drop_last()[i] implies #[trigger] b.drop_last()[i] by {
            assert(a[i] ==> b[i]);
        }
        lemma_count_true_mono(a.drop_last(), b.drop_last());
        assert(a.last() ==> b[b.len() - 1]);
    }
}

proof fn lemma_count_true_strict(a: Seq<bool>, b: Seq<bool>, u: int)
    requires
        a.len() == b.len(),
        forall|i: int| 0 <= i < a.len() && a[i] ==> #[trigger] b[i],
        0 <= u < a.len(),
        !a[u],
        b[u],
    ensures
        count_true(a) < count_true(b),
    decreases a.len(),
{
    assert forall|i: int| 0 <= i < a.drop_last().len() && a.drop_last()[i] implies #[trigger] b.drop_last()[i] by {
        assert(a[i] ==> b[i]);
    }
    if u == a.len() - 1 {
        lemma_count_true_mono(a.drop_last(), b.drop_last());
    } else {
        lemma_count_true_strict(a.drop_last(), b.drop_last(), u);
        assert(a.last() ==> b[b.len() - 1]);
    }
}

/// How moving the tree by `d` changes the slack of an edge between nodes.
proof fn lemma_shift_slack(gp: &Graph, g: &Graph, t: Seq<bool>, d: int, f: Edge)
    requires
        gp.wf(),
        t.len() == gp.n(),
        all_ranked_spec(gp),
        g.n() == gp.n(),
        g.id() == gp.id(),
        g.entries() == gp.entries(),
        shift_fits(gp, t, d),
        forall|i: int| 0 <= i < gp.n() ==> #[trigger] g.node_seq()[i] == (
            if t[i] && gp.node_seq()[i].rank is Some {
                NodeLabel { rank: Some((gp.node_seq()[i].rank->0 + d) as i32), ..gp.node_seq()[i] }
            } else {
                gp.node_seq()[i]
            }),
        gp.contains_node(f.source),
        gp.contains_node(f.target),
    ensures
        slack_spec(g, f) == slack_spec(gp, f) + (if marked(t, f.target) { d } else { 0 }) - (if marked(t, f.source) {
            d
        } else {
            0
        }),
{
    let a = f.source.node_index as int;
    let b = f.target.node_index as int;
    assert(gp.node_seq()[a].rank is Some);
    assert(gp.node_seq()[b].rank is Some);
    assert(g.label_of(f.source) == g.node_seq()[a]);
    assert(g.label_of(f.target) == g.node_seq()[b]);
    assert(minlen_or_one(g, f) == minlen_or_one(gp, f));
}

/// Moving the tree by the slack of the edge of least slack leaving it, toward
/// that edge's other end, makes that edge tight and keeps every slack that
/// was not negative so.
proof fn lemma_shift_round(gp: &Graph, g: &Graph, t: Seq<bool>, k: int)
    requires
        gp.wf(),
        t.len() == gp.n(),
        all_ranked_spec(gp),
        g.wf(),
        g.n() == gp.n(),
        g.id() == gp.id(),
        g.entries() == gp.entries(),
        min_crossing_at(gp, t, k),
        shift_fits(gp, t, tree_shift(gp, t, gp.edge_seq()[k])),
        forall|i: int| 0 <= i < gp.n() ==> #[trigger] g.node_seq()[i] == (
            if t[i] && gp.node_seq()[i].rank is Some {
                NodeLabel {
                    rank: Some((gp.node_seq()[i].rank->0 + tree_shift(gp, t, gp.edge_seq()[k])) as i32),
                    ..gp.node_seq()[i]
                }
            } else {
                gp.node_seq()[i]
            }),
    ensures
        slack_spec(g, g.edge_seq()[k]) == 0,
        all_ranked_spec(g),
        feasible_spec(gp) ==> feasible_spec(g),
{
    let e = gp.edge_seq()[k];
    let d = tree_shift(gp, t, e);
    assert(gp.entries()[k].0 == e);
    assert(gp.contains_node(gp.entries()[k].0.source));
    assert(gp.contains_node(gp.entries()[k].0.target));
    lemma_shift_slack(gp, g, t, d, e);
    assert(g.edge_seq() == gp.edge_seq());
    assert forall|i: int| 0 <= i < g.n() implies (#[trigger] g.node_seq()[i]).rank is Some by {
        assert(gp.node_seq()[i].rank is Some);
    }
    if feasible_spec(gp) {
        assert forall|j: int| 0 <= j < g.edge_seq().len() implies slack_spec(g, #[trigger] g.edge_seq()[j]) >= 0 by {
            let f = gp.edge_seq()[j];
            assert(gp.entries()[j].0 == f);
            assert(gp.contains_node(gp.entries()[j].0.source));
            assert(gp.contains_node(gp.entries()[j].0.target));
            lemma_shift_slack(gp, g, t, d, f);
            assert(slack_spec(gp, gp.edge_seq()[j]) >= 0);
            assert(slack_spec(gp, gp.edge_seq()[k]) >= 0);
            if crosses(t, f) {
                assert(slack_spec(gp, e) <= slack_spec(gp, f));
            }
        }
    }
}

/// `t2` is the tree `t` with every node joined to it by a path of tight
/// edges of `g` taken in.
pub open spec fn tight_grown(g: &Graph, t: Seq<bool>, t2: Seq<bool>) -> bool {
    &&& t2.len() == g.n()
    &&& forall|i: int| 0 <= i < g.n() ==> #[trigger] t2[i] == tightly_reached(g, t, g.node_at(i))
}

/// `g2` is `g` with every ranked node of the tree `t` moved by the slack of
/// the first crossing edge of least slack, toward that edge's other end.
pub open spec fn moved_tree(g: &Graph, t: Seq<bool>, g2: &Graph) -> bool {
    let d = tree_shift(g, t, min_crossing_edge(g, t));
    &&& g2.wf()
    &&& g2.n() == g.n()
    &&& g2.entries() == g.entries()
    &&& g2.id() == g.id()
    &&& g2.config_spec() == g.config_spec()
    &&& forall|i: int| 0 <= i < g.n() ==> #[trigger] g2.node_seq()[i] == (if t[i] && g.node_seq()[i].rank is Some {
        NodeLabel { rank: Some((g.node_seq()[i].rank->0 + d) as i32), ..g.node_seq()[i] }
    } else {
        g.node_seq()[i]
    })
}

/// The rounds of growing a tight tree from the tree `t0` of `g0`: the
/// graphs `gs` and trees `ts` after each; the first tree is `t0` grown in
/// `g0`, and each later round moves the tree before it, which does not
/// span the graph yet, and grows it in the moved graph.
pub open spec fn grow_rounds(g0: &Graph, t0: Seq<bool>, gs: Seq<Graph>, ts: Seq<Seq<bool>>) -> bool {
    &&& gs.len() == ts.len()
    &&& gs.len() >= 1
    &&& gs[0] == *g0
    &&& tight_grown(g0, t0, ts[0])
    &&& forall|k: int|
        #![trigger gs[k]]
        0 <= k < gs.len() - 1 ==> !spans(ts[k]) && moved_tree(&gs[k], ts[k], &gs[k + 1]) && tight_grown(
            &gs[k + 1],
            ts[k],
            ts[k + 1],
        )
}

#[verifier::spinoff_prover]
#[verifier::rlimit(30)]
proof fn lemma_grow_rounds_push(g0: &Graph, t0: Seq<bool>, gs: Seq<Graph>, ts: Seq<Seq<bool>>, g: &Graph, t: Seq<bool>)
    requires
        grow_rounds(g0, t0, gs, ts),
        !spans(ts.last()),
        moved_tree(&gs.last(), ts.last(), g),
        tight_grown(g, ts.last(), t),
    ensures
        grow_rounds(g0, t0, gs.push(*g), ts.push(t)),
{
    let gs2 = gs.push(*g);
    let ts2 = ts.push(t);
    assert forall|q: int| #![trigger gs2[q]] 0 <= q < gs2.len() - 1 implies !spans(ts2[q]) && moved_tree(&gs2[q], ts2[q], &gs2[q + 1])
        && tight_grown(&gs2[q + 1], ts2[q], ts2[q + 1]) by {
        if q < gs.len() - 1 {
            assert(gs2[q] == gs[q] && gs2[q + 1] == gs[q + 1] && ts2[q] == ts[q] && ts2[q + 1] == ts[q + 1]);
            assert(!spans(ts[q]) && moved_tree(&gs[q], ts[q], &gs[q + 1]) && tight_grown(&gs[q + 1], ts[q], ts[q + 1]));
        } else {
            assert(gs2[q] == gs.last() && gs2[q + 1] == *g && ts2[q] == ts.last() && ts2[q + 1] == t);
        }
    }
}

proof fn lemma_tight_path_in_tree(g: &Graph, t: Seq<bool>, p: Seq<NodeIndex>, k: int)
    requires
        g.wf(),
        tight_path(g, p),
        marked(t, p[0]),
        forall|j: int| 0 <= j < g.edge_seq().len() && slack_spec(g, #[trigger] g.edge_seq()[j]) == 0 ==> !crosses(t, g.edge_seq()[j]),
        0 <= k < p.len(),
    ensures
        marked(t, p[k]),
    decreases k,
{
    if k > 0 {
        lemma_tight_path_in_tree(g, t, p, k - 1);
        assert(tight_link(g, p[k - 1], p[k]));
        let e = if g.has_edge_spec(edge_of(p[k - 1], p[k])) && slack_spec(g, edge_of(p[k - 1], p[k])) == 0 {
            edge_of(p[k - 1], p[k])
        } else {
            edge_of(p[k], p[k - 1])
        };
        let j = choose|j: int| 0 <= j < g.entries().len() && #[trigger] g.entries()[j].0 == e;
        assert(g.edge_seq()[j] == e);
        assert(!crosses(t, g.edge_seq()[j]));
    }
}

/// What `tight_tree` leaves is exactly the tree grown by tight paths.
proof fn lemma_tight_tree_exact(g: &Graph, start: Seq<bool>, t: Seq<bool>)
    requires
        g.wf(),
        t.len() == g.n(),
        start.len() == g.n(),
        forall|i: int| 0 <= i < g.n() && start[i] ==> #[trigger] t[i],
        forall|i: int| 0 <= i < g.n() && #[trigger] t[i] ==> tightly_reached(g, start, g.node_at(i)),
        forall|j: int| 0 <= j < g.edge_seq().len() && slack_spec(g, #[trigger] g.edge_seq()[j]) == 0 ==> !crosses(t, g.edge_seq()[j]),
    ensures
        tight_grown(g, start, t),
{
    assert forall|i: int| 0 <= i < g.n() implies #[trigger] t[i] == tightly_reached(g, start, g.node_at(i)) by {
        if tightly_reached(g, start, g.node_at(i)) {
            let p = choose|p: Seq<NodeIndex>| #[trigger] tight_path(g, p) && marked(start, p[0]) && p.last() == g.node_at(i);
            assert(g.contains_node(p[0]));
            assert(t[p[0].node_index as int]);
            lemma_tight_path_in_tree(g, t, p, p.len() - 1);
        }
    }
}

/// Grows the tree marked by `in_tree` until it spans the graph: takes in
/// every node joined to it by a tight edge, and while a node is left out
/// moves the tree by the slack of the first edge of least slack between the
/// tree and the rest, toward that edge's other end, which makes that edge
/// tight. Each round takes in at least one node. Returns `false`, with the
/// work done so far, exactly where `grow_stuck` holds of the state it stops
/// in; the moves keep a feasible ranking feasible.
#[verifier::rlimit(40)]
#[verifier::spinoff_prover]
pub fn grow_tight_tree(graph: &mut Graph, in_tree: &mut Vec<bool>) -> (ok: bool)
    requires
        old(graph).wf(),
        old(in_tree)@.len() == old(graph).n(),
        all_ranked_spec(old(graph)),
    ensures
        same_but_ranks_of(old(graph), final(graph)),
        all_ranked_spec(final(graph)),
        final(in_tree)@.len() == old(graph).n(),
        forall|i: int| 0 <= i < old(graph).n() && old(in_tree)@[i] ==> #[trigger] final(in_tree)@[i],
        ok ==> spans(final(in_tree)@),
        ok ==> exists|start: Seq<bool>| #[trigger] all_tightly_reached(final(graph), start),
        !ok <==> grow_stuck(final(graph), final(in_tree)@),
        feasible_spec(old(graph)) ==> feasible_spec(final(graph)),
        ok ==> exists|gs: Seq<Graph>, ts: Seq<Seq<bool>>| #[trigger] grow_rounds(old(graph), old(in_tree)@, gs, ts)
            && gs.last() == *final(graph) && ts.last() == final(in_tree)@,
{
    let ghost g0 = *graph;
    let ghost t0 = in_tree@;
    let n = graph.node_count();
    proof {
        assert forall|i: int| 0 <= i < g0.n() implies #[trigger] graph.node_seq()[i] == NodeLabel {
            rank: graph.node_seq()[i].rank,
            ..g0.node_seq()[i]
        } by {}
        assert(same_but_ranks_of(&g0, graph));
    }
    if !crate::rank::feasible_tree::slacks_in_range(graph) {
        return false;
    }
    let ghost mut start = in_tree@;
    let mut size = tight_tree(graph, in_tree);
    let ghost mut gs: Seq<Graph> = seq![*graph];
    let ghost mut ts: Seq<Seq<bool>> = seq![in_tree@];
    proof {
        lemma_count_true_bound(in_tree@);
        lemma_tight_tree_exact(graph, start, in_tree@);
        assert(grow_rounds(&g0, t0, gs, ts));
    }
    while size < n
        invariant
            n == g0.n(),
            g0.wf(),
            same_but_ranks_of(&g0, graph),
            all_ranked_spec(graph),
            g0 == *old(graph),
            t0 == old(in_tree)@,
            in_tree@.len() == n,
            size == count_true(in_tree@),
            size <= n,
            slacks_fit(graph),
            tight_closed(graph, in_tree@),
            feasible_spec(&g0) ==> feasible_spec(graph),
            forall|i: int| 0 <= i < n && t0[i] ==> #[trigger] in_tree@[i],
            forall|i: int| 0 <= i < n && #[trigger] in_tree@[i] ==> tightly_reached(graph, start, graph.node_at(i)),
            grow_rounds(&g0, t0, gs, ts),
            gs.last() == *graph,
            ts.last() == in_tree@,
        decreases n - size,
    {
        proof {
            lemma_count_true_spans(in_tree@);
        }
        if !has_crossing_edge(graph, in_tree) {
            return false;
        }
        let edge = find_min_slack_edge_for_tree(graph, in_tree);
        let ghost k = choose|i: int| 0 <= i < graph.edge_seq().len() && #[trigger] graph.edge_seq()[i] == edge
            && crosses(in_tree@, edge)
            && (forall|j: int| 0 <= j < graph.edge_seq().len() && crosses(in_tree@, #[trigger] graph.edge_seq()[j])
                ==> slack_spec(graph, edge) <= slack_spec(graph, graph.edge_seq()[j]))
            && (forall|j: int| 0 <= j < i && crosses(in_tree@, #[trigger] graph.edge_seq()[j])
                ==> slack_spec(graph, edge) < slack_spec(graph, graph.edge_seq()[j]));
        proof {
            assert(min_crossing_at(graph, in_tree@, k));
            let k2 = choose|i: int| min_crossing_at(graph, in_tree@, i);
            lemma_min_crossing_unique(graph, in_tree@, k, k2);
            assert(min_crossing_edge(graph, in_tree@) == edge);
            assert(graph.entries()[k].0 == edge);
            assert(graph.contains_node(graph.entries()[k].0.source));
            assert(graph.contains_node(graph.entries()[k].0.target));
            assert(slack_fits(graph, graph.edge_seq()[k]));
        }
        let s = crate::rank::util::slack(graph, &edge);
        let delta = if in_tree[edge.source.node_index] {
            s
        } else {
            if s == i32::MIN {
                return false;
            }
            -s
        };
        proof {
            assert(delta == tree_shift(graph, in_tree@, edge));
        }
        if !shift_in_range(graph, in_tree, delta) {
            return false;
        }
        let ghost gp = *graph;
        shift_ranks_for_tree(graph, in_tree, delta);
        proof {
            lemma_shift_round(&gp, graph, in_tree@, k);
            assert forall|i: int| 0 <= i < g0.n() implies #[trigger] graph.node_seq()[i] == NodeLabel {
                rank: graph.node_seq()[i].rank,
                ..g0.node_seq()[i]
            } by {
                assert(gp.node_seq()[i] == NodeLabel { rank: gp.node_seq()[i].rank, ..g0.node_seq()[i] });
            }
            assert(graph.edge_seq() == gp.edge_seq());
        }
        if !crate::rank::feasible_tree::slacks_in_range(graph) {
            return false;
        }
        let ghost before = in_tree@;
        let new_size = tight_tree(graph, in_tree);
        proof {
            lemma_count_true_bound(in_tree@);
            lemma_tight_tree_exact(graph, before, in_tree@);
            assert(moved_tree(&gp, before, graph));
            assert(!spans(before));
            lemma_grow_rounds_push(&g0, t0, gs, ts, graph, in_tree@);
            let gs2 = gs.push(*graph);
            let ts2 = ts.push(in_tree@);
            gs = gs2;
            ts = ts2;
            start = before;
            assert forall|i: int| 0 <= i < n && t0[i] implies #[trigger] in_tree@[i] by {
                assert(before[i]);
            }
            assert(slack_spec(graph, graph.edge_seq()[k]) == 0);
            assert(!crosses(in_tree@, graph.edge_seq()[k]));
            let u = if marked(before, edge.source) { edge.target.node_index as int } else { edge.source.node_index as int };
            assert(!before[u]);
            assert(in_tree@[u]);
            lemma_count_true_strict(before, in_tree@, u);
        }
        size = new_size;
    }
    proof {
        lemma_count_true_full(in_tree@);
        assert(spans(in_tree@));
        assert forall|i: int| 0 <= i < graph.n() implies #[trigger] tightly_reached(graph, start, graph.node_at(i)) by {
            assert(in_tree@[i]);
        }
        assert(all_tightly_reached(graph, start));
        assert(grow_rounds(&g0, t0, gs, ts));
    }
    true
}

/// What one round of the network simplex did.
#[derive(Clone, Copy, Debug, PartialEq, Eq, Structural)]
pub enum SimplexStep {
    /// No edge has a negative cut value: the ranking is optimal.
    Optimal,
    /// The first edge of negative cut value left the tree, and the first
    /// edge of least slack among those that can replace it entered.
    Exchanged,
    /// An edge's slack, or the rank difference on the way to it, is not an
    /// `i32`.
    SlackOutOfRange,
    /// No edge can replace the edge that would leave.
    NoEnteringEdge,
    /// The exchange of the two edges failed.
    ExchangeFailed,
}

/// No edge of `g` has a negative cut value.
pub open spec fn no_negative_cut(g: &Graph) -> bool {
    forall|i: int| 0 <= i < g.edge_seq().len() ==> !negative_cut(g, #[trigger] g.edge_seq()[i])
}

/// Position `i` holds the first edge of negative cut value.
pub open spec fn first_negative_at(g: &Graph, i: int) -> bool {
    &&& 0 <= i < g.edge_seq().len()
    &&& negative_cut(g, g.edge_seq()[i])
    &&& forall|j: int| 0 <= j < i ==> !negative_cut(g, #[trigger] g.edge_seq()[j])
}

/// Some edge can replace `e` in the tree.
pub open spec fn can_replace(g: &Graph, e: Edge) -> bool {
    exists|i: int| 0 <= i < g.edge_seq().len() && enter_candidate(g, e, #[trigger] g.edge_seq()[i])
}

/// Position `k` holds the first edge of least slack among those that can
/// replace `e`.
pub open spec fn least_candidate_at(g: &Graph, e: Edge, k: int) -> bool {
    &&& 0 <= k < g.edge_seq().len()
    &&& enter_candidate(g, e, g.edge_seq()[k])
    &&& forall|j: int| 0 <= j < g.edge_seq().len() && enter_candidate(g, e, #[trigger] g.edge_seq()[j])
        ==> slack_spec(g, g.edge_seq()[k]) <= slack_spec(g, g.edge_seq()[j])
    &&& forall|j: int| 0 <= j < k && enter_candidate(g, e, #[trigger] g.edge_seq()[j])
        ==> slack_spec(g, g.edge_seq()[k]) < slack_spec(g, g.edge_seq()[j])
}

/// One round of the network simplex: where an edge has a negative cut
/// value, the first such edge leaves the tree and the first edge of least
/// slack that can replace it enters, with ranks, low and lim numbers and
/// cut values brought up to date. The graph is left as it was when the
/// ranking is optimal or the round cannot be made.
pub fn network_simplex_round(graph: &mut Graph) -> (r: SimplexStep)
    requires
        old(graph).wf(),
    ensures
        final(graph).wf(),
        final(graph).n() == old(graph).n(),
        final(graph).edge_seq() == old(graph).edge_seq(),
        final(graph).id() == old(graph).id(),
        final(graph).config_spec() == old(graph).config_spec(),
        (r == SimplexStep::Optimal) == no_negative_cut(old(graph)),
        r == SimplexStep::SlackOutOfRange <==> !no_negative_cut(old(graph)) && !slacks_fit(old(graph)),
        r == SimplexStep::NoEnteringEdge <==> (!no_negative_cut(old(graph)) && slacks_fit(old(graph)) && exists|i: int|
            #[trigger] first_negative_at(old(graph), i) && !can_replace(old(graph), old(graph).edge_seq()[i])),
        r != SimplexStep::Exchanged && r != SimplexStep::ExchangeFailed ==> *final(graph) == *old(graph),
        r == SimplexStep::Exchanged || r == SimplexStep::ExchangeFailed ==> exists|i: int, k: int|
            #[trigger] first_negative_at(old(graph), i) && #[trigger] least_candidate_at(old(graph), old(graph).edge_seq()[i], k)
            && (r == SimplexStep::Exchanged ==> exists|g1: Graph, g2: Graph, g3: Graph| #[trigger] crate::rank::tree_walk::exchanged_via(
                &*old(graph),
                &g1,
                &g2,
                &g3,
                &*final(graph),
                old(graph).edge_seq()[i],
                old(graph).edge_seq()[k],
            ))
            && (r == SimplexStep::ExchangeFailed ==> exists|g1: Graph, g2: Graph| #[trigger] crate::rank::tree_walk::exchange_fails_at(
                &*old(graph),
                &g1,
                &g2,
                old(graph).edge_seq()[i],
                old(graph).edge_seq()[k],
            )),
{
    let ghost g0 = *graph;
    let leave = match leave_edge(graph) {
        Some(e) => e,
        None => {
            return SimplexStep::Optimal;
        },
    };
    let ghost i = choose|i: int| 0 <= i < graph.edge_seq().len() && #[trigger] graph.edge_seq()[i] == leave
        && negative_cut(graph, leave) && forall|j: int| 0 <= j < i ==> !negative_cut(graph, #[trigger] graph.edge_seq()[j]);
    proof {
        assert(first_negative_at(graph, i));
        assert forall|i2: int| #[trigger] first_negative_at(graph, i2) implies i2 == i by {
            if i2 < i {
                assert(!negative_cut(graph, graph.edge_seq()[i2]));
            }
            if i < i2 {
                assert(!negative_cut(graph, graph.edge_seq()[i]));
            }
        }
        assert(graph.entries()[i].0 == leave);
        assert(graph.contains_node(graph.entries()[i].0.source));
        assert(graph.contains_node(graph.entries()[i].0.target));
    }
    if !crate::rank::feasible_tree::slacks_in_range(graph) {
        return SimplexStep::SlackOutOfRange;
    }
    if !has_enter_candidate(graph, &leave) {
        return SimplexStep::NoEnteringEdge;
    }
    let enter = enter_edge(graph, &leave);
    let ghost k = choose|k: int| 0 <= k < graph.edge_seq().len() && #[trigger] graph.edge_seq()[k] == enter
        && enter_candidate(graph, leave, enter)
        && (forall|j: int| 0 <= j < graph.edge_seq().len() && enter_candidate(graph, leave, #[trigger] graph.edge_seq()[j])
            ==> slack_spec(graph, enter) <= slack_spec(graph, graph.edge_seq()[j]))
        && (forall|j: int| 0 <= j < k && enter_candidate(graph, leave, #[trigger] graph.edge_seq()[j])
            ==> slack_spec(graph, enter) < slack_spec(graph, graph.edge_seq()[j]));
    proof {
        assert(least_candidate_at(graph, leave, k));
    }
    if crate::rank::tree_walk::exchange_edges(graph, &leave, &enter) {
        SimplexStep::Exchanged
    } else {
        SimplexStep::ExchangeFailed
    }
}

} // verus!
