//! What a cut value means: the weight of the edges crossing the cut that a
//! tree edge defines.
use vstd::prelude::*;
use crate::graph::{incident, Graph};
use crate::index_map::{has_key, keys_unique};
use crate::rank::network_simplex::{
    child_is_tail, cut_base, cut_value_spec, edge_of, in_term, out_term, parent_of, signed, sum_terms, tree_edge, weight_i32,
};
use crate::types::{Edge, EdgeLabel, NodeIndex};

verus! {

/// The indicator of the node set `s`.
pub open spec fn ind(s: spec_fn(NodeIndex) -> bool) -> spec_fn(NodeIndex) -> int {
    |x: NodeIndex| if s(x) { 1int } else { 0int }
}

/// The indicator of the single node `v`.
pub open spec fn at_node(v: NodeIndex) -> spec_fn(NodeIndex) -> int {
    |x: NodeIndex| if x == v { 1int } else { 0int }
}

/// The weight of edge `e` of `g`.
pub open spec fn w_of(g: &Graph, e: Edge) -> int {
    g.edge_label_spec(e).weight as int
}

/// Over the edges of `s`, each weight times how much `h` rises from the
/// edge's source to its target: for an indicator, the weight entering the
/// set minus the weight leaving it.
pub open spec fn net_flow(g: &Graph, s: Seq<(Edge, EdgeLabel)>, h: spec_fn(NodeIndex) -> int) -> int
    decreases s.len(),
{
    if s.len() == 0 {
        0
    } else {
        w_of(g, s[0].0) * (h(s[0].0.target) - h(s[0].0.source)) + net_flow(g, s.drop_first(), h)
    }
}

/// The weight of the edges of `g` entering the node set `s` minus the
/// weight of those leaving it.
pub open spec fn crossing(g: &Graph, s: spec_fn(NodeIndex) -> bool) -> int {
    net_flow(g, g.entries(), ind(s))
}

/// The sum of the weights of `es`.
pub open spec fn sum_w(g: &Graph, es: Seq<Edge>) -> int
    decreases es.len(),
{
    if es.len() == 0 {
        0
    } else {
        sum_w(g, es.drop_last()) + w_of(g, es.last())
    }
}

/// The sum of the weights of the edges of `es` whose other end (target
/// when `out`, source otherwise) is `p` (when `at`) or is not `p`.
pub open spec fn sum_w_at(g: &Graph, es: Seq<Edge>, p: NodeIndex, out: bool, at: bool) -> int
    decreases es.len(),
{
    if es.len() == 0 {
        0
    } else {
        let e = es.last();
        let other = if out { e.target } else { e.source };
        sum_w_at(g, es.drop_last(), p, out, at) + if (other == p) == at { w_of(g, e) } else { 0 }
    }
}

proof fn lemma_flow_ext(g: &Graph, s: Seq<(Edge, EdgeLabel)>, h1: spec_fn(NodeIndex) -> int, h2: spec_fn(NodeIndex) -> int)
    requires
        forall|x: NodeIndex| #[trigger] h1(x) == h2(x),
    ensures
        net_flow(g, s, h1) == net_flow(g, s, h2),
    decreases s.len(),
{
    if s.len() > 0 {
        lemma_flow_ext(g, s.drop_first(), h1, h2);
        assert(h1(s[0].0.target) == h2(s[0].0.target));
        assert(h1(s[0].0.source) == h2(s[0].0.source));
    }
}

proof fn lemma_flow_add(
    g: &Graph,
    s: Seq<(Edge, EdgeLabel)>,
    h1: spec_fn(NodeIndex) -> int,
    h2: spec_fn(NodeIndex) -> int,
    h3: spec_fn(NodeIndex) -> int,
)
    requires
        forall|x: NodeIndex| #[trigger] h3(x) == h1(x) + h2(x),
    ensures
        net_flow(g, s, h3) == net_flow(g, s, h1) + net_flow(g, s, h2),
    decreases s.len(),
{
    if s.len() > 0 {
        lemma_flow_add(g, s.drop_first(), h1, h2, h3);
        let e = s[0].0;
        let w = w_of(g, e);
        let a1 = h1(e.target);
        let b1 = h1(e.source);
        let a2 = h2(e.target);
        let b2 = h2(e.source);
        assert(h3(e.target) == a1 + a2);
        assert(h3(e.source) == b1 + b2);
        assert(w * ((a1 + a2) - (b1 + b2)) == w * (a1 - b1) + w * (a2 - b2)) by (nonlinear_arith);
    }
}

proof fn lemma_flow_zero(g: &Graph, s: Seq<(Edge, EdgeLabel)>, h: spec_fn(NodeIndex) -> int)
    requires
        forall|x: NodeIndex| #[trigger] h(x) == 0,
    ensures
        net_flow(g, s, h) == 0,
    decreases s.len(),
{
    if s.len() > 0 {
        lemma_flow_zero(g, s.drop_first(), h);
        assert(h(s[0].0.target) == 0);
        assert(h(s[0].0.source) == 0);
    }
}

proof fn lemma_sum_w_push(g: &Graph, es: Seq<Edge>, e: Edge, p: NodeIndex, out: bool, at: bool)
    ensures
        sum_w(g, es.push(e)) == sum_w(g, es) + w_of(g, e),
        sum_w_at(g, es.push(e), p, out, at) == sum_w_at(g, es, p, out, at) + if ((if out { e.target } else { e.source }) == p) == at {
            w_of(g, e)
        } else {
            0
        },
{
    assert(es.push(e).drop_last() =~= es);
}

/// The weight entering `v` minus the weight leaving it, over the edges of
/// `s`, is the weight of its in-edges minus that of its out-edges.
proof fn lemma_flow_at_node(g: &Graph, s: Seq<(Edge, EdgeLabel)>, v: NodeIndex)
    ensures
        net_flow(g, s, at_node(v)) == sum_w(g, incident(s, v, false)) - sum_w(g, incident(s, v, true)),
    decreases s.len(),
{
    if s.len() > 0 {
        let e = s[0].0;
        let rest = s.drop_first();
        lemma_flow_at_node(g, rest, v);
        lemma_sum_w_push(g, incident(rest, v, false), e, v, false, true);
        lemma_sum_w_push(g, incident(rest, v, true), e, v, true, true);
        let w = w_of(g, e);
        let d = at_node(v)(e.target) - at_node(v)(e.source);
        if e.target == v && e.source == v {
            assert(d == 0);
        } else if e.target == v {
            assert(d == 1);
        } else if e.source == v {
            assert(d == -1);
        } else {
            assert(d == 0);
        }
        assert(w * d == (if e.target == v { w } else { 0 }) - (if e.source == v { w } else { 0 })) by (nonlinear_arith)
            requires
                d == (if e.target == v { 1int } else { 0int }) - (if e.source == v { 1int } else { 0int });
    }
}

/// The edges of `incident(s, v, out)` whose other end is `p` weigh what
/// the one entry between `v` and `p` in that direction weighs, when keys
/// are unique.
proof fn lemma_sum_at_parent(g: &Graph, s: Seq<(Edge, EdgeLabel)>, v: NodeIndex, p: NodeIndex, out: bool)
    requires
        keys_unique(s),
    ensures
        sum_w_at(g, incident(s, v, out), p, out, true) == (if has_key(s, if out { edge_of(v, p) } else { edge_of(p, v) }) {
            w_of(g, if out { edge_of(v, p) } else { edge_of(p, v) })
        } else {
            0
        }),
        sum_w_at(g, incident(s, v, out), p, out, true) + sum_w_at(g, incident(s, v, out), p, out, false) == sum_w(
            g,
            incident(s, v, out),
        ),
    decreases s.len(),
{
    let k = if out { edge_of(v, p) } else { edge_of(p, v) };
    if s.len() > 0 {
        let e = s[0].0;
        let rest = s.drop_first();
        assert(keys_unique(rest)) by {
            assert forall|i: int, j: int| 0 <= i < rest.len() && 0 <= j < rest.len() && i != j implies rest[i].0 != rest[j].0 by {
                assert(rest[i] == s[i + 1] && rest[j] == s[j + 1]);
            }
        }
        lemma_sum_at_parent(g, rest, v, p, out);
        lemma_sum_w_push(g, incident(rest, v, out), e, p, out, true);
        lemma_sum_w_push(g, incident(rest, v, out), e, p, out, false);
        if e == k {
            assert(!has_key(rest, k)) by {
                if has_key(rest, k) {
                    let i = choose|i: int| 0 <= i < rest.len() && #[trigger] rest[i].0 == k;
                    assert(s[i + 1] == rest[i]);
                    assert(s[0].0 != s[i + 1].0);
                }
            }
            assert(has_key(s, k)) by {
                assert(s[0].0 == k);
            }
        } else {
            assert(has_key(s, k) == has_key(rest, k)) by {
                if has_key(s, k) {
                    let i = choose|i: int| 0 <= i < s.len() && #[trigger] s[i].0 == k;
                    assert(i != 0);
                    assert(rest[i - 1] == s[i]);
                }
                if has_key(rest, k) {
                    let i = choose|i: int| 0 <= i < rest.len() && #[trigger] rest[i].0 == k;
                    assert(s[i + 1] == rest[i]);
                }
            }
        }
    } else {
        assert(!has_key(s, k));
    }
}


/// `e`, leaving the child, is a tree edge to a node other than its parent `p`.
pub open spec fn out_tree(g: &Graph, p: NodeIndex, e: Edge) -> bool {
    e.target != p && g.edge_label_spec(e).cutvalue is Some
}

/// `e`, entering `child`, is a tree edge from a node other than its parent `p`.
pub open spec fn in_tree(g: &Graph, child: NodeIndex, p: NodeIndex, e: Edge) -> bool {
    e.source != p && tree_edge(g, child, e.source) && g.edge_label_spec(e).cutvalue is Some
}

/// How many of the node sets `below(w)`, for the tree edges `child -> w` in
/// `es` other than to `p`, contain `x`.
pub open spec fn out_cover(
    g: &Graph,
    p: NodeIndex,
    es: Seq<Edge>,
    below: spec_fn(NodeIndex) -> spec_fn(NodeIndex) -> bool,
    x: NodeIndex,
) -> int
    decreases es.len(),
{
    if es.len() == 0 {
        0
    } else {
        out_cover(g, p, es.drop_last(), below, x) + if out_tree(g, p, es.last()) {
            ind(below(es.last().target))(x)
        } else {
            0
        }
    }
}

/// How many of the node sets `below(w)`, for the tree edges `w -> child` in
/// `es` other than from `p`, contain `x`.
pub open spec fn in_cover(
    g: &Graph,
    child: NodeIndex,
    p: NodeIndex,
    es: Seq<Edge>,
    below: spec_fn(NodeIndex) -> spec_fn(NodeIndex) -> bool,
    x: NodeIndex,
) -> int
    decreases es.len(),
{
    if es.len() == 0 {
        0
    } else {
        in_cover(g, child, p, es.drop_last(), below, x) + if in_tree(g, child, p, es.last()) {
            ind(below(es.last().source))(x)
        } else {
            0
        }
    }
}

/// `ind(s)` when `b`, nothing otherwise.
pub open spec fn ind_if(b: bool, s: spec_fn(NodeIndex) -> bool) -> spec_fn(NodeIndex) -> int {
    |x: NodeIndex| if b { ind(s)(x) } else { 0int }
}

/// `out_cover` as a function of the node.
pub open spec fn out_cover_fn(g: &Graph, p: NodeIndex, es: Seq<Edge>, below: spec_fn(NodeIndex) -> spec_fn(NodeIndex) -> bool) -> spec_fn(
    NodeIndex,
) -> int {
    |x: NodeIndex| out_cover(g, p, es, below, x)
}

/// `in_cover` as a function of the node.
pub open spec fn in_cover_fn(
    g: &Graph,
    child: NodeIndex,
    p: NodeIndex,
    es: Seq<Edge>,
    below: spec_fn(NodeIndex) -> spec_fn(NodeIndex) -> bool,
) -> spec_fn(NodeIndex) -> int {
    |x: NodeIndex| in_cover(g, child, p, es, below, x)
}

/// The cut-value part of the terms of the out-edges `es`.
pub open spec fn cv_out(g: &Graph, child: NodeIndex, p: NodeIndex, es: Seq<Edge>) -> int
    decreases es.len(),
{
    if es.len() == 0 {
        0
    } else {
        let e = es.last();
        cv_out(g, child, p, es.drop_last()) + if e.target != p {
            match g.edge_label_spec(e).cutvalue {
                Some(c) => signed(!child_is_tail(g, child, p), c as int),
                None => 0,
            }
        } else {
            0
        }
    }
}

/// The cut-value part of the terms of the in-edges `es`.
pub open spec fn cv_in(g: &Graph, child: NodeIndex, p: NodeIndex, es: Seq<Edge>) -> int
    decreases es.len(),
{
    if es.len() == 0 {
        0
    } else {
        let e = es.last();
        cv_in(g, child, p, es.drop_last()) + if e.source != p && tree_edge(g, child, e.source) {
            match g.edge_label_spec(e).cutvalue {
                Some(c) => signed(child_is_tail(g, child, p), c as int),
                None => 0,
            }
        } else {
            0
        }
    }
}

proof fn lemma_flow_ind_if(g: &Graph, s: Seq<(Edge, EdgeLabel)>, b: bool, t: spec_fn(NodeIndex) -> bool)
    ensures
        net_flow(g, s, ind_if(b, t)) == if b { net_flow(g, s, ind(t)) } else { 0 },
{
    if b {
        assert forall|x: NodeIndex| #[trigger] ind_if(b, t)(x) == ind(t)(x) by {}
        lemma_flow_ext(g, s, ind_if(b, t), ind(t));
    } else {
        assert forall|x: NodeIndex| #[trigger] ind_if(b, t)(x) == 0 by {}
        lemma_flow_zero(g, s, ind_if(b, t));
    }
}

proof fn lemma_cover_out(
    g: &Graph,
    child: NodeIndex,
    p: NodeIndex,
    es: Seq<Edge>,
    below: spec_fn(NodeIndex) -> spec_fn(NodeIndex) -> bool,
)
    requires
        forall|i: int|
            0 <= i < es.len() && out_tree(g, p, #[trigger] es[i]) ==> g.edge_label_spec(es[i]).cutvalue->0 as int == crossing(
                g,
                below(es[i].target),
            ),
    ensures
        signed(!child_is_tail(g, child, p), net_flow(g, g.entries(), out_cover_fn(g, p, es, below))) == cv_out(g, child, p, es),
    decreases es.len(),
{
    let s = g.entries();
    if es.len() == 0 {
        assert forall|x: NodeIndex| #[trigger] out_cover_fn(g, p, es, below)(x) == 0 by {}
        lemma_flow_zero(g, s, out_cover_fn(g, p, es, below));
    } else {
        let d = es.drop_last();
        let e = es.last();
        assert forall|i: int| 0 <= i < d.len() && out_tree(g, p, #[trigger] d[i]) implies g.edge_label_spec(d[i]).cutvalue->0 as int
            == crossing(g, below(d[i].target)) by {
            assert(d[i] == es[i]);
        }
        lemma_cover_out(g, child, p, d, below);
        let b = out_tree(g, p, e);
        assert forall|x: NodeIndex| #[trigger] out_cover_fn(g, p, es, below)(x) == out_cover_fn(g, p, d, below)(x) + ind_if(b, below(e.target))(x) by {}
        lemma_flow_add(g, s, out_cover_fn(g, p, d, below), ind_if(b, below(e.target)), out_cover_fn(g, p, es, below));
        lemma_flow_ind_if(g, s, b, below(e.target));
        if b {
            assert(es[es.len() - 1] == e);
        }
    }
}

proof fn lemma_cover_in(
    g: &Graph,
    child: NodeIndex,
    p: NodeIndex,
    es: Seq<Edge>,
    below: spec_fn(NodeIndex) -> spec_fn(NodeIndex) -> bool,
)
    requires
        forall|i: int|
            0 <= i < es.len() && in_tree(g, child, p, #[trigger] es[i]) ==> g.edge_label_spec(es[i]).cutvalue->0 as int == -crossing(
                g,
                below(es[i].source),
            ),
    ensures
        signed(!child_is_tail(g, child, p), net_flow(g, g.entries(), in_cover_fn(g, child, p, es, below))) == cv_in(g, child, p, es),
    decreases es.len(),
{
    let s = g.entries();
    if es.len() == 0 {
        assert forall|x: NodeIndex| #[trigger] in_cover_fn(g, child, p, es, below)(x) == 0 by {}
        lemma_flow_zero(g, s, in_cover_fn(g, child, p, es, below));
    } else {
        let d = es.drop_last();
        let e = es.last();
        assert forall|i: int| 0 <= i < d.len() && in_tree(g, child, p, #[trigger] d[i]) implies g.edge_label_spec(
            d[i],
        ).cutvalue->0 as int == -crossing(g, below(d[i].source)) by {
            assert(d[i] == es[i]);
        }
        lemma_cover_in(g, child, p, d, below);
        let b = in_tree(g, child, p, e);
        assert forall|x: NodeIndex| #[trigger] in_cover_fn(g, child, p, es, below)(x) == in_cover_fn(g, child, p, d, below)(x) + ind_if(
            b,
            below(e.source),
        )(x) by {}
        lemma_flow_add(g, s, in_cover_fn(g, child, p, d, below), ind_if(b, below(e.source)), in_cover_fn(g, child, p, es, below));
        lemma_flow_ind_if(g, s, b, below(e.source));
        if b {
            assert(es[es.len() - 1] == e);
        }
    }
}


/// Every edge of `g` weighs at most `i32::MAX`.
pub open spec fn weights_fit(g: &Graph) -> bool {
    forall|k: int| 0 <= k < g.entries().len() ==> (#[trigger] g.entries()[k]).1.weight <= i32::MAX
}

proof fn lemma_weight_i32(g: &Graph, e: Edge)
    requires
        weights_fit(g),
        g.has_edge_spec(e),
    ensures
        weight_i32(g.edge_label_spec(e)) == w_of(g, e),
{
    let k = crate::index_map::key_pos(g.entries(), e);
    assert(g.entries()[k].1.weight <= i32::MAX);
    let w = g.edge_label_spec(e).weight;
    assert(w <= i32::MAX);
    assert((w as i32) as int == w as int);
}

proof fn lemma_terms_out(g: &Graph, child: NodeIndex, p: NodeIndex, es: Seq<Edge>)
    requires
        weights_fit(g),
        forall|i: int| 0 <= i < es.len() ==> g.has_edge_spec(#[trigger] es[i]),
    ensures
        sum_terms(g, child, p, es, true) == signed(child_is_tail(g, child, p), sum_w_at(g, es, p, true, false)) + cv_out(g, child, p, es),
    decreases es.len(),
{
    if es.len() > 0 {
        let d = es.drop_last();
        assert forall|i: int| 0 <= i < d.len() implies g.has_edge_spec(#[trigger] d[i]) by {
            assert(d[i] == es[i]);
        }
        lemma_terms_out(g, child, p, d);
        assert(g.has_edge_spec(es[es.len() - 1]));
        lemma_weight_i32(g, es.last());
    }
}

proof fn lemma_terms_in(g: &Graph, child: NodeIndex, p: NodeIndex, es: Seq<Edge>)
    requires
        weights_fit(g),
        forall|i: int| 0 <= i < es.len() ==> g.has_edge_spec(#[trigger] es[i]),
    ensures
        sum_terms(g, child, p, es, false) == signed(!child_is_tail(g, child, p), sum_w_at(g, es, p, false, false)) + cv_in(g, child, p, es),
    decreases es.len(),
{
    if es.len() > 0 {
        let d = es.drop_last();
        assert forall|i: int| 0 <= i < d.len() implies g.has_edge_spec(#[trigger] d[i]) by {
            assert(d[i] == es[i]);
        }
        lemma_terms_in(g, child, p, d);
        assert(g.has_edge_spec(es[es.len() - 1]));
        lemma_weight_i32(g, es.last());
    }
}

proof fn lemma_incident_edges(g: &Graph, v: NodeIndex, out: bool)
    ensures
        forall|i: int| 0 <= i < incident(g.entries(), v, out).len() ==> g.has_edge_spec(#[trigger] incident(g.entries(), v, out)[i]),
{
    assert forall|i: int| 0 <= i < incident(g.entries(), v, out).len() implies g.has_edge_spec(#[trigger] incident(g.entries(), v, out)[i]) by {
        crate::graph::lemma_incident_index(g.entries(), v, out, i);
    }
}

/// The cut value of the tree edge between `child` and its parent is the
/// weight of the edges crossing the cut it defines, counted positively
/// when they point the way the tree edge does and negatively against it.
///
/// Here `s` is the side of the cut holding `child`: `child` itself with
/// the node sets `below(w)` of the tree neighbours `w` of `child` other
/// than its parent, each node counted once; the cut values stored on those
/// tree edges must already be the crossing weights of their own cuts.
/// Between `child` and its parent there is one edge, the tree edge.
pub proof fn lemma_cut_value_is_crossing(
    g: &Graph,
    child: NodeIndex,
    s: spec_fn(NodeIndex) -> bool,
    below: spec_fn(NodeIndex) -> spec_fn(NodeIndex) -> bool,
)
    requires
        g.wf(),
        weights_fit(g),
        g.label_of(child).parent is Some,
        !(g.has_edge_spec(edge_of(child, parent_of(g, child))) && g.has_edge_spec(edge_of(parent_of(g, child), child))),
        forall|x: NodeIndex|
            #[trigger] ind(s)(x) == at_node(child)(x) + out_cover(g, parent_of(g, child), g.out_edges_spec(child), below, x)
                + in_cover(g, child, parent_of(g, child), g.in_edges_spec(child), below, x),
        forall|i: int|
            0 <= i < g.out_edges_spec(child).len() && out_tree(g, parent_of(g, child), #[trigger] g.out_edges_spec(child)[i])
                ==> g.edge_label_spec(g.out_edges_spec(child)[i]).cutvalue->0 as int == crossing(g, below(g.out_edges_spec(child)[i].target)),
        forall|i: int|
            0 <= i < g.in_edges_spec(child).len() && in_tree(g, child, parent_of(g, child), #[trigger] g.in_edges_spec(child)[i])
                ==> g.edge_label_spec(g.in_edges_spec(child)[i]).cutvalue->0 as int == -crossing(g, below(g.in_edges_spec(child)[i].source)),
    ensures
        cut_value_spec(g, child) == signed(!child_is_tail(g, child, parent_of(g, child)), crossing(g, s)),
{
    let p = parent_of(g, child);
    let en = g.entries();
    let outs = g.out_edges_spec(child);
    let ins = g.in_edges_spec(child);
    let tail = child_is_tail(g, child, p);
    let oc = out_cover_fn(g, p, outs, below);
    let ic = in_cover_fn(g, child, p, ins, below);
    let both = |x: NodeIndex| oc(x) + ic(x);
    assert forall|x: NodeIndex| #[trigger] both(x) == oc(x) + ic(x) by {}
    lemma_flow_add(g, en, oc, ic, both);
    assert forall|x: NodeIndex| #[trigger] ind(s)(x) == at_node(child)(x) + both(x) by {
        assert(ind(s)(x) == at_node(child)(x) + out_cover(g, p, outs, below, x) + in_cover(g, child, p, ins, below, x));
    }
    lemma_flow_add(g, en, at_node(child), both, ind(s));
    lemma_cover_out(g, child, p, outs, below);
    lemma_cover_in(g, child, p, ins, below);
    lemma_flow_at_node(g, en, child);
    lemma_sum_at_parent(g, en, child, p, true);
    lemma_sum_at_parent(g, en, child, p, false);
    lemma_incident_edges(g, child, true);
    lemma_incident_edges(g, child, false);
    lemma_terms_out(g, child, p, outs);
    lemma_terms_in(g, child, p, ins);
    if g.has_edge_spec(edge_of(child, p)) {
        lemma_weight_i32(g, edge_of(child, p));
    }
    if g.has_edge_spec(edge_of(p, child)) {
        lemma_weight_i32(g, edge_of(p, child));
    }
}

} // verus!
