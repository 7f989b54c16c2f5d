//! The graph phases of the layout between ranking and ordering: long
//! edges become chains of dummy nodes, subgraphs get border nodes, and
//! self-loops are set aside.
use vstd::prelude::*;
use crate::graph::Graph;
use crate::types::{Dummy, Edge, EdgeLabel, GraphConfig, NodeIndex, NodeLabel};
use crate::util::{build_layer_matrix, layer_matrix, lemma_layer_matrix_nodes, rank_spread_below};

verus! {

/// `l` with a minimum length and a weight of 0 each raised to 1.
pub open spec fn with_default_lengths(l: EdgeLabel) -> EdgeLabel {
    EdgeLabel { minlen: if l.minlen == 0 { 1 } else { l.minlen }, weight: if l.weight == 0 { 1 } else { l.weight }, ..l }
}

/// Raises every edge's minimum length and weight of 0 to 1, as the layout
/// graph takes them; edges keep their places.
pub fn default_edge_lengths(graph: &mut Graph)
    requires
        old(graph).wf(),
    ensures
        final(graph).wf(),
        final(graph).node_seq() == old(graph).node_seq(),
        final(graph).id() == old(graph).id(),
        final(graph).config_spec() == old(graph).config_spec(),
        final(graph).entries().len() == old(graph).entries().len(),
        forall|i: int| 0 <= i < old(graph).entries().len() ==> #[trigger] final(graph).entries()[i] == (
            old(graph).entries()[i].0,
            with_default_lengths(old(graph).entries()[i].1),
        ),
{
    let ghost g0 = *graph;
    let es = graph.edges();
    let mut i: usize = 0;
    while i < es.len()
        invariant
            g0.wf(),
            graph.wf(),
            es@ == g0.edge_seq(),
            i <= es@.len(),
            graph.node_seq() == g0.node_seq(),
            graph.id() == g0.id(),
            graph.config_spec() == g0.config_spec(),
            graph.entries().len() == g0.entries().len(),
            forall|k: int| 0 <= k < g0.entries().len() ==> #[trigger] graph.entries()[k] == if k < i {
                (g0.entries()[k].0, with_default_lengths(g0.entries()[k].1))
            } else {
                g0.entries()[k]
            },
        decreases es@.len() - i,
    {
        let e = es[i];
        let ghost gb = *graph;
        proof {
            assert(gb.entries()[i as int].0 == e);
            assert(g0.entries()[i as int].0 == e);
            crate::graph::lemma_key_pos_unique(gb.entries(), e, i as int);
        }
        if let Some(l) = graph.edge_label_mut(&e) {
            if l.minlen == 0 {
                l.minlen = 1;
            }
            if l.weight == 0 {
                l.weight = 1;
            }
        }
        proof {
            crate::graph::lemma_relabel_edge(&gb, graph, e, with_default_lengths(g0.entries()[i as int].1));
        }
        i += 1;
    }
}

/// The rank of node `v`, when `v` is a node with a rank.
pub open spec fn rank_of(g: &Graph, v: NodeIndex) -> Option<i32> {
    if g.contains_node(v) {
        g.label_of(v).rank
    } else {
        None
    }
}

/// Edge `e` joins two ranked nodes and spans more than one rank.
pub open spec fn is_long(g: &Graph, e: Edge) -> bool {
    &&& rank_of(g, e.source) matches Some(s)
    &&& rank_of(g, e.target) matches Some(t)
    &&& t > s + 1
}

/// How many dummy nodes a long edge needs: one per rank strictly between
/// its end points.
pub open spec fn excess(g: &Graph, e: Edge) -> int {
    if is_long(g, e) {
        rank_of(g, e.target)->0 - rank_of(g, e.source)->0 - 1
    } else {
        0
    }
}

/// The dummy nodes the edges of `es` need, in all.
pub open spec fn excess_sum(g: &Graph, es: Seq<Edge>) -> int
    decreases es.len(),
{
    if es.len() == 0 {
        0
    } else {
        excess_sum(g, es.drop_last()) + excess(g, es.last())
    }
}

/// The number of long edges among `es`.
pub open spec fn long_count(g: &Graph, es: Seq<Edge>) -> int
    decreases es.len(),
{
    if es.len() == 0 {
        0
    } else {
        long_count(g, es.drop_last()) + if is_long(g, es.last()) { 1int } else { 0 }
    }
}

/// The long edges among `es`, in order.
pub open spec fn long_edges(g: &Graph, es: Seq<Edge>) -> Seq<Edge>
    decreases es.len(),
{
    if es.len() == 0 {
        Seq::empty()
    } else {
        let rest = long_edges(g, es.drop_last());
        if is_long(g, es.last()) {
            rest.push(es.last())
        } else {
            rest
        }
    }
}

/// The position of the first dummy node of the chain of the `k`-th long
/// edge of `todo`: the chains are laid out after the nodes of `g0`, in
/// turn.
pub open spec fn chain_base(g0: &Graph, todo: Seq<Edge>, k: int) -> int {
    g0.n() + excess_sum(g0, todo.take(k))
}

/// The `i`-th dummy node (from 0) of a chain whose first dummy node is at
/// position `base`.
pub open spec fn chain_dummy(g0: &Graph, base: int, i: int) -> NodeIndex {
    g0.node_at(base + i)
}

/// The `i`-th stop of the chain of `e`: its source, then the dummy nodes,
/// then its target.
pub open spec fn chain_stop(g0: &Graph, e: Edge, base: int, i: int) -> NodeIndex {
    if i <= 0 {
        e.source
    } else if i > excess(g0, e) {
        e.target
    } else {
        chain_dummy(g0, base, i - 1)
    }
}

/// The `i`-th edge of the chain of `e`, from its `i`-th stop to the next.
pub open spec fn chain_link(g0: &Graph, e: Edge, base: int, i: int) -> Edge {
    Edge { source: chain_stop(g0, e, base, i), target: chain_stop(g0, e, base, i + 1) }
}

/// The label of a dummy node of rank `r` standing for edge `e`.
pub open spec fn is_chain_label(l: NodeLabel, e: Edge, r: int) -> bool {
    &&& l.rank == Some(r as i32)
    &&& l.dummy == Some(Dummy::Edge)
    &&& l.edge_obj == Some(e)
    &&& (NodeLabel { rank: None, dummy: None, edge_obj: None, ..l }).is_default()
}

/// The label of a chain edge of weight `w`.
pub open spec fn is_link_label(l: EdgeLabel, w: u32) -> bool {
    &&& l.weight == w
    &&& (EdgeLabel { weight: 1, ..l }).is_default()
}

/// In `g`, the long edge `e` of `g0` is laid out as its chain from
/// position `base`: the dummy nodes have the ranks strictly between those
/// of its ends, in turn, and consecutive stops are joined by edges of the
/// weight of `e`.
pub open spec fn chain_laid(g: &Graph, g0: &Graph, e: Edge, base: int) -> bool {
    &&& forall|i: int|
        0 <= i < excess(g0, e) ==> is_chain_label(
            g.label_of(#[trigger] chain_dummy(g0, base, i)),
            e,
            rank_of(g0, e.source)->0 + i + 1,
        )
    &&& forall|i: int|
        0 <= i <= excess(g0, e) ==> g.has_edge_spec(#[trigger] chain_link(g0, e, base, i)) && is_link_label(
            g.edge_label_spec(chain_link(g0, e, base, i)),
            g0.edge_label_spec(e).weight,
        )
}

proof fn lemma_chain_base_mono(g0: &Graph, todo: Seq<Edge>, k: int, j: int)
    requires
        0 <= k < j <= todo.len(),
    ensures
        chain_base(g0, todo, k) >= g0.n(),
        chain_base(g0, todo, k) + excess(g0, todo[k]) <= chain_base(g0, todo, j),
    decreases j - k,
{
    lemma_excess_prefix(g0, todo, k);
    lemma_excess_sum_nonneg(g0, todo.take(k));
    if k + 1 < j {
        lemma_chain_base_mono(g0, todo, k + 1, j);
    }
}

/// The chains laid out in `gb` stay as they are in `g` when `g` keeps the
/// nodes of `gb` and every edge of `gb` between two of its nodes that
/// touches a dummy node.
proof fn lemma_chains_kept(g0: &Graph, gb: &Graph, g: &Graph, todo: Seq<Edge>, j: int)
    requires
        g0.wf(),
        forall|k: int| 0 <= k < todo.len() ==> #[trigger] is_long(g0, todo[k]) && g0.has_edge_spec(todo[k]),
        0 <= j <= todo.len(),
        gb.n() == chain_base(g0, todo, j),
        gb.n() < usize::MAX,
        gb.id() == g0.id(),
        g.id() == g0.id(),
        g.n() >= gb.n(),
        forall|i: int| 0 <= i < gb.n() ==> #[trigger] g.node_seq()[i] == gb.node_seq()[i],
        forall|x: Edge|
            #[trigger] gb.has_edge_spec(x) && (x.source.node_index >= g0.n() || x.target.node_index >= g0.n())
                && x.source.node_index < gb.n() && x.target.node_index < gb.n() ==> g.has_edge_spec(x)
                && g.edge_label_spec(x) == gb.edge_label_spec(x),
        forall|k: int| 0 <= k < j ==> #[trigger] chain_laid(gb, g0, todo[k], chain_base(g0, todo, k)),
    ensures
        forall|k: int| 0 <= k < j ==> #[trigger] chain_laid(g, g0, todo[k], chain_base(g0, todo, k)),
{
    assert forall|k: int| 0 <= k < j implies #[trigger] chain_laid(g, g0, todo[k], chain_base(g0, todo, k)) by {
        let e = todo[k];
        let base = chain_base(g0, todo, k);
        lemma_chain_base_mono(g0, todo, k, j);
        assert(is_long(g0, e) && g0.has_edge_spec(e));
        let q = crate::index_map::key_pos(g0.entries(), e);
        assert(g0.entries()[q].0 == e);
        assert(g0.contains_node(e.source) && g0.contains_node(e.target));
        assert(chain_laid(gb, g0, e, base));
        let m = excess(g0, e);
        assert forall|i: int| 0 <= i < m implies is_chain_label(
            g.label_of(#[trigger] chain_dummy(g0, base, i)),
            e,
            rank_of(g0, e.source)->0 + i + 1,
        ) by {
            assert(gb.label_of(chain_dummy(g0, base, i)) == g.label_of(chain_dummy(g0, base, i)));
        }
        assert forall|i: int| 0 <= i <= m implies g.has_edge_spec(#[trigger] chain_link(g0, e, base, i)) && is_link_label(
            g.edge_label_spec(chain_link(g0, e, base, i)),
            g0.edge_label_spec(e).weight,
        ) by {
            let x = chain_link(g0, e, base, i);
            assert(gb.has_edge_spec(x));
            if i < m {
                assert(x.target == chain_dummy(g0, base, i));
            } else {
                assert(x.source == chain_dummy(g0, base, i - 1));
            }
        }
    }
}

/// No edge between two ranked nodes spans more than one rank.
pub open spec fn no_long_edges(g: &Graph) -> bool {
    forall|e: Edge| #[trigger] g.has_edge_spec(e) ==> !is_long(g, e)
}

proof fn lemma_excess_sum_nonneg(g: &Graph, es: Seq<Edge>)
    ensures
        excess_sum(g, es) >= 0,
        long_count(g, es) >= 0,
    decreases es.len(),
{
    if es.len() > 0 {
        lemma_excess_sum_nonneg(g, es.drop_last());
    }
}

/// `g` extends the nodes of `g0`: a node of `g0` keeps its rank.
proof fn lemma_rank_of_stable(g0: &Graph, g: &Graph, v: NodeIndex)
    requires
        g.id() == g0.id(),
        g0.n() <= g.n(),
        forall|i: int| 0 <= i < g0.n() ==> #[trigger] g.node_seq()[i] == g0.node_seq()[i],
        g0.contains_node(v),
    ensures
        rank_of(g, v) == rank_of(g0, v),
{
    assert(g.node_seq()[v.node_index as int] == g0.node_seq()[v.node_index as int]);
}

/// A node just added has no edges.
proof fn lemma_fresh_node_edges(gp: &Graph, ga: &Graph)
    requires
        gp.wf(),
        ga.entries() == gp.entries(),
        ga.id() == gp.id(),
    ensures
        forall|e: Edge| #[trigger] ga.has_edge_spec(e) ==> e.source.node_index < gp.n() && e.target.node_index < gp.n(),
{
    assert forall|e: Edge| #[trigger] ga.has_edge_spec(e) implies e.source.node_index < gp.n() && e.target.node_index < gp.n() by {
        let k = crate::index_map::key_pos(ga.entries(), e);
        assert(gp.entries()[k].0 == e);
        assert(gp.contains_node(gp.entries()[k].0.source));
        assert(gp.contains_node(gp.entries()[k].0.target));
    }
}

/// The dummy nodes of a prefix never outnumber those of the whole list.
proof fn lemma_excess_prefix(g: &Graph, s: Seq<Edge>, k: int)
    requires
        0 <= k <= s.len(),
    ensures
        excess_sum(g, s.take(k)) <= excess_sum(g, s),
        k < s.len() ==> excess_sum(g, s.take(k + 1)) == excess_sum(g, s.take(k)) + excess(g, s[k]),
    decreases s.len() - k,
{
    if k < s.len() {
        assert(s.take(k + 1).drop_last() =~= s.take(k));
        lemma_excess_prefix(g, s, k + 1);
        if excess(g, s[k]) < 0 {
            assert(false);
        }
    } else {
        assert(s.take(k) =~= s);
    }
}

/// The last edge of a chain closes one step of `normalize_edges`.
#[verifier::rlimit(60)]
proof fn lemma_normalize_post(
    g0: &Graph,
    gb: &Graph,
    gr: &Graph,
    ga: &Graph,
    g: &Graph,
    todo: Seq<Edge>,
    j: int,
    fe: Edge,
    fl: EdgeLabel,
)
    requires
        g0.wf(),
        gb.wf(),
        gr.wf(),
        ga.wf(),
        g.wf(),
        0 <= j < todo.len(),
        forall|k: int| 0 <= k < todo.len() ==> #[trigger] is_long(g0, todo[k]) && g0.has_edge_spec(todo[k]),
        forall|a: int, b: int| 0 <= a < b < todo.len() ==> #[trigger] todo[a] != #[trigger] todo[b],
        gb.id() == g0.id(),
        gb.n() >= g0.n(),
        forall|i: int| 0 <= i < g0.n() ==> #[trigger] gb.node_seq()[i] == g0.node_seq()[i],
        forall|e: Edge| #[trigger] gb.has_edge_spec(e) ==> !is_long(gb, e) || todo.subrange(j, todo.len() as int).contains(e),
        forall|e: Edge|
            #[trigger] g0.has_edge_spec(e) && !is_long(g0, e) ==> gb.has_edge_spec(e) && gb.edge_label_spec(e)
                == g0.edge_label_spec(e),
        forall|e: Edge| #[trigger] todo.subrange(j, todo.len() as int).contains(e) ==> gb.has_edge_spec(e),
        forall|e: Edge| #[trigger] todo.take(j).contains(e) ==> !gb.has_edge_spec(e),
        forall|e: Edge|
            #[trigger] gb.has_edge_spec(e) ==> g0.has_edge_spec(e) || e.source.node_index >= g0.n() || e.target.node_index
                >= g0.n(),
        gb.has_edge_spec(todo[j]),
        gr.entries() == gb.entries().update(crate::index_map::key_pos(gb.entries(), todo[j]), gb.entries().last()).drop_last(),
        !gr.has_edge_spec(todo[j]),
        gr.node_seq() == gb.node_seq(),
        gr.id() == gb.id(),
        ga.id() == gr.id(),
        ga.n() >= gr.n(),
        forall|i: int| 0 <= i < gr.n() ==> #[trigger] ga.node_seq()[i] == gr.node_seq()[i],
        forall|e: Edge|
            #[trigger] ga.has_edge_spec(e) ==> gr.has_edge_spec(e) || (!is_long(ga, e) && e.target.node_index >= gr.n()),
        forall|e: Edge| #[trigger] gr.has_edge_spec(e) ==> ga.has_edge_spec(e) && ga.edge_label_spec(e) == gr.edge_label_spec(e),
        !ga.has_edge_spec(fe),
        fe.target == todo[j].target,
        fe.source.node_index >= gr.n(),
        ga.contains_node(fe.source),
        rank_of(ga, fe.source) matches Some(a) && rank_of(gr, todo[j].target) matches Some(b) && b == a + 1,
        g.entries() == ga.entries().push((fe, fl)),
        g.node_seq() == ga.node_seq(),
        g.id() == ga.id(),
    ensures
        forall|e: Edge| #[trigger] g.has_edge_spec(e) ==> !is_long(g, e) || todo.subrange(j + 1, todo.len() as int).contains(e),
        forall|e: Edge|
            #[trigger] g0.has_edge_spec(e) && !is_long(g0, e) ==> g.has_edge_spec(e) && g.edge_label_spec(e)
                == g0.edge_label_spec(e),
        forall|e: Edge| #[trigger] todo.subrange(j + 1, todo.len() as int).contains(e) ==> g.has_edge_spec(e),
        forall|e: Edge| #[trigger] todo.take(j + 1).contains(e) ==> !g.has_edge_spec(e),
        forall|e: Edge|
            #[trigger] g.has_edge_spec(e) ==> g0.has_edge_spec(e) || e.source.node_index >= g0.n() || e.target.node_index
                >= g0.n(),
{
    let edge = todo[j];
    assert forall|x: Edge| x != fe implies (g.has_edge_spec(x) == ga.has_edge_spec(x)) && (ga.has_edge_spec(x)
        ==> g.edge_label_spec(x) == ga.edge_label_spec(x)) by {
        crate::graph::lemma_add_keeps_others(ga, g, fe, fl, x);
    }
    assert forall|x: Edge| x != edge implies (gr.has_edge_spec(x) == gb.has_edge_spec(x)) && (gb.has_edge_spec(x)
        ==> gr.edge_label_spec(x) == gb.edge_label_spec(x)) by {
        crate::graph::lemma_remove_keeps_others(gb, gr, edge, x);
    }
    assert(g.has_edge_spec(fe)) by {
        assert(g.entries()[ga.entries().len() as int].0 == fe);
    }
    assert(rank_of(g, fe.source) == rank_of(ga, fe.source));
    assert(is_long(g0, todo[j]));
    assert(gr.contains_node(fe.target)) by {
        let k = crate::index_map::key_pos(g0.entries(), edge);
        assert(g0.entries()[k].0 == edge);
        assert(g0.contains_node(g0.entries()[k].0.target));
    }
    assert(rank_of(g, fe.target) == rank_of(gr, fe.target)) by {
        assert(ga.node_seq()[fe.target.node_index as int] == gr.node_seq()[fe.target.node_index as int]);
    }
    assert forall|e: Edge| #[trigger] g.has_edge_spec(e) implies !is_long(g, e) || todo.subrange(j + 1, todo.len() as int).contains(e) by {
        if e != fe {
            assert(ga.has_edge_spec(e));
            let k = crate::index_map::key_pos(ga.entries(), e);
            assert(ga.entries()[k].0 == e);
            assert(ga.contains_node(e.source) && ga.contains_node(e.target));
            assert(rank_of(g, e.source) == rank_of(ga, e.source));
            assert(rank_of(g, e.target) == rank_of(ga, e.target));
            if gr.has_edge_spec(e) {
                assert(gb.has_edge_spec(e));
                let kb = crate::index_map::key_pos(gb.entries(), e);
                assert(gb.entries()[kb].0 == e);
                assert(gb.contains_node(e.source) && gb.contains_node(e.target));
                assert(ga.node_seq()[e.source.node_index as int] == gb.node_seq()[e.source.node_index as int]);
                assert(ga.node_seq()[e.target.node_index as int] == gb.node_seq()[e.target.node_index as int]);
                assert(rank_of(ga, e.source) == rank_of(gb, e.source));
                assert(rank_of(ga, e.target) == rank_of(gb, e.target));
                if todo.subrange(j, todo.len() as int).contains(e) {
                    crate::acyclic::lemma_subrange_step(todo, j, e);
                }
            }
        }
    }
    assert forall|e: Edge| #[trigger] g0.has_edge_spec(e) && !is_long(g0, e) implies g.has_edge_spec(e)
        && g.edge_label_spec(e) == g0.edge_label_spec(e) by {
        assert(gb.has_edge_spec(e));
        assert(e != edge);
        assert(gr.has_edge_spec(e));
        let k = crate::index_map::key_pos(g0.entries(), e);
        assert(g0.entries()[k].0 == e);
        assert(g0.contains_node(g0.entries()[k].0.source));
        assert(e != fe);
    }
    assert forall|e: Edge| #[trigger] todo.subrange(j + 1, todo.len() as int).contains(e) implies g.has_edge_spec(e) by {
        let i = choose|i: int| 0 <= i < todo.subrange(j + 1, todo.len() as int).len() && #[trigger] todo.subrange(j + 1, todo.len() as int)[i] == e;
        assert(todo[j + 1 + i] == e);
        assert(todo.subrange(j, todo.len() as int)[i + 1] == e);
        assert(todo.subrange(j, todo.len() as int).contains(e));
        assert(gb.has_edge_spec(e));
        assert(e != edge);
        assert(gr.has_edge_spec(e));
        assert(is_long(g0, todo[j + 1 + i]));
        assert(g0.has_edge_spec(e));
        let k = crate::index_map::key_pos(g0.entries(), e);
        assert(g0.entries()[k].0 == e);
        assert(g0.contains_node(g0.entries()[k].0.source));
        assert(e != fe);
    }
    assert forall|e: Edge| #[trigger] todo.take(j + 1).contains(e) implies !g.has_edge_spec(e) by {
        let i = choose|i: int| 0 <= i < todo.take(j + 1).len() && #[trigger] todo.take(j + 1)[i] == e;
        assert(todo[i] == e);
        assert(is_long(g0, todo[i]));
        assert(g0.has_edge_spec(e));
        let k = crate::index_map::key_pos(g0.entries(), e);
        assert(g0.entries()[k].0 == e);
        assert(g0.contains_node(g0.entries()[k].0.source) && g0.contains_node(g0.entries()[k].0.target));
        if e != edge {
            assert(i < j);
            assert(todo.take(j)[i] == e);
            assert(todo.take(j).contains(e));
            assert(!gb.has_edge_spec(e));
        }
        assert(!gr.has_edge_spec(e));
        assert(e != fe);
    }
    assert forall|e: Edge| #[trigger] g.has_edge_spec(e) implies g0.has_edge_spec(e) || e.source.node_index >= g0.n()
        || e.target.node_index >= g0.n() by {
        if e != fe {
            assert(ga.has_edge_spec(e));
            if gr.has_edge_spec(e) {
                assert(e != edge);
                assert(gb.has_edge_spec(e));
            }
        }
    }
}

/// Replaces every long edge by a chain of dummy nodes, one per rank in
/// between, joined by edges of the long edge's weight; the first dummy
/// node of each chain is recorded in the configuration. Afterwards no edge
/// spans more than one rank.
#[verifier::rlimit(80)]
pub fn normalize_edges(graph: &mut Graph)
    requires
        old(graph).wf(),
        forall|i: int| 0 <= i < old(graph).n() ==> ((#[trigger] old(graph).node_seq()[i]).rank matches Some(r) ==> r < i32::MAX),
        old(graph).n() + excess_sum(old(graph), old(graph).edge_seq()) < usize::MAX,
    ensures
        final(graph).wf(),
        final(graph).id() == old(graph).id(),
        final(graph).n() == old(graph).n() + excess_sum(old(graph), old(graph).edge_seq()),
        forall|i: int| 0 <= i < old(graph).n() ==> #[trigger] final(graph).node_seq()[i] == old(graph).node_seq()[i],
        forall|i: int|
            old(graph).n() <= i < final(graph).n() ==> {
                let l = #[trigger] final(graph).node_seq()[i];
                &&& l.dummy == Some(Dummy::Edge)
                &&& l.rank is Some
                &&& l.edge_obj matches Some(e) && old(graph).has_edge_spec(e) && is_long(old(graph), e)
            },
        no_long_edges(final(graph)),
        forall|e: Edge|
            #[trigger] old(graph).has_edge_spec(e) && !is_long(old(graph), e) ==> final(graph).has_edge_spec(e)
                && final(graph).edge_label_spec(e) == old(graph).edge_label_spec(e),
        forall|e: Edge| #[trigger] old(graph).has_edge_spec(e) && is_long(old(graph), e) ==> !final(graph).has_edge_spec(e),
        forall|e: Edge|
            #[trigger] final(graph).has_edge_spec(e) ==> old(graph).has_edge_spec(e) || e.source.node_index >= old(graph).n()
                || e.target.node_index >= old(graph).n(),
        final(graph).config_spec().dummy_chains matches Some(heads) && heads@.len() == long_count(
            old(graph),
            old(graph).edge_seq(),
        ) && forall|k: int|
            0 <= k < heads@.len() ==> #[trigger] heads@[k] == chain_dummy(
                old(graph),
                chain_base(old(graph), long_edges(old(graph), old(graph).edge_seq()), k),
                0,
            ),
        long_edges(old(graph), old(graph).edge_seq()).len() == long_count(old(graph), old(graph).edge_seq()),
        forall|k: int|
            0 <= k < long_edges(old(graph), old(graph).edge_seq()).len() ==> #[trigger] chain_laid(
                final(graph),
                old(graph),
                long_edges(old(graph), old(graph).edge_seq())[k],
                chain_base(old(graph), long_edges(old(graph), old(graph).edge_seq()), k),
            ),
        final(graph).config_spec() == (GraphConfig {
            dummy_chains: final(graph).config_spec().dummy_chains,
            ..old(graph).config_spec()
        }),
{
    let ghost g0 = *graph;
    let mut dummy_chains: Vec<NodeIndex> = Vec::new();
    let mut edges_to_normalize: Vec<Edge> = Vec::new();
    let edges = graph.edges();
    let mut i: usize = 0;
    while i < edges.len()
        invariant
            *graph == g0,
            g0.wf(),
            forall|i: int| 0 <= i < g0.n() ==> ((#[trigger] g0.node_seq()[i]).rank matches Some(r) ==> r < i32::MAX),
            edges@ == g0.edge_seq(),
            i <= edges@.len(),
            forall|k: int| 0 <= k < edges_to_normalize@.len() ==> #[trigger] is_long(&g0, edges_to_normalize@[k])
                && g0.has_edge_spec(edges_to_normalize@[k]),
            excess_sum(&g0, edges_to_normalize@) == excess_sum(&g0, edges@.take(i as int)),
            forall|a: int, b: int| 0 <= a < b < edges_to_normalize@.len() ==> #[trigger] edges_to_normalize@[a] != #[trigger] edges_to_normalize@[b],
            forall|k: int| 0 <= k < edges_to_normalize@.len() ==> edges@.take(i as int).contains(#[trigger] edges_to_normalize@[k]),
            edges_to_normalize@.len() == long_count(&g0, edges@.take(i as int)),
            edges_to_normalize@ == long_edges(&g0, edges@.take(i as int)),
            forall|e: Edge| #[trigger] g0.has_edge_spec(e) && is_long(&g0, e) ==> (edges_to_normalize@.contains(e) <==> edges@.take(i as int).contains(e)),
        decreases edges@.len() - i,
    {
        let edge = edges[i];
        proof {
            assert(g0.entries()[i as int].0 == edge);
            assert(g0.contains_node(g0.entries()[i as int].0.source));
            assert(g0.contains_node(g0.entries()[i as int].0.target));
            crate::graph::lemma_key_pos_unique(g0.entries(), edge, i as int);
            assert(edges@.take(i + 1).drop_last() =~= edges@.take(i as int));
            assert(edges@.take(i + 1).last() == edge);
        }
        let ghost pre = edges_to_normalize@;
        let sr = match graph.node_label(edge.source) {
            Some(l) => l.rank,
            None => None,
        };
        let tr = match graph.node_label(edge.target) {
            Some(l) => l.rank,
            None => None,
        };
        if let (Some(source_rank), Some(target_rank)) = (sr, tr) {
            if target_rank > source_rank + 1 {
                edges_to_normalize.push(edge);
                proof {
                    assert(edges_to_normalize@.drop_last() =~= pre);
                    assert(is_long(&g0, edge));
                    assert(!edges@.take(i as int).contains(edge)) by {
                        if edges@.take(i as int).contains(edge) {
                            let q = choose|q: int| 0 <= q < edges@.take(i as int).len() && #[trigger] edges@.take(i as int)[q] == edge;
                            assert(g0.entries()[q].0 == g0.entries()[i as int].0);
                        }
                    }
                    assert forall|k: int| 0 <= k < edges_to_normalize@.len() implies #[trigger] is_long(&g0, edges_to_normalize@[k])
                        && g0.has_edge_spec(edges_to_normalize@[k]) by {
                        if k < pre.len() {
                            assert(edges_to_normalize@[k] == pre[k]);
                        }
                    }
                    assert forall|a: int, b: int| 0 <= a < b < edges_to_normalize@.len() implies #[trigger] edges_to_normalize@[a] != #[trigger] edges_to_normalize@[b] by {
                        if b == pre.len() {
                            assert(edges_to_normalize@[a] == pre[a]);
                            assert(edges@.take(i as int).contains(pre[a]));
                        } else {
                            assert(edges_to_normalize@[a] == pre[a] && edges_to_normalize@[b] == pre[b]);
                        }
                    }
                }
            }
        }
        proof {
            assert(edges_to_normalize@ == long_edges(&g0, edges@.take(i + 1)));
            assert forall|k: int| 0 <= k < edges_to_normalize@.len() implies edges@.take(i + 1).contains(#[trigger] edges_to_normalize@[k]) by {
                assert(edges@.take(i + 1) =~= edges@.take(i as int).push(edge));
                crate::acyclic::lemma_contains_push(edges@.take(i as int), edge, edges_to_normalize@[k]);
                if k < pre.len() {
                    assert(edges_to_normalize@[k] == pre[k]);
                }
            }
            assert forall|e: Edge| #[trigger] g0.has_edge_spec(e) && is_long(&g0, e) implies (edges_to_normalize@.contains(e)
                <==> edges@.take(i + 1).contains(e)) by {
                crate::acyclic::lemma_contains_push(pre, edge, e);
                crate::acyclic::lemma_contains_push(edges@.take(i as int), edge, e);
                assert(edges@.take(i + 1) =~= edges@.take(i as int).push(edge));
            }
        }
        i += 1;
    }
    proof {
        assert(edges@.take(edges@.len() as int) =~= edges@);
        assert(edges_to_normalize@ == long_edges(&g0, g0.edge_seq()));
        lemma_excess_sum_nonneg(&g0, edges_to_normalize@);
        assert forall|e: Edge| #[trigger] g0.has_edge_spec(e) && is_long(&g0, e) implies edges_to_normalize@.contains(e) by {
            let k = crate::index_map::key_pos(g0.entries(), e);
            assert(edges@[k] == e);
            assert(edges@.take(edges@.len() as int).contains(e));
        }
        assert(edges_to_normalize@.subrange(0, edges_to_normalize@.len() as int) =~= edges_to_normalize@);
        assert forall|e: Edge| #[trigger] edges_to_normalize@.subrange(0, edges_to_normalize@.len() as int).contains(e)
            implies graph.has_edge_spec(e) by {
            let k = choose|k: int| 0 <= k < edges_to_normalize@.len() && #[trigger] edges_to_normalize@[k] == e;
            assert(is_long(&g0, edges_to_normalize@[k]));
        }
        assert(edges_to_normalize@.take(0) =~= Seq::<Edge>::empty());
    }
    let ghost todo = edges_to_normalize@;
    let mut j: usize = 0;
    while j < edges_to_normalize.len()
        invariant
            j <= todo.len(),
            edges_to_normalize@ == todo,
            g0.wf(),
            graph.wf(),
            graph.id() == g0.id(),
            graph.config_spec() == g0.config_spec(),
            forall|k: int| 0 <= k < todo.len() ==> #[trigger] is_long(&g0, todo[k]) && g0.has_edge_spec(todo[k]),
            forall|e: Edge| #[trigger] g0.has_edge_spec(e) && is_long(&g0, e) ==> todo.contains(e),
            forall|a: int, b: int| 0 <= a < b < todo.len() ==> #[trigger] todo[a] != #[trigger] todo[b],
            g0.n() + excess_sum(&g0, todo) < usize::MAX,
            graph.n() == g0.n() + excess_sum(&g0, todo.take(j as int)),
            dummy_chains@.len() == j,
            forall|i: int| 0 <= i < g0.n() ==> #[trigger] graph.node_seq()[i] == g0.node_seq()[i],
            forall|i: int|
                g0.n() <= i < graph.n() ==> {
                    let l = #[trigger] graph.node_seq()[i];
                    &&& l.dummy == Some(Dummy::Edge)
                    &&& l.rank is Some
                    &&& l.edge_obj matches Some(e) && g0.has_edge_spec(e) && is_long(&g0, e)
                },
            forall|e: Edge|
                #[trigger] graph.has_edge_spec(e) ==> !is_long(graph, e) || todo.subrange(j as int, todo.len() as int).contains(e),
            forall|e: Edge|
                #[trigger] g0.has_edge_spec(e) && !is_long(&g0, e) ==> graph.has_edge_spec(e) && graph.edge_label_spec(e)
                    == g0.edge_label_spec(e),
            forall|e: Edge| #[trigger] todo.subrange(j as int, todo.len() as int).contains(e) ==> graph.has_edge_spec(e),
            forall|e: Edge| #[trigger] todo.take(j as int).contains(e) ==> !graph.has_edge_spec(e),
            forall|e: Edge|
                #[trigger] graph.has_edge_spec(e) ==> g0.has_edge_spec(e) || e.source.node_index >= g0.n()
                    || e.target.node_index >= g0.n(),
            forall|k: int| 0 <= k < j ==> #[trigger] chain_laid(graph, &g0, todo[k], chain_base(&g0, todo, k)),
            forall|k: int| 0 <= k < j ==> #[trigger] dummy_chains@[k] == chain_dummy(&g0, chain_base(&g0, todo, k), 0),
            forall|k: int| j <= k < todo.len() ==> #[trigger] graph.edge_label_spec(todo[k]) == g0.edge_label_spec(todo[k]),
        decreases todo.len() - j,
    {
        let edge = edges_to_normalize[j];
        let ghost gb = *graph;
        proof {
            lemma_excess_prefix(&g0, todo, j as int);
            lemma_excess_sum_nonneg(&g0, todo.take(j as int));
            assert(todo.subrange(j as int, todo.len() as int)[0] == edge);
            assert(todo.subrange(j as int, todo.len() as int).contains(edge));
            assert(graph.has_edge_spec(edge));
            lemma_excess_prefix(&g0, todo, j + 1);
            let k = crate::index_map::key_pos(g0.entries(), edge);
            assert(g0.entries()[k].0 == edge);
            assert(g0.contains_node(edge.source) && g0.contains_node(edge.target));
            lemma_rank_of_stable(&g0, graph, edge.source);
            lemma_rank_of_stable(&g0, graph, edge.target);
            assert(is_long(&g0, edge));
        }
        let edge_weight = match graph.edge_label(&edge) {
            Some(l) => l.weight,
            None => 1,
        };
        let source_rank = match graph.node_label(edge.source) {
            Some(l) => match l.rank {
                Some(r) => r,
                None => 0,
            },
            None => 0,
        };
        let target_rank = match graph.node_label(edge.target) {
            Some(l) => match l.rank {
                Some(r) => r,
                None => 0,
            },
            None => 0,
        };
        let ghost old_chains = dummy_chains@;
        let mut current_node = edge.source;
        let mut current_rank = source_rank;
        let mut is_first_dummy = true;
        proof {
            assert(todo[j as int] == edge);
            assert(gb.edge_label_spec(edge) == g0.edge_label_spec(edge));
            assert(edge_weight == g0.edge_label_spec(edge).weight);
            assert(rank_of(&g0, edge.source) == Some(source_rank));
        }
        graph.remove_edge(&edge);
        let ghost gr = *graph;
        let ghost base = gr.n() as int;
        while current_rank < target_rank - 1
            invariant
                base == gr.n(),
                edge_weight == g0.edge_label_spec(edge).weight,
                rank_of(&g0, edge.source) == Some(source_rank),
                g0.id() == gr.id(),
                current_node == chain_stop(&g0, edge, base, current_rank - source_rank),
                is_first_dummy <==> current_rank == source_rank,
                forall|i: int|
                    0 <= i < current_rank - source_rank ==> is_chain_label(
                        graph.label_of(#[trigger] chain_dummy(&g0, base, i)),
                        edge,
                        source_rank + i + 1,
                    ),
                forall|i: int|
                    0 <= i < current_rank - source_rank ==> graph.has_edge_spec(#[trigger] chain_link(&g0, edge, base, i))
                        && is_link_label(graph.edge_label_spec(chain_link(&g0, edge, base, i)), edge_weight),
                forall|k: int| 0 <= k < j ==> #[trigger] dummy_chains@[k] == old_chains[k],
                !is_first_dummy ==> dummy_chains@[j as int] == chain_dummy(&g0, base, 0),
                graph.wf(),
                graph.id() == g0.id(),
                graph.config_spec() == g0.config_spec(),
                gr.wf(),
                gr.n() >= g0.n(),
                source_rank <= current_rank < target_rank,
                target_rank > source_rank + 1,
                target_rank as int - source_rank - 1 == excess(&g0, edge),
                rank_of(graph, current_node) == Some(current_rank),
                graph.contains_node(current_node),
                is_first_dummy ==> current_node == edge.source && current_rank == source_rank,
                !is_first_dummy ==> current_node.node_index >= gr.n(),
                !is_first_dummy ==> forall|e: Edge| #[trigger] graph.has_edge_spec(e) ==> e.source != current_node,
                graph.n() == gr.n() + (current_rank - source_rank),
                gr.n() + excess(&g0, edge) < usize::MAX,
                forall|i: int| 0 <= i < gr.n() ==> #[trigger] graph.node_seq()[i] == gr.node_seq()[i],
                forall|i: int|
                    gr.n() <= i < graph.n() ==> {
                        let l = #[trigger] graph.node_seq()[i];
                        &&& l.dummy == Some(Dummy::Edge)
                        &&& l.rank is Some
                        &&& l.edge_obj == Some(edge)
                    },
                forall|e: Edge|
                    #[trigger] graph.has_edge_spec(e) ==> gr.has_edge_spec(e) || (!is_long(graph, e) && e.target.node_index
                        >= gr.n()),
                forall|e: Edge|
                    #[trigger] gr.has_edge_spec(e) ==> graph.has_edge_spec(e) && graph.edge_label_spec(e) == gr.edge_label_spec(e),
                dummy_chains@.len() == if is_first_dummy { j as int } else { j + 1 },
            decreases target_rank - current_rank,
        {
            current_rank += 1;
            let mut dummy_label = NodeLabel::default();
            dummy_label.rank = Some(current_rank);
            dummy_label.dummy = Some(Dummy::Edge);
            dummy_label.edge_obj = Some(edge);
            let ghost gp = *graph;
            let dummy_node = graph.add_node(dummy_label);
            let dummy_edge = Edge::new(current_node, dummy_node);
            let mut dummy_edge_label = EdgeLabel::default();
            dummy_edge_label.weight = edge_weight;
            let ghost ga = *graph;
            proof {
                lemma_fresh_node_edges(&gp, &ga);
                assert(!ga.has_edge_spec(dummy_edge));
                assert(ga.contains_node(current_node));
            }
            graph.add_edge(dummy_edge, dummy_edge_label);
            proof {
                assert(graph.entries() == ga.entries().push((dummy_edge, dummy_edge_label)));
                assert forall|i: int| 0 <= i < gr.n() implies #[trigger] graph.node_seq()[i] == gr.node_seq()[i] by {
                    assert(gp.node_seq()[i] == gr.node_seq()[i]);
                }
                assert forall|e: Edge| #[trigger] graph.has_edge_spec(e) implies gr.has_edge_spec(e) || (!is_long(graph, e)
                    && e.target.node_index >= gr.n()) by {
                    if e != dummy_edge {
                        crate::graph::lemma_add_keeps_others(&ga, graph, dummy_edge, dummy_edge_label, e);
                        assert(gp.has_edge_spec(e));
                        if !gr.has_edge_spec(e) {
                            lemma_rank_of_stable(&gp, graph, e.source);
                            lemma_rank_of_stable(&gp, graph, e.target);
                            let k = crate::index_map::key_pos(gp.entries(), e);
                            assert(gp.entries()[k].0 == e);
                            assert(gp.contains_node(e.source) && gp.contains_node(e.target));
                        }
                    } else {
                        lemma_rank_of_stable(&gp, graph, current_node);
                    }
                }
                assert forall|e: Edge| #[trigger] gr.has_edge_spec(e) implies graph.has_edge_spec(e) && graph.edge_label_spec(e)
                    == gr.edge_label_spec(e) by {
                    assert(gp.has_edge_spec(e));
                    crate::graph::lemma_add_keeps_others(&ga, graph, dummy_edge, dummy_edge_label, e);
                }
                assert forall|e: Edge| #[trigger] graph.has_edge_spec(e) implies e.source != dummy_node by {
                    if e != dummy_edge {
                        crate::graph::lemma_add_keeps_others(&ga, graph, dummy_edge, dummy_edge_label, e);
                    }
                }
                assert(graph.contains_node(dummy_node));
                assert(rank_of(graph, dummy_node) == Some(current_rank));
            }
            let ghost was_first = is_first_dummy;
            let ghost chains_pre = dummy_chains@;
            if is_first_dummy {
                dummy_chains.push(dummy_node);
                is_first_dummy = false;
            }
            current_node = dummy_node;
            proof {
                let c = current_rank - source_rank;
                assert(dummy_node == chain_dummy(&g0, base, c - 1));
                assert(graph.label_of(dummy_node) == dummy_label);
                assert forall|i: int| 0 <= i < c implies is_chain_label(
                    graph.label_of(#[trigger] chain_dummy(&g0, base, i)),
                    edge,
                    source_rank + i + 1,
                ) by {
                    if i < c - 1 {
                        assert(graph.label_of(chain_dummy(&g0, base, i)) == gp.label_of(chain_dummy(&g0, base, i)));
                    }
                }
                assert forall|i: int| 0 <= i < c implies graph.has_edge_spec(#[trigger] chain_link(&g0, edge, base, i))
                    && is_link_label(graph.edge_label_spec(chain_link(&g0, edge, base, i)), edge_weight) by {
                    let x = chain_link(&g0, edge, base, i);
                    if i < c - 1 {
                        assert(gp.has_edge_spec(x));
                        assert(x.target == chain_dummy(&g0, base, i));
                        assert(x != dummy_edge);
                        crate::graph::lemma_add_keeps_others(&ga, graph, dummy_edge, dummy_edge_label, x);
                    } else {
                        assert(x == dummy_edge);
                    }
                }
                assert forall|k: int| 0 <= k < j implies #[trigger] dummy_chains@[k] == old_chains[k] by {
                    assert(dummy_chains@[k] == chains_pre[k]);
                }
                if !was_first {
                    assert(dummy_chains@ == chains_pre);
                }
            }
        }
        let final_edge = Edge::new(current_node, edge.target);
        let mut final_edge_label = EdgeLabel::default();
        final_edge_label.weight = edge_weight;
        let ghost ga = *graph;
        proof {
            assert(gr.contains_node(edge.target));
            assert(!ga.has_edge_spec(final_edge));
        }
        graph.add_edge(final_edge, final_edge_label);
        proof {
            assert(graph.entries() == ga.entries().push((final_edge, final_edge_label)));
            assert(!is_first_dummy);
            lemma_excess_sum_nonneg(&g0, todo.take(j as int));
            assert(gr.n() >= g0.n());
            assert forall|i: int| 0 <= i < g0.n() implies #[trigger] graph.node_seq()[i] == g0.node_seq()[i] by {
                assert(ga.node_seq()[i] == gr.node_seq()[i]);
            }
            assert forall|i: int| g0.n() <= i < graph.n() implies {
                let l = #[trigger] graph.node_seq()[i];
                &&& l.dummy == Some(Dummy::Edge)
                &&& l.rank is Some
                &&& l.edge_obj matches Some(e) && g0.has_edge_spec(e) && is_long(&g0, e)
            } by {
                if i < gr.n() {
                    assert(ga.node_seq()[i] == gr.node_seq()[i]);
                    assert(gb.node_seq()[i] == gr.node_seq()[i]);
                } else {
                    assert(ga.node_seq()[i].edge_obj == Some(edge));
                }
            }
            lemma_rank_of_stable(&gb, &gr, edge.target);
            assert forall|k: int| 0 <= k < todo.len() implies #[trigger] is_long(&g0, todo[k]) && g0.has_edge_spec(todo[k]) by {}
            lemma_normalize_post(&g0, &gb, &gr, &ga, graph, todo, j as int, final_edge, final_edge_label);
        }
        proof {
            let m = excess(&g0, edge);
            assert(current_rank - source_rank == m);
            assert(base == chain_base(&g0, todo, j as int));
            assert(final_edge == chain_link(&g0, edge, base, m));
            let eq = crate::index_map::key_pos(g0.entries(), edge);
            assert(g0.entries()[eq].0 == edge);
            assert(g0.contains_node(edge.source) && g0.contains_node(edge.target));
            assert forall|i: int| 0 <= i < m implies is_chain_label(
                graph.label_of(#[trigger] chain_dummy(&g0, base, i)),
                edge,
                rank_of(&g0, edge.source)->0 + i + 1,
            ) by {
                assert(graph.label_of(chain_dummy(&g0, base, i)) == ga.label_of(chain_dummy(&g0, base, i)));
            }
            assert forall|i: int| 0 <= i <= m implies graph.has_edge_spec(#[trigger] chain_link(&g0, edge, base, i))
                && is_link_label(graph.edge_label_spec(chain_link(&g0, edge, base, i)), g0.edge_label_spec(edge).weight) by {
                let x = chain_link(&g0, edge, base, i);
                if i < m {
                    assert(ga.has_edge_spec(x));
                    assert(x.source != final_edge.source);
                    crate::graph::lemma_add_keeps_others(&ga, graph, final_edge, final_edge_label, x);
                }
            }
            assert(chain_laid(graph, &g0, edge, chain_base(&g0, todo, j as int)));
            assert forall|x: Edge|
                #[trigger] gb.has_edge_spec(x) && (x.source.node_index >= g0.n() || x.target.node_index >= g0.n())
                    && x.source.node_index < gb.n() && x.target.node_index < gb.n() implies graph.has_edge_spec(x)
                    && graph.edge_label_spec(x) == gb.edge_label_spec(x) by {
                assert(x != edge);
                crate::graph::lemma_remove_keeps_others(&gb, &gr, edge, x);
                assert(gr.has_edge_spec(x));
                assert(x != final_edge);
                crate::graph::lemma_add_keeps_others(&ga, graph, final_edge, final_edge_label, x);
            }
            assert forall|i: int| 0 <= i < gb.n() implies #[trigger] graph.node_seq()[i] == gb.node_seq()[i] by {
                assert(ga.node_seq()[i] == gr.node_seq()[i]);
            }
            lemma_chains_kept(&g0, &gb, graph, todo, j as int);
            assert forall|k: int| 0 <= k < j + 1 implies #[trigger] chain_laid(graph, &g0, todo[k], chain_base(&g0, todo, k)) by {
                if k == j {
                    assert(todo[k] == edge);
                }
            }
            assert forall|k: int| j + 1 <= k < todo.len() implies #[trigger] graph.edge_label_spec(todo[k]) == g0.edge_label_spec(todo[k]) by {
                let x = todo[k];
                assert(x != edge);
                assert(todo.subrange(j as int, todo.len() as int)[k - j] == x);
                assert(todo.subrange(j as int, todo.len() as int).contains(x));
                assert(gb.has_edge_spec(x));
                assert(is_long(&g0, todo[k]));
                assert(gb.edge_label_spec(x) == g0.edge_label_spec(x));
                crate::graph::lemma_remove_keeps_others(&gb, &gr, edge, x);
                let xq = crate::index_map::key_pos(g0.entries(), x);
                assert(g0.entries()[xq].0 == x);
                assert(g0.contains_node(x.source));
                assert(x != final_edge);
                crate::graph::lemma_add_keeps_others(&ga, graph, final_edge, final_edge_label, x);
            }
            assert forall|k: int| 0 <= k < j + 1 implies #[trigger] dummy_chains@[k] == chain_dummy(&g0, chain_base(&g0, todo, k), 0) by {
                if k < j {
                    assert(dummy_chains@[k] == old_chains[k]);
                }
            }
        }
        j += 1;
    }
    let ghost gf = *graph;
    proof {
        assert(todo.take(todo.len() as int) =~= todo);
        assert(todo.subrange(todo.len() as int, todo.len() as int).len() == 0);
        assert(no_long_edges(&gf));
    }
    let config = graph.config_mut();
    config.dummy_chains = Some(dummy_chains);
    proof {
        assert forall|i: int| 0 <= i < graph.entries().len() implies graph.contains_node(#[trigger] graph.entries()[i].0.source)
            && graph.contains_node(graph.entries()[i].0.target) by {
            assert(gf.contains_node(gf.entries()[i].0.source));
            assert(gf.contains_node(gf.entries()[i].0.target));
        }
        assert forall|e: Edge| #[trigger] graph.has_edge_spec(e) implies !is_long(graph, e) by {
            assert(gf.has_edge_spec(e));
        }
        assert forall|e: Edge| #[trigger] graph.has_edge_spec(e) implies g0.has_edge_spec(e) || e.source.node_index >= g0.n()
            || e.target.node_index >= g0.n() by {
            assert(gf.has_edge_spec(e));
        }
        assert forall|e: Edge| #[trigger] g0.has_edge_spec(e) && !is_long(&g0, e) implies graph.has_edge_spec(e)
            && graph.edge_label_spec(e) == g0.edge_label_spec(e) by {
            assert(gf.has_edge_spec(e));
        }
        assert forall|e: Edge| #[trigger] g0.has_edge_spec(e) && is_long(&g0, e) implies !graph.has_edge_spec(e) by {
            assert(todo.contains(e));
            assert(todo.take(todo.len() as int).contains(e));
            assert(!gf.has_edge_spec(e));
        }
        assert(graph.entries() == gf.entries() && graph.node_seq() == gf.node_seq());
        assert forall|k: int| 0 <= k < todo.len() implies #[trigger] chain_laid(graph, &g0, todo[k], chain_base(&g0, todo, k)) by {
            assert(chain_laid(&gf, &g0, todo[k], chain_base(&g0, todo, k)));
        }
    }
}

/// The greatest of 0 and the ranks of the first `k` nodes.
pub open spec fn max_rank_from_zero(g: &Graph, k: int) -> int
    decreases k,
{
    if k <= 0 {
        0
    } else {
        let m = max_rank_from_zero(g, k - 1);
        match g.node_seq()[k - 1].rank {
            Some(r) => if r > m { r as int } else { m },
            None => m,
        }
    }
}

pub proof fn lemma_max_rank_from_zero_bounds(g: &Graph, k: int)
    ensures
        0 <= max_rank_from_zero(g, k) <= i32::MAX,
    decreases k,
{
    if k > 0 {
        lemma_max_rank_from_zero_bounds(g, k - 1);
    }
}

/// Records in the configuration the greatest rank of a node, or 0 when it
/// is below 0 or no node has a rank.
pub fn assign_rank_min_max(graph: &mut Graph)
    ensures
        final(graph).node_seq() == old(graph).node_seq(),
        final(graph).entries() == old(graph).entries(),
        final(graph).id() == old(graph).id(),
        final(graph).config_spec() == (GraphConfig {
            max_rank: Some(max_rank_from_zero(old(graph), old(graph).n() as int) as i32),
            ..old(graph).config_spec()
        }),
{
    let n = graph.node_count();
    let id = graph.graph_id();
    let mut max_rank: i32 = 0;
    let mut i: usize = 0;
    while i < n
        invariant
            n == graph.n(),
            id == graph.id(),
            i <= n,
            max_rank == max_rank_from_zero(graph, i as int),
        decreases n - i,
    {
        let v = NodeIndex { node_index: i, which_graph: id };
        if let Some(label) = graph.node_label(v) {
            if let Some(rank) = label.rank {
                if rank > max_rank {
                    max_rank = rank;
                }
            }
        }
        i += 1;
    }
    let config = graph.config_mut();
    config.max_rank = Some(max_rank);
}

/// Removes every edge that joins a node to itself; other edges keep their
/// labels.
pub fn remove_self_edges(graph: &mut Graph)
    requires
        old(graph).wf(),
    ensures
        final(graph).wf(),
        final(graph).node_seq() == old(graph).node_seq(),
        final(graph).id() == old(graph).id(),
        final(graph).config_spec() == old(graph).config_spec(),
        forall|e: Edge| #[trigger] final(graph).has_edge_spec(e) <==> old(graph).has_edge_spec(e) && e.source != e.target,
        forall|e: Edge|
            #[trigger] final(graph).has_edge_spec(e) ==> final(graph).edge_label_spec(e) == old(graph).edge_label_spec(e),
{
    let ghost g0 = *graph;
    let mut self_edges: Vec<Edge> = Vec::new();
    let edges = graph.edges();
    let mut i: usize = 0;
    while i < edges.len()
        invariant
            *graph == g0,
            g0.wf(),
            edges@ == g0.edge_seq(),
            i <= edges@.len(),
            forall|k: int| 0 <= k < self_edges@.len() ==> (#[trigger] self_edges@[k]).source == self_edges@[k].target,
            forall|e: Edge| #[trigger] g0.has_edge_spec(e) && e.source == e.target ==> (self_edges@.contains(e) <==> edges@.take(i as int).contains(e)),
            forall|k: int| 0 <= k < self_edges@.len() ==> g0.has_edge_spec(#[trigger] self_edges@[k]),
        decreases edges@.len() - i,
    {
        let edge = edges[i];
        let ghost pre = self_edges@;
        proof {
            assert(g0.entries()[i as int].0 == edge);
            crate::graph::lemma_key_pos_unique(g0.entries(), edge, i as int);
        }
        if edge.source == edge.target {
            self_edges.push(edge);
        }
        proof {
            assert(edges@.take(i + 1) =~= edges@.take(i as int).push(edge));
            assert forall|e: Edge| #[trigger] g0.has_edge_spec(e) && e.source == e.target implies (self_edges@.contains(e)
                <==> edges@.take(i + 1).contains(e)) by {
                crate::acyclic::lemma_contains_push(pre, edge, e);
                crate::acyclic::lemma_contains_push(edges@.take(i as int), edge, e);
            }
            assert forall|k: int| 0 <= k < self_edges@.len() implies (#[trigger] self_edges@[k]).source == self_edges@[k].target
                && g0.has_edge_spec(self_edges@[k]) by {
                if k < pre.len() {
                    assert(self_edges@[k] == pre[k]);
                }
            }
        }
        i += 1;
    }
    proof {
        assert(edges@.take(edges@.len() as int) =~= edges@);
        assert forall|e: Edge| #[trigger] g0.has_edge_spec(e) && e.source == e.target implies self_edges@.contains(e) by {
            let k = crate::index_map::key_pos(g0.entries(), e);
            assert(edges@[k] == e);
            assert(edges@.take(edges@.len() as int).contains(e));
        }
    }
    let mut j: usize = 0;
    while j < self_edges.len()
        invariant
            j <= self_edges@.len(),
            graph.wf(),
            graph.node_seq() == g0.node_seq(),
            graph.id() == g0.id(),
            graph.config_spec() == g0.config_spec(),
            forall|k: int| 0 <= k < self_edges@.len() ==> (#[trigger] self_edges@[k]).source == self_edges@[k].target,
            forall|e: Edge| #[trigger] g0.has_edge_spec(e) && e.source == e.target ==> self_edges@.contains(e),
            forall|e: Edge|
                #[trigger] graph.has_edge_spec(e) <==> g0.has_edge_spec(e) && !(e.source == e.target && self_edges@.take(
                    j as int,
                ).contains(e)),
            forall|e: Edge| #[trigger] graph.has_edge_spec(e) ==> graph.edge_label_spec(e) == g0.edge_label_spec(e),
        decreases self_edges@.len() - j,
    {
        let edge = self_edges[j];
        let ghost gb = *graph;
        graph.remove_edge(&edge);
        proof {
            assert(self_edges@.take(j + 1) =~= self_edges@.take(j as int).push(edge));
            assert(self_edges@.contains(edge));
            assert forall|e: Edge| #[trigger] graph.has_edge_spec(e) <==> g0.has_edge_spec(e) && !(e.source == e.target
                && self_edges@.take(j + 1).contains(e)) by {
                crate::acyclic::lemma_contains_push(self_edges@.take(j as int), edge, e);
                if e == edge {
                    assert(!graph.has_edge_spec(edge));
                } else if gb.has_edge_spec(edge) {
                    crate::graph::lemma_remove_keeps_others(&gb, graph, edge, e);
                } else {
                    assert(graph.entries() == gb.entries());
                    assert(graph.has_edge_spec(e) == gb.has_edge_spec(e));
                }
            }
            assert forall|e: Edge| #[trigger] graph.has_edge_spec(e) implies graph.edge_label_spec(e) == g0.edge_label_spec(e) by {
                if e != edge {
                    if gb.has_edge_spec(edge) {
                        crate::graph::lemma_remove_keeps_others(&gb, graph, edge, e);
                    } else {
                        assert(graph.entries() == gb.entries());
                    }
                    assert(gb.has_edge_spec(e));
                }
            }
        }
        j += 1;
    }
    proof {
        assert(self_edges@.take(self_edges@.len() as int) =~= self_edges@);
    }
}

/// Doubles the minimum length of every edge, leaving room for edge labels
/// between ranks.
#[verifier::spinoff_prover]
pub fn make_space_for_edge_labels(graph: &mut Graph)
    requires
        old(graph).wf(),
        forall|k: int|
            0 <= k < old(graph).entries().len() ==> i32::MIN <= 2 * (#[trigger] old(graph).entries()[k]).1.minlen
                <= i32::MAX,
    ensures
        final(graph).wf(),
        final(graph).node_seq() == old(graph).node_seq(),
        final(graph).id() == old(graph).id(),
        final(graph).config_spec() == old(graph).config_spec(),
        final(graph).entries().len() == old(graph).entries().len(),
        forall|k: int|
            0 <= k < old(graph).entries().len() ==> #[trigger] final(graph).entries()[k] == (
            old(graph).entries()[k].0,
            EdgeLabel { minlen: (2 * old(graph).entries()[k].1.minlen) as i32, ..old(graph).entries()[k].1 },
        ),
{
    let ghost g0 = *graph;
    let edges = graph.edges();
    let mut i: usize = 0;
    while i < edges.len()
        invariant
            edges@ == g0.edge_seq(),
            i <= edges@.len(),
            g0.wf(),
            graph.wf(),
            graph.node_seq() == g0.node_seq(),
            graph.id() == g0.id(),
            graph.config_spec() == g0.config_spec(),
            graph.entries().len() == g0.entries().len(),
            forall|k: int| 0 <= k < g0.entries().len() ==> (#[trigger] graph.entries()[k]).0 == g0.entries()[k].0,
            forall|k: int|
                0 <= k < g0.entries().len() ==> i32::MIN <= 2 * (#[trigger] g0.entries()[k]).1.minlen <= i32::MAX,
            forall|k: int|
                0 <= k < g0.entries().len() ==> #[trigger] graph.entries()[k] == if k < i {
                    (g0.entries()[k].0, EdgeLabel { minlen: (2 * g0.entries()[k].1.minlen) as i32, ..g0.entries()[k].1 })
                } else {
                    g0.entries()[k]
                },
        decreases edges@.len() - i,
    {
        let edge = edges[i];
        let ghost gb = *graph;
        proof {
            assert(graph.entries()[i as int].0 == edge);
            assert forall|a: int, b: int| #![trigger graph.entries()[a], graph.entries()[b]] 0 <= a < graph.entries().len()
                && 0 <= b < graph.entries().len() && a != b implies graph.entries()[a].0 != graph.entries()[b].0 by {
                assert(g0.entries()[a].0 != g0.entries()[b].0);
            }
            crate::graph::lemma_key_pos_unique(graph.entries(), edge, i as int);
        }
        if let Some(edge_label) = graph.edge_label_mut(&edge) {
            edge_label.minlen = edge_label.minlen * 2;
        }
        proof {
            assert forall|k: int| 0 <= k < g0.entries().len() implies #[trigger] graph.entries()[k] == if k < i + 1 {
                (g0.entries()[k].0, EdgeLabel { minlen: (2 * g0.entries()[k].1.minlen) as i32, ..g0.entries()[k].1 })
            } else {
                g0.entries()[k]
            } by {
                if k == i {
                    assert(gb.entries()[k] == g0.entries()[k]);
                }
            }
            assert forall|q: int| 0 <= q < graph.entries().len() implies graph.contains_node(#[trigger] graph.entries()[q].0.source)
                && graph.contains_node(graph.entries()[q].0.target) by {
                assert(g0.contains_node(g0.entries()[q].0.source));
                assert(g0.contains_node(g0.entries()[q].0.target));
            }
            assert forall|a: int, b: int| #![trigger graph.entries()[a], graph.entries()[b]] 0 <= a < graph.entries().len()
                && 0 <= b < graph.entries().len() && a != b implies graph.entries()[a].0 != graph.entries()[b].0 by {
                assert(g0.entries()[a].0 != g0.entries()[b].0);
            }
        }
        i += 1;
    }
}

/// `l` is the label of a border node: rank `rank`, side `side`, child of
/// `parent`, everything else unset.
pub open spec fn is_border_label(l: NodeLabel, rank: int, side: Seq<char>, parent: NodeIndex) -> bool {
    &&& l.rank == Some(rank as i32)
    &&& l.dummy == Some(Dummy::Border)
    &&& l.parent == Some(parent)
    &&& l.border_type matches Some(t) && t@ == side
    &&& l.label is None
    &&& l.order is None
    &&& !l.hidden
    &&& l.min_rank is None
    &&& l.max_rank is None
    &&& l.border_left@.len() == 0
    &&& l.border_right@.len() == 0
    &&& l.border_top is None
    &&& l.border_bottom is None
    &&& l.edge_obj is None
    &&& l.low is None
    &&& l.lim is None
}

/// Adds a border node of rank `rank` on side `border_type` as a child of
/// `parent`, and returns it.
fn add_border_node(graph: &mut Graph, border_type: &str, prefix: &str, parent: NodeIndex, rank: i32) -> (r: NodeIndex)
    requires
        old(graph).wf(),
        old(graph).n() < usize::MAX,
        parent.which_graph == old(graph).id(),
    ensures
        final(graph).wf(),
        r == old(graph).node_at(old(graph).n() as int),
        final(graph).n() == old(graph).n() + 1,
        forall|i: int| 0 <= i < old(graph).n() ==> #[trigger] final(graph).node_seq()[i] == old(graph).node_seq()[i],
        is_border_label(final(graph).node_seq()[old(graph).n() as int], rank as int, border_type@, parent),
        final(graph).entries() == old(graph).entries(),
        final(graph).id() == old(graph).id(),
        final(graph).config_spec() == old(graph).config_spec(),
{
    let mut border_label = NodeLabel::default();
    border_label.rank = Some(rank);
    border_label.border_type = Some(border_type.to_owned());
    border_label.dummy = Some(Dummy::Border);
    let border_node = graph.add_node(border_label);
    let ghost ga = *graph;
    graph.set_parent(border_node, parent);
    proof {
        crate::graph::lemma_wf_same_shape(&ga, graph);
    }
    border_node
}

/// The number of ranks from `min_rank` to `max_rank` of a node that has
/// both, 0 otherwise.
pub open spec fn span(l: NodeLabel) -> int {
    match (l.min_rank, l.max_rank) {
        (Some(a), Some(b)) => if a <= b { b - a + 1 } else { 0 },
        _ => 0,
    }
}

/// The distance from the least to the greatest rank of a node is an `i32`.
pub open spec fn range_fits(l: NodeLabel) -> bool {
    match (l.min_rank, l.max_rank) {
        (Some(a), Some(b)) => b - a <= i32::MAX,
        _ => true,
    }
}

/// The spans of the first `k` nodes, summed.
pub open spec fn span_total(g: &Graph, k: int) -> int
    decreases k,
{
    if k <= 0 {
        0
    } else {
        span_total(g, k - 1) + span(g.node_seq()[k - 1])
    }
}

proof fn lemma_span_total_mono(g: &Graph, a: int, b: int)
    requires
        0 <= a <= b,
    ensures
        0 <= span_total(g, a) <= span_total(g, b),
    decreases b,
{
    if b > a {
        lemma_span_total_mono(g, a, b - 1);
    } else if a > 0 {
        lemma_span_total_mono(g, 0, a - 1);
    }
}

/// The edge from the `k - 1`-th to the `k`-th node of `side`.
pub open spec fn chain_edge(side: Seq<NodeIndex>, k: int) -> Edge {
    Edge { source: side[k - 1], target: side[k] }
}

/// `side` lists `len` border nodes of `g`, the `k`-th of rank `mn + k` on
/// side `name`, children of `v`, all at positions from `lo` on.
pub open spec fn chain_nodes(g: &Graph, v: NodeIndex, side: Seq<NodeIndex>, len: int, mn: int, name: Seq<char>, lo: int) -> bool {
    &&& side.len() == len
    &&& forall|k: int| 0 <= k < len ==> {
        let x = #[trigger] side[k];
        &&& x.which_graph == g.id()
        &&& lo <= x.node_index < g.n()
        &&& is_border_label(g.node_seq()[x.node_index as int], mn + k, name, v)
    }
}

/// The first `len` nodes of `side` are joined, each to the next, by an
/// edge with a fresh label.
pub open spec fn chain_edges(g: &Graph, side: Seq<NodeIndex>, len: int) -> bool {
    forall|k: int| 1 <= k < len ==> g.has_edge_spec(#[trigger] chain_edge(side, k)) && g.edge_label_spec(chain_edge(side, k)).is_default()
}

/// The borders of node `v` in `g` are set up: `len` border nodes, joined
/// in order.
pub open spec fn border_chain(g: &Graph, v: NodeIndex, side: Seq<NodeIndex>, len: int, mn: int, name: Seq<char>, lo: int) -> bool {
    &&& chain_nodes(g, v, side, len, mn, name, lo)
    &&& chain_edges(g, side, len)
}

/// A chain stays set up while nodes are only added after position `lo`
/// and edges only added.
proof fn lemma_chain_kept(
    ga: &Graph,
    gb: &Graph,
    v: NodeIndex,
    side: Seq<NodeIndex>,
    len: int,
    mn: int,
    name: Seq<char>,
    lo: int,
    elen: int,
)
    requires
        chain_nodes(ga, v, side, len, mn, name, lo),
        chain_edges(ga, side, elen),
        elen <= len,
        gb.id() == ga.id(),
        gb.n() >= ga.n(),
        forall|x: int| lo <= x < ga.n() ==> #[trigger] gb.node_seq()[x] == ga.node_seq()[x],
        forall|e: Edge| #[trigger] ga.has_edge_spec(e) ==> gb.has_edge_spec(e) && gb.edge_label_spec(e) == ga.edge_label_spec(e),
    ensures
        chain_nodes(gb, v, side, len, mn, name, lo),
        chain_edges(gb, side, elen),
{
    assert forall|k: int| 0 <= k < len implies {
        let x = #[trigger] side[k];
        &&& x.which_graph == gb.id()
        &&& lo <= x.node_index < gb.n()
        &&& is_border_label(gb.node_seq()[x.node_index as int], mn + k, name, v)
    } by {
        assert(gb.node_seq()[side[k].node_index as int] == ga.node_seq()[side[k].node_index as int]);
    }
    assert forall|k: int| 1 <= k < elen implies gb.has_edge_spec(#[trigger] chain_edge(side, k)) && gb.edge_label_spec(chain_edge(side, k)).is_default() by {
        assert(ga.has_edge_spec(chain_edge(side, k)));
    }
}

/// Adding an edge that was absent keeps every other edge with its label.
proof fn lemma_fresh_add(ga: &Graph, gb: &Graph, e: Edge, l: EdgeLabel)
    requires
        ga.wf(),
        gb.wf(),
        !ga.has_edge_spec(e),
        gb.entries() == ga.entries().push((e, l)),
    ensures
        forall|f: Edge| #[trigger] ga.has_edge_spec(f) ==> gb.has_edge_spec(f) && gb.edge_label_spec(f) == ga.edge_label_spec(f),
        forall|f: Edge| #[trigger] gb.has_edge_spec(f) ==> ga.has_edge_spec(f) || f == e,
        gb.has_edge_spec(e),
        gb.edge_label_spec(e) == l,
{
    assert forall|f: Edge| #[trigger] ga.has_edge_spec(f) implies gb.has_edge_spec(f) && gb.edge_label_spec(f) == ga.edge_label_spec(f) by {
        crate::graph::lemma_add_keeps_others(ga, gb, e, l, f);
    }
    assert forall|f: Edge| #[trigger] gb.has_edge_spec(f) implies ga.has_edge_spec(f) || f == e by {
        if f != e {
            crate::graph::lemma_add_keeps_others(ga, gb, e, l, f);
        }
    }
    crate::graph::lemma_key_pos_unique(gb.entries(), e, ga.entries().len() as int);
}

/// Pushing a border node onto a chain.
proof fn lemma_chain_push(g: &Graph, v: NodeIndex, side: Seq<NodeIndex>, x: NodeIndex, len: int, mn: int, name: Seq<char>, lo: int)
    requires
        chain_nodes(g, v, side, len, mn, name, lo),
        chain_edges(g, side, len),
        x.which_graph == g.id(),
        lo <= x.node_index < g.n(),
        is_border_label(g.node_seq()[x.node_index as int], mn + len, name, v),
    ensures
        chain_nodes(g, v, side.push(x), len + 1, mn, name, lo),
        chain_edges(g, side.push(x), len),
{
    let s2 = side.push(x);
    assert forall|k: int| 0 <= k < len + 1 implies {
        let y = #[trigger] s2[k];
        &&& y.which_graph == g.id()
        &&& lo <= y.node_index < g.n()
        &&& is_border_label(g.node_seq()[y.node_index as int], mn + k, name, v)
    } by {
        if k < len {
            assert(s2[k] == side[k]);
        }
    }
    assert forall|k: int| 1 <= k < len implies g.has_edge_spec(#[trigger] chain_edge(s2, k)) && g.edge_label_spec(chain_edge(s2, k)).is_default() by {
        assert(chain_edge(s2, k) == chain_edge(side, k));
    }
}

/// Joining the last two nodes of a chain.
proof fn lemma_chain_edge_added(
    ga: &Graph,
    gb: &Graph,
    v: NodeIndex,
    side: Seq<NodeIndex>,
    len: int,
    mn: int,
    name: Seq<char>,
    lo: int,
    e: Edge,
    l: EdgeLabel,
)
    requires
        len >= 2,
        chain_nodes(ga, v, side, len, mn, name, lo),
        chain_edges(ga, side, len - 1),
        e == chain_edge(side, len - 1),
        l.is_default(),
        ga.wf(),
        gb.wf(),
        !ga.has_edge_spec(e),
        gb.entries() == ga.entries().push((e, l)),
        gb.node_seq() == ga.node_seq(),
        gb.id() == ga.id(),
    ensures
        chain_nodes(gb, v, side, len, mn, name, lo),
        chain_edges(gb, side, len),
{
    lemma_fresh_add(ga, gb, e, l);
    assert forall|k: int| 1 <= k < len implies gb.has_edge_spec(#[trigger] chain_edge(side, k)) && gb.edge_label_spec(chain_edge(side, k)).is_default() by {
        if k < len - 1 {
            assert(ga.has_edge_spec(chain_edge(side, k)));
        }
    }
}

/// Setting the borders of node `i` completes its step of
/// `add_border_segments`.
#[verifier::rlimit(60)]
proof fn lemma_border_finish(
    g0: &Graph,
    gs: &Graph,
    ge: &Graph,
    g: &Graph,
    i: int,
    lname: Seq<char>,
    rname: Seq<char>,
)
    requires
        0 <= i < g0.n(),
        g0.wf(),
        gs.wf(),
        ge.wf(),
        gs.id() == g0.id(),
        ge.id() == g0.id(),
        g.id() == g0.id(),
        gs.n() >= g0.n(),
        g0.node_seq()[i].min_rank is Some && g0.node_seq()[i].max_rank is Some,
        gs.n() == g0.n() + 2 * span_total(g0, i),
        ge.n() == gs.n() + 2 * span(g0.node_seq()[i]),
        forall|x: int|
            0 <= x < g0.n() ==> #[trigger] gs.node_seq()[x] == (NodeLabel {
                border_left: gs.node_seq()[x].border_left,
                border_right: gs.node_seq()[x].border_right,
                ..g0.node_seq()[x]
            }),
        forall|x: int|
            i <= x < g0.n() || (0 <= x < i && !(g0.node_seq()[x].min_rank is Some && g0.node_seq()[x].max_rank is Some))
                ==> #[trigger] gs.node_seq()[x] == g0.node_seq()[x],
        forall|x: int|
            0 <= x < i && g0.node_seq()[x].min_rank is Some && g0.node_seq()[x].max_rank is Some ==> {
                let l = #[trigger] gs.node_seq()[x];
                let mn = g0.node_seq()[x].min_rank->0 as int;
                let len = span(g0.node_seq()[x]);
                &&& border_chain(gs, g0.node_at(x), l.border_left@, len, mn, lname, g0.n() as int)
                &&& border_chain(gs, g0.node_at(x), l.border_right@, len, mn, rname, g0.n() as int)
            },
        forall|e: Edge| #[trigger] g0.has_edge_spec(e) ==> gs.has_edge_spec(e) && gs.edge_label_spec(e) == g0.edge_label_spec(e),
        forall|e: Edge|
            #[trigger] gs.has_edge_spec(e) ==> g0.has_edge_spec(e) || (e.source.node_index >= g0.n() && e.target.node_index >= g0.n()),
        forall|x: int| 0 <= x < gs.n() ==> #[trigger] ge.node_seq()[x] == gs.node_seq()[x],
        forall|e: Edge| #[trigger] gs.has_edge_spec(e) ==> ge.has_edge_spec(e) && ge.edge_label_spec(e) == gs.edge_label_spec(e),
        forall|e: Edge|
            #[trigger] ge.has_edge_spec(e) ==> gs.has_edge_spec(e) || (e.source.node_index >= gs.n() && e.target.node_index >= gs.n()),
        border_chain(ge, g0.node_at(i), g.node_seq()[i].border_left@, span(g0.node_seq()[i]), g0.node_seq()[i].min_rank->0 as int, lname, gs.n() as int),
        border_chain(ge, g0.node_at(i), g.node_seq()[i].border_right@, span(g0.node_seq()[i]), g0.node_seq()[i].min_rank->0 as int, rname, gs.n() as int),
        g.entries() == ge.entries(),
        g.node_seq() == ge.node_seq().update(i, NodeLabel {
            border_left: g.node_seq()[i].border_left,
            border_right: g.node_seq()[i].border_right,
            ..ge.node_seq()[i]
        }),
    ensures
        g.n() == g0.n() + 2 * span_total(g0, i + 1),
        forall|x: int|
            0 <= x < g0.n() ==> #[trigger] g.node_seq()[x] == (NodeLabel {
                border_left: g.node_seq()[x].border_left,
                border_right: g.node_seq()[x].border_right,
                ..g0.node_seq()[x]
            }),
        forall|x: int|
            i + 1 <= x < g0.n() || (0 <= x < i + 1 && !(g0.node_seq()[x].min_rank is Some && g0.node_seq()[x].max_rank is Some))
                ==> #[trigger] g.node_seq()[x] == g0.node_seq()[x],
        forall|x: int|
            0 <= x < i + 1 && g0.node_seq()[x].min_rank is Some && g0.node_seq()[x].max_rank is Some ==> {
                let l = #[trigger] g.node_seq()[x];
                let mn = g0.node_seq()[x].min_rank->0 as int;
                let len = span(g0.node_seq()[x]);
                &&& border_chain(g, g0.node_at(x), l.border_left@, len, mn, lname, g0.n() as int)
                &&& border_chain(g, g0.node_at(x), l.border_right@, len, mn, rname, g0.n() as int)
            },
        forall|e: Edge| #[trigger] g0.has_edge_spec(e) ==> g.has_edge_spec(e) && g.edge_label_spec(e) == g0.edge_label_spec(e),
        forall|e: Edge|
            #[trigger] g.has_edge_spec(e) ==> g0.has_edge_spec(e) || (e.source.node_index >= g0.n() && e.target.node_index >= g0.n()),
{
    assert(span_total(g0, i + 1) == span_total(g0, i) + span(g0.node_seq()[i]));
    assert(forall|x: int| g0.n() <= x < ge.n() ==> #[trigger] g.node_seq()[x] == ge.node_seq()[x]);
    assert(forall|e: Edge| #[trigger] ge.has_edge_spec(e) ==> g.has_edge_spec(e) && g.edge_label_spec(e) == ge.edge_label_spec(e));
    assert forall|x: int| 0 <= x < i + 1 && g0.node_seq()[x].min_rank is Some && g0.node_seq()[x].max_rank is Some implies {
        let l = #[trigger] g.node_seq()[x];
        let mn = g0.node_seq()[x].min_rank->0 as int;
        let len = span(g0.node_seq()[x]);
        &&& border_chain(g, g0.node_at(x), l.border_left@, len, mn, lname, g0.n() as int)
        &&& border_chain(g, g0.node_at(x), l.border_right@, len, mn, rname, g0.n() as int)
    } by {
        let mn = g0.node_seq()[x].min_rank->0 as int;
        let len = span(g0.node_seq()[x]);
        if x < i {
            let l = gs.node_seq()[x];
            assert(g.node_seq()[x] == l) by {
                assert(ge.node_seq()[x] == gs.node_seq()[x]);
            }
            assert(forall|y: int| g0.n() <= y < gs.n() ==> #[trigger] ge.node_seq()[y] == gs.node_seq()[y]);
            lemma_chain_kept(gs, ge, g0.node_at(x), l.border_left@, len, mn, lname, g0.n() as int, len);
            lemma_chain_kept(gs, ge, g0.node_at(x), l.border_right@, len, mn, rname, g0.n() as int, len);
            lemma_chain_kept(ge, g, g0.node_at(x), l.border_left@, len, mn, lname, g0.n() as int, len);
            lemma_chain_kept(ge, g, g0.node_at(x), l.border_right@, len, mn, rname, g0.n() as int, len);
        } else {
            let l = g.node_seq()[i];
            lemma_chain_lower(ge, g0.node_at(i), l.border_left@, len, mn, lname, gs.n() as int, g0.n() as int);
            lemma_chain_lower(ge, g0.node_at(i), l.border_right@, len, mn, rname, gs.n() as int, g0.n() as int);
            lemma_chain_kept(ge, g, g0.node_at(i), l.border_left@, len, mn, lname, g0.n() as int, len);
            lemma_chain_kept(ge, g, g0.node_at(i), l.border_right@, len, mn, rname, g0.n() as int, len);
        }
    }
    assert forall|x: int| 0 <= x < g0.n() implies #[trigger] g.node_seq()[x] == (NodeLabel {
        border_left: g.node_seq()[x].border_left,
        border_right: g.node_seq()[x].border_right,
        ..g0.node_seq()[x]
    }) by {
        assert(ge.node_seq()[x] == gs.node_seq()[x]);
    }
    assert forall|x: int| i + 1 <= x < g0.n() || (0 <= x < i + 1 && !(g0.node_seq()[x].min_rank is Some
        && g0.node_seq()[x].max_rank is Some)) implies #[trigger] g.node_seq()[x] == g0.node_seq()[x] by {
        assert(ge.node_seq()[x] == gs.node_seq()[x]);
    }
    assert forall|e: Edge| #[trigger] g0.has_edge_spec(e) implies g.has_edge_spec(e) && g.edge_label_spec(e) == g0.edge_label_spec(e) by {
        assert(gs.has_edge_spec(e));
        assert(ge.has_edge_spec(e));
    }
    assert forall|e: Edge| #[trigger] g.has_edge_spec(e) implies g0.has_edge_spec(e) || (e.source.node_index >= g0.n()
        && e.target.node_index >= g0.n()) by {
        assert(ge.has_edge_spec(e));
        if gs.has_edge_spec(e) {
        }
    }
}

/// A chain above `lo` is a chain above any lower bound.
proof fn lemma_chain_lower(g: &Graph, v: NodeIndex, side: Seq<NodeIndex>, len: int, mn: int, name: Seq<char>, lo: int, lo2: int)
    requires
        border_chain(g, v, side, len, mn, name, lo),
        lo2 <= lo,
    ensures
        border_chain(g, v, side, len, mn, name, lo2),
{
}

/// Gives every node with a least and a greatest rank a chain of left and
/// a chain of right border nodes, one of each per rank, children of the
/// node, consecutive ones joined by an edge.
#[verifier::rlimit(80)]
pub fn add_border_segments(graph: &mut Graph)
    requires
        old(graph).wf(),
        old(graph).n() + 2 * span_total(old(graph), old(graph).n() as int) < usize::MAX,
        forall|i: int|
            0 <= i < old(graph).n() ==> range_fits(#[trigger] old(graph).node_seq()[i]),
    ensures
        final(graph).wf(),
        final(graph).id() == old(graph).id(),
        final(graph).config_spec() == old(graph).config_spec(),
        final(graph).n() == old(graph).n() + 2 * span_total(old(graph), old(graph).n() as int),
        forall|i: int|
            0 <= i < old(graph).n() ==> #[trigger] final(graph).node_seq()[i] == (NodeLabel {
                border_left: final(graph).node_seq()[i].border_left,
                border_right: final(graph).node_seq()[i].border_right,
                ..old(graph).node_seq()[i]
            }),
        forall|i: int|
            0 <= i < old(graph).n() && !(old(graph).node_seq()[i].min_rank is Some && old(graph).node_seq()[i].max_rank is Some)
                ==> #[trigger] final(graph).node_seq()[i] == old(graph).node_seq()[i],
        forall|i: int|
            0 <= i < old(graph).n() && old(graph).node_seq()[i].min_rank is Some && old(graph).node_seq()[i].max_rank is Some ==> {
                let l = #[trigger] final(graph).node_seq()[i];
                let mn = old(graph).node_seq()[i].min_rank->0 as int;
                let len = span(old(graph).node_seq()[i]);
                &&& border_chain(final(graph), old(graph).node_at(i), l.border_left@, len, mn, seq!['b', 'o', 'r', 'd', 'e', 'r', 'L', 'e', 'f', 't'], old(graph).n() as int)
                &&& border_chain(final(graph), old(graph).node_at(i), l.border_right@, len, mn, seq!['b', 'o', 'r', 'd', 'e', 'r', 'R', 'i', 'g', 'h', 't'], old(graph).n() as int)
            },
        forall|e: Edge|
            #[trigger] old(graph).has_edge_spec(e) ==> final(graph).has_edge_spec(e) && final(graph).edge_label_spec(e)
                == old(graph).edge_label_spec(e),
        forall|e: Edge|
            #[trigger] final(graph).has_edge_spec(e) ==> old(graph).has_edge_spec(e) || (e.source.node_index >= old(graph).n()
                && e.target.node_index >= old(graph).n()),
{
    let ghost g0 = *graph;
    let n = graph.node_count();
    let id = graph.graph_id();
    let ghost lname: Seq<char> = seq!['b', 'o', 'r', 'd', 'e', 'r', 'L', 'e', 'f', 't'];
    let ghost rname: Seq<char> = seq!['b', 'o', 'r', 'd', 'e', 'r', 'R', 'i', 'g', 'h', 't'];
    proof {
        reveal_strlit("borderLeft");
        reveal_strlit("borderRight");
        assert("borderLeft"@ == lname);
        assert("borderRight"@ == rname);
    }
    let mut i: usize = 0;
    while i < n
        invariant
            n == g0.n(),
            id == g0.id(),
            i <= n,
            g0.wf(),
            graph.wf(),
            graph.id() == g0.id(),
            graph.config_spec() == g0.config_spec(),
            "borderLeft"@ == lname,
            "borderRight"@ == rname,
            g0.n() + 2 * span_total(&g0, g0.n() as int) < usize::MAX,
            forall|x: int|
                0 <= x < g0.n() ==> range_fits(#[trigger] g0.node_seq()[x]),
            graph.n() == g0.n() + 2 * span_total(&g0, i as int),
            forall|x: int|
                0 <= x < g0.n() ==> #[trigger] graph.node_seq()[x] == (NodeLabel {
                    border_left: graph.node_seq()[x].border_left,
                    border_right: graph.node_seq()[x].border_right,
                    ..g0.node_seq()[x]
                }),
            forall|x: int|
                i <= x < g0.n() || (0 <= x < i && !(g0.node_seq()[x].min_rank is Some && g0.node_seq()[x].max_rank is Some))
                    ==> #[trigger] graph.node_seq()[x] == g0.node_seq()[x],
            forall|x: int|
                0 <= x < i && g0.node_seq()[x].min_rank is Some && g0.node_seq()[x].max_rank is Some ==> {
                    let l = #[trigger] graph.node_seq()[x];
                    let mn = g0.node_seq()[x].min_rank->0 as int;
                    let len = span(g0.node_seq()[x]);
                    &&& border_chain(graph, g0.node_at(x), l.border_left@, len, mn, lname, g0.n() as int)
                    &&& border_chain(graph, g0.node_at(x), l.border_right@, len, mn, rname, g0.n() as int)
                },
            forall|e: Edge|
                #[trigger] g0.has_edge_spec(e) ==> graph.has_edge_spec(e) && graph.edge_label_spec(e) == g0.edge_label_spec(e),
            forall|e: Edge|
                #[trigger] graph.has_edge_spec(e) ==> g0.has_edge_spec(e) || (e.source.node_index >= g0.n() && e.target.node_index
                    >= g0.n()),
        decreases n - i,
    {
        let v = NodeIndex { node_index: i, which_graph: id };
        proof {
            lemma_span_total_mono(&g0, i + 1, g0.n() as int);
            lemma_span_total_mono(&g0, i as int, i + 1);
            assert(graph.node_seq()[i as int] == g0.node_seq()[i as int]);
            assert(span_total(&g0, i + 1) == span_total(&g0, i as int) + span(g0.node_seq()[i as int]));
        }
        let (mn, mx) = match graph.node_label(v) {
            Some(l) => (l.min_rank, l.max_rank),
            None => (None, None),
        };
        if let (Some(min_rank), Some(max_rank)) = (mn, mx) {
            let ghost gs = *graph;
            let mut lefts: Vec<NodeIndex> = Vec::new();
            let mut rights: Vec<NodeIndex> = Vec::new();
            let mut rank: i64 = min_rank as i64;
            while rank <= max_rank as i64
                invariant
                    n == g0.n(),
                    id == g0.id(),
                    v == g0.node_at(i as int),
                    i < n,
                    g0.wf(),
                    graph.wf(),
                    graph.id() == g0.id(),
                    graph.config_spec() == g0.config_spec(),
                    gs.n() >= g0.n(),
                    g0.node_seq()[i as int].min_rank == Some(min_rank),
                    g0.node_seq()[i as int].max_rank == Some(max_rank),
                    max_rank - min_rank <= i32::MAX,
                    min_rank <= rank,
                    rank <= max_rank + 1 || rank == min_rank,
                    rank - min_rank <= span(g0.node_seq()[i as int]),
                    g0.n() + 2 * span_total(&g0, g0.n() as int) < usize::MAX,
                    gs.n() + 2 * span(g0.node_seq()[i as int]) < usize::MAX,
                    graph.n() == gs.n() + 2 * (rank - min_rank),
                    forall|x: int| 0 <= x < gs.n() ==> #[trigger] graph.node_seq()[x] == gs.node_seq()[x],
                    chain_nodes(graph, v, lefts@, rank - min_rank, min_rank as int, lname, gs.n() as int),
                    chain_edges(graph, lefts@, rank - min_rank),
                    chain_nodes(graph, v, rights@, rank - min_rank, min_rank as int, rname, gs.n() as int),
                    chain_edges(graph, rights@, rank - min_rank),
                    "borderLeft"@ == lname,
                    "borderRight"@ == rname,
                    forall|e: Edge| #[trigger] gs.has_edge_spec(e) ==> graph.has_edge_spec(e) && graph.edge_label_spec(e) == gs.edge_label_spec(e),
                    forall|e: Edge|
                        #[trigger] graph.has_edge_spec(e) ==> gs.has_edge_spec(e) || (e.source.node_index >= gs.n()
                            && e.target.node_index >= gs.n()),
                decreases max_rank + 1 - rank,
            {
                let r = rank as i32;
                let ghost g1 = *graph;
                let ghost len = rank - min_rank;
                let left = add_border_node(graph, "borderLeft", "_bl", v, r);
                let ghost g2 = *graph;
                let ghost lefts0 = lefts@;
                lefts.push(left);
                proof {
                    lemma_chain_kept(&g1, &g2, v, lefts0, len, min_rank as int, lname, gs.n() as int, len);
                    lemma_chain_kept(&g1, &g2, v, rights@, len, min_rank as int, rname, gs.n() as int, len);
                    lemma_chain_push(&g2, v, lefts0, left, len, min_rank as int, lname, gs.n() as int);
                }
                let right = add_border_node(graph, "borderRight", "_br", v, r);
                let ghost g3 = *graph;
                let ghost rights0 = rights@;
                rights.push(right);
                proof {
                    lemma_chain_kept(&g2, &g3, v, lefts@, len + 1, min_rank as int, lname, gs.n() as int, len);
                    lemma_chain_kept(&g2, &g3, v, rights0, len, min_rank as int, rname, gs.n() as int, len);
                    lemma_chain_push(&g3, v, rights0, right, len, min_rank as int, rname, gs.n() as int);
                }
                if r > min_rank {
                    let idx = (r - min_rank - 1) as usize;
                    let prev_left = if idx < lefts.len() { Some(lefts[idx]) } else { None };
                    let prev_right = if idx < rights.len() { Some(rights[idx]) } else { None };
                    if let Some(pl) = prev_left {
                        let ghost g4 = *graph;
                        let e = Edge::new(pl, left);
                        proof {
                            assert(e == chain_edge(lefts@, len));
                            lemma_fresh_node_edges(&g1, &g4);
                            assert(!g4.has_edge_spec(e));
                            assert(g4.contains_node(pl));
                            assert(g4.contains_node(left));
                        }
                        let dl = EdgeLabel::default();
                        let ghost dlg = dl;
                        graph.add_edge(e, dl);
                        proof {
                            lemma_fresh_add(&g4, graph, e, dlg);
                            lemma_chain_edge_added(&g4, graph, v, lefts@, len + 1, min_rank as int, lname, gs.n() as int, e, dlg);
                            lemma_chain_kept(&g4, graph, v, rights@, len + 1, min_rank as int, rname, gs.n() as int, len);
                        }
                    }
                    proof {
                        assert forall|f: Edge| #[trigger] graph.has_edge_spec(f) implies g3.has_edge_spec(f) || f.target == left by {}
                    }
                    if let Some(pr) = prev_right {
                        let ghost g5 = *graph;
                        let e = Edge::new(pr, right);
                        proof {
                            assert(e == chain_edge(rights@, len));
                            lemma_fresh_node_edges(&g1, &g3);
                            assert forall|f: Edge| #[trigger] g5.has_edge_spec(f) implies f.target.node_index <= g1.n() by {
                                if !g3.has_edge_spec(f) {
                                    assert(f.target == left);
                                }
                            }
                            assert(!g5.has_edge_spec(e));
                            assert(g5.contains_node(pr));
                            assert(g5.contains_node(right));
                        }
                        let dl = EdgeLabel::default();
                        let ghost dlg = dl;
                        graph.add_edge(e, dl);
                        proof {
                            lemma_fresh_add(&g5, graph, e, dlg);
                            lemma_chain_edge_added(&g5, graph, v, rights@, len + 1, min_rank as int, rname, gs.n() as int, e, dlg);
                            lemma_chain_kept(&g5, graph, v, lefts@, len + 1, min_rank as int, lname, gs.n() as int, len + 1);
                        }
                    }
                }
                proof {
                    lemma_fresh_node_edges(&g1, &g3);
                    assert forall|e: Edge| #[trigger] gs.has_edge_spec(e) implies graph.has_edge_spec(e) && graph.edge_label_spec(e)
                        == gs.edge_label_spec(e) by {
                        assert(g1.has_edge_spec(e));
                        assert(g3.has_edge_spec(e));
                    }
                    assert forall|e: Edge| #[trigger] graph.has_edge_spec(e) implies gs.has_edge_spec(e) || (e.source.node_index
                        >= gs.n() && e.target.node_index >= gs.n()) by {
                        if g3.has_edge_spec(e) {
                            assert(g1.has_edge_spec(e));
                        }
                    }
                    assert forall|x: int| 0 <= x < gs.n() implies #[trigger] graph.node_seq()[x] == gs.node_seq()[x] by {
                        assert(g1.node_seq()[x] == gs.node_seq()[x]);
                        assert(g2.node_seq()[x] == g1.node_seq()[x]);
                    }
                }
                rank += 1;
            }
            let ghost ge = *graph;
            if let Some(l) = graph.node_label_mut(v) {
                l.border_left = lefts;
                l.border_right = rights;
            }
            proof {
                crate::graph::lemma_wf_same_shape(&ge, graph);
                lemma_border_finish(&g0, &gs, &ge, graph, i as int, lname, rname);
            }
        }
        i += 1;
    }
}


/// `l` with the reversed mark set.
pub open spec fn mark_reversed(l: EdgeLabel) -> EdgeLabel {
    EdgeLabel { reversed: Some(true), ..l }
}

/// Marks as reversed every edge that closes a cycle in a depth-first
/// search from every node in turn: an edge into a node whose search is
/// still running. The edges are not turned around; every edge left
/// unmarked descends in the numbering the search finishes nodes in, so
/// the unmarked edges have no cycle.
#[verifier::spinoff_prover]
pub fn acyclic(graph: &mut Graph)
    requires
        old(graph).wf(),
    ensures
        final(graph).wf(),
        final(graph).node_seq() == old(graph).node_seq(),
        final(graph).id() == old(graph).id(),
        final(graph).config_spec() == old(graph).config_spec(),
        final(graph).entries().len() == old(graph).entries().len(),
        exists|fas: Seq<Edge>, fin: Seq<int>|
            crate::acyclic::fas_ordered(old(graph), fas, fin) && forall|k: int|
                0 <= k < old(graph).entries().len() ==> #[trigger] final(graph).entries()[k] == (
                old(graph).entries()[k].0,
                if fas.contains(old(graph).entries()[k].0) {
                    mark_reversed(old(graph).entries()[k].1)
                } else {
                    old(graph).entries()[k].1
                },
            ),
{
    let ghost g0 = *graph;
    let edges_to_reverse = crate::acyclic::Acyclic::dfs_fas(graph);
    let ghost fas = edges_to_reverse@;
    let mut j: usize = 0;
    while j < edges_to_reverse.len()
        invariant
            j <= fas.len(),
            edges_to_reverse@ == fas,
            g0.wf(),
            graph.wf(),
            graph.node_seq() == g0.node_seq(),
            graph.id() == g0.id(),
            graph.config_spec() == g0.config_spec(),
            graph.entries().len() == g0.entries().len(),
            forall|k: int|
                0 <= k < g0.entries().len() ==> #[trigger] graph.entries()[k] == (
                    g0.entries()[k].0,
                    if fas.take(j as int).contains(g0.entries()[k].0) {
                        mark_reversed(g0.entries()[k].1)
                    } else {
                        g0.entries()[k].1
                    },
                ),
        decreases fas.len() - j,
    {
        let edge = edges_to_reverse[j];
        let ghost gb = *graph;
        if let Some(edge_label) = graph.edge_label_mut(&edge) {
            edge_label.reversed = Some(true);
        }
        proof {
            assert(fas.take(j + 1) =~= fas.take(j as int).push(edge));
            if gb.has_edge_spec(edge) {
                let p = crate::index_map::key_pos(gb.entries(), edge);
                assert(gb.entries()[p].0 == edge);
            }
            assert forall|k: int| 0 <= k < g0.entries().len() implies #[trigger] graph.entries()[k] == (
                g0.entries()[k].0,
                if fas.take(j + 1).contains(g0.entries()[k].0) {
                    mark_reversed(g0.entries()[k].1)
                } else {
                    g0.entries()[k].1
                },
            ) by {
                crate::acyclic::lemma_contains_push(fas.take(j as int), edge, g0.entries()[k].0);
                assert(gb.entries()[k].0 == g0.entries()[k].0);
                if gb.has_edge_spec(edge) && g0.entries()[k].0 == edge {
                    crate::graph::lemma_key_pos_unique(gb.entries(), edge, k);
                }
            }
            assert forall|q: int| 0 <= q < graph.entries().len() implies graph.contains_node(#[trigger] graph.entries()[q].0.source)
                && graph.contains_node(graph.entries()[q].0.target) by {
                assert(g0.contains_node(g0.entries()[q].0.source));
                assert(g0.contains_node(g0.entries()[q].0.target));
            }
            assert forall|a: int, b: int| #![trigger graph.entries()[a], graph.entries()[b]] 0 <= a < graph.entries().len()
                && 0 <= b < graph.entries().len() && a != b implies graph.entries()[a].0 != graph.entries()[b].0 by {
                assert(g0.entries()[a].0 != g0.entries()[b].0);
            }
        }
        j += 1;
    }
    proof {
        assert(fas.take(fas.len() as int) =~= fas);
    }
}

/// The parent `parent()` reports for `v` in a graph with id `id` and
/// node labels `ns`.
pub open spec fn parent_at(id: u32, ns: Seq<NodeLabel>, v: NodeIndex) -> Option<NodeIndex> {
    if v.which_graph == id && v.node_index < ns.len() {
        ns[v.node_index as int].parent
    } else {
        None
    }
}

/// The ancestors of `v` from its parent up, stopping after `w` or at a
/// node without parent; `None` when `fuel` steps do not suffice or a
/// parent on the way belongs to another graph.
pub open spec fn parent_walk(id: u32, ns: Seq<NodeLabel>, v: NodeIndex, w: NodeIndex, fuel: nat) -> Option<Seq<NodeIndex>>
    decreases fuel,
{
    if fuel == 0 {
        None
    } else {
        match parent_at(id, ns, v) {
            None => Some(Seq::empty()),
            Some(p) => if p == w {
                Some(seq![p])
            } else if p.which_graph != id {
                None
            } else {
                match parent_walk(id, ns, p, w, (fuel - 1) as nat) {
                    Some(r) => Some(seq![p] + r),
                    None => None,
                }
            },
        }
    }
}

/// The path of ancestors from `v` towards `w`, when the walk ends.
pub open spec fn ancestor_path(id: u32, ns: Seq<NodeLabel>, v: NodeIndex, w: NodeIndex) -> Option<Seq<NodeIndex>> {
    if exists|f: nat| #[trigger] parent_walk(id, ns, v, w, f) is Some {
        parent_walk(id, ns, v, w, choose|f: nat| #[trigger] parent_walk(id, ns, v, w, f) is Some)
    } else {
        None
    }
}

/// Every node of a finished parent walk towards a node of graph `id`
/// belongs to that graph.
proof fn lemma_parent_walk_ids(id: u32, ns: Seq<NodeLabel>, v: NodeIndex, w: NodeIndex, fuel: nat)
    requires
        w.which_graph == id,
        parent_walk(id, ns, v, w, fuel) is Some,
    ensures
        forall|k: int| 0 <= k < parent_walk(id, ns, v, w, fuel)->0.len() ==> (#[trigger] parent_walk(id, ns, v, w, fuel)->0[k]).which_graph == id,
    decreases fuel,
{
    match parent_at(id, ns, v) {
        None => {},
        Some(p) => {
            if p != w {
                lemma_parent_walk_ids(id, ns, p, w, (fuel - 1) as nat);
                let r = parent_walk(id, ns, p, w, (fuel - 1) as nat)->0;
                assert forall|k: int| 0 <= k < (seq![p] + r).len() implies (#[trigger] (seq![p] + r)[k]).which_graph == id by {
                    if k > 0 {
                        assert((seq![p] + r)[k] == r[k - 1]);
                    }
                }
            }
        },
    }
}

/// An attribute of a node, 0 when unset.
pub open spec fn or_zero(x: Option<i32>) -> int {
    match x {
        Some(r) => r as int,
        None => 0,
    }
}

/// Climbs the path while its nodes end above `rank` (and past `lca`).
pub open spec fn ascend(g0: &Graph, path: Seq<NodeIndex>, lca: NodeIndex, idx: int, rank: int) -> int
    decreases path.len() - idx,
{
    if 0 <= idx < path.len() && g0.contains_node(path[idx]) && (path[idx] == lca || or_zero(
        g0.label_of(path[idx]).max_rank,
    ) < rank) {
        ascend(g0, path, lca, idx + 1, rank)
    } else {
        idx
    }
}

/// Descends the path while the next node starts at or above `rank`.
pub open spec fn descend(g0: &Graph, path: Seq<NodeIndex>, idx: int, rank: int) -> int
    decreases path.len() - idx,
{
    if 0 <= idx && idx + 1 < path.len() && g0.contains_node(path[idx + 1]) && or_zero(g0.label_of(path[idx + 1]).min_rank)
        <= rank {
        descend(g0, path, idx + 1, rank)
    } else {
        idx
    }
}

/// The walk along a chain of dummy nodes from `cur`, each placed under the
/// subgraph of the path that spans its rank: the node labels it leaves,
/// or `None` when `fuel` steps do not reach the end.
pub open spec fn chain_walk(
    g0: &Graph,
    ns: Seq<NodeLabel>,
    path: Seq<NodeIndex>,
    lca: NodeIndex,
    target: NodeIndex,
    idx: int,
    asc: bool,
    cur: NodeIndex,
    fuel: nat,
) -> Option<Seq<NodeLabel>>
    decreases fuel,
{
    if cur == target {
        Some(ns)
    } else if cur.which_graph != g0.id() {
        None
    } else if !g0.contains_node(cur) {
        Some(ns)
    } else if fuel == 0 {
        None
    } else {
        let rank = or_zero(g0.label_of(cur).rank);
        let idx1 = if asc {
            ascend(g0, path, lca, idx, rank)
        } else {
            idx
        };
        let asc1 = asc && !(0 <= idx1 < path.len() && path[idx1] == lca);
        let idx2 = if !asc1 {
            descend(g0, path, idx1, rank)
        } else {
            idx1
        };
        let ns1 = if 0 <= idx2 < path.len() {
            ns.update(cur.node_index as int, NodeLabel { parent: Some(path[idx2]), ..ns[cur.node_index as int] })
        } else {
            ns
        };
        let succ = g0.out_edges_spec(cur).map_values(|e: Edge| e.target);
        if succ.len() > 0 {
            chain_walk(g0, ns1, path, lca, target, idx2, asc1, succ[0], (fuel - 1) as nat)
        } else {
            Some(ns1)
        }
    }
}

/// The walk along the chain from `head`, when it ends.
pub open spec fn chain_result(
    g0: &Graph,
    ns: Seq<NodeLabel>,
    path: Seq<NodeIndex>,
    lca: NodeIndex,
    target: NodeIndex,
    head: NodeIndex,
) -> Option<Seq<NodeLabel>> {
    if exists|f: nat| #[trigger] chain_walk(g0, ns, path, lca, target, 0, true, head, f) is Some {
        chain_walk(g0, ns, path, lca, target, 0, true, head, choose|f: nat| #[trigger] chain_walk(g0, ns, path, lca, target, 0, true, head, f) is Some)
    } else {
        None
    }
}

/// The chains from position `k` of `heads` on, each placed in turn; `None`
/// when one of the walks does not end or meets a node of another graph.
pub open spec fn chains_placed(g0: &Graph, ns: Seq<NodeLabel>, heads: Seq<NodeIndex>, k: int) -> Option<Seq<NodeLabel>>
    decreases heads.len() - k,
{
    if k < 0 || k >= heads.len() {
        Some(ns)
    } else {
        let h = heads[k];
        if h.which_graph != g0.id() {
            None
        } else if !g0.contains_node(h) || g0.label_of(h).edge_obj is None {
            chains_placed(g0, ns, heads, k + 1)
        } else {
            let eo = g0.label_of(h).edge_obj->0;
            if eo.source.which_graph != g0.id() || eo.target.which_graph != g0.id() {
                None
            } else {
                match ancestor_path(g0.id(), ns, eo.source, eo.target) {
                    None => None,
                    Some(path) => {
                        let lca = if path.len() == 0 {
                            eo.source
                        } else {
                            path.last()
                        };
                        match chain_result(g0, ns, path, lca, eo.target, h) {
                            None => None,
                            Some(ns1) => chains_placed(g0, ns1, heads, k + 1),
                        }
                    },
                }
            }
        }
    }
}

/// The ancestors of `v` from its parent up to `w` (or to the root), and
/// the last of them (`v` when it has no parent).
fn find_path(graph: &Graph, v: NodeIndex, w: NodeIndex) -> (r: (Vec<NodeIndex>, NodeIndex))
    requires
        v.which_graph == graph.id(),
        ancestor_path(graph.id(), graph.node_seq(), v, w) is Some,
    ensures
        r.0@ == ancestor_path(graph.id(), graph.node_seq(), v, w)->0,
        r.1 == if r.0@.len() == 0 {
            v
        } else {
            r.0@.last()
        },
{
    let ghost ns = graph.node_seq();
    let ghost id = graph.id();
    let ghost fuel = choose|f: nat| #[trigger] parent_walk(id, ns, v, w, f) is Some;
    let ghost full = parent_walk(id, ns, v, w, fuel)->0;
    let mut v_path: Vec<NodeIndex> = Vec::new();
    let mut current = v;
    let ghost mut left: nat = fuel;
    proof {
        assert(v_path@ + full =~= full);
    }
    loop
        invariant_except_break
            current.which_graph == graph.id(),
            ns == graph.node_seq(),
            id == graph.id(),
            parent_walk(id, ns, current, w, left) is Some,
            v_path@ + parent_walk(id, ns, current, w, left)->0 == full,
            v_path@.len() > 0 ==> v_path@.last() == current,
        ensures
            v_path@ == full,
        decreases left,
    {
        match graph.parent(current) {
            Some(p) => {
                let ghost rest = parent_walk(id, ns, current, w, left)->0;
                v_path.push(p);
                if p == w {
                    proof {
                        assert(rest == seq![p]);
                        assert(v_path@ =~= full);
                    }
                    break;
                }
                proof {
                    let r2 = parent_walk(id, ns, p, w, (left - 1) as nat)->0;
                    assert(rest == seq![p] + r2);
                    assert(v_path@ + r2 =~= full);
                    left = (left - 1) as nat;
                }
                current = p;
            },
            None => {
                proof {
                    assert(v_path@ =~= full);
                }
                break;
            },
        }
    }
    let lca = if v_path.len() == 0 {
        v
    } else {
        v_path[v_path.len() - 1]
    };
    (v_path, lca)
}

/// `g` is `g0` with only the parents of its nodes changed.
pub open spec fn same_but_parents(g0: &Graph, g: &Graph) -> bool {
    &&& g.wf()
    &&& g.n() == g0.n()
    &&& g.id() == g0.id()
    &&& g.config_spec() == g0.config_spec()
    &&& g.entries() == g0.entries()
    &&& g.dummy_heads() == g0.dummy_heads()
    &&& forall|i: int| 0 <= i < g0.n() ==> #[trigger] g.node_seq()[i] == (NodeLabel { parent: g.node_seq()[i].parent, ..g0.node_seq()[i] })
}

/// Places the nodes of every chain of dummy nodes in `graph.dummy_chains`
/// under the subgraphs its edge passes through: walking from the chain's
/// first dummy towards the edge's target, each node becomes a child of the
/// node on the path of ancestors of the edge's source (up to the target)
/// that spans its rank, climbing while the path's subgraphs end above it
/// and, past their lowest common ancestor, descending while the next one
/// starts at or above it.
pub fn parent_dummy_chains(graph: &mut Graph)
    requires
        old(graph).wf(),
        chains_placed(&*old(graph), old(graph).node_seq(), old(graph).dummy_heads(), 0) is Some,
    ensures
        same_but_parents(&*old(graph), &*final(graph)),
        final(graph).node_seq() == chains_placed(&*old(graph), old(graph).node_seq(), old(graph).dummy_heads(), 0)->0,
{
    let ghost g0 = *graph;
    let heads: Vec<NodeIndex> = graph.dummy_chain_heads().clone();
    proof {
        assert(heads@ =~= g0.dummy_heads());
        assert forall|j: int| 0 <= j < g0.n() implies #[trigger] graph.node_seq()[j] == (NodeLabel { parent: graph.node_seq()[j].parent, ..g0.node_seq()[j] }) by {}
    }
    let ghost target = chains_placed(&g0, g0.node_seq(), heads@, 0);
    let mut k: usize = 0;
    while k < heads.len()
        invariant
            g0.wf(),
            same_but_parents(&g0, graph),
            k <= heads@.len(),
            chains_placed(&g0, graph.node_seq(), heads@, k as int) == target,
            target is Some,
        decreases heads@.len() - k,
    {
        let h = heads[k];
        let ghost ns = graph.node_seq();
        let eo = match graph.node_label(h) {
            Some(l) => l.edge_obj,
            None => None,
        };
        match eo {
            None => {},
            Some(eo) => {
                proof {
                    assert(g0.label_of(h).edge_obj == Some(eo));
                }
                let (path, lca) = find_path(graph, eo.source, eo.target);
                let ghost pth = path@;
                let ghost fuel = choose|f: nat| #[trigger] chain_walk(&g0, ns, pth, lca, eo.target, 0, true, h, f) is Some;
                let ghost result = chain_walk(&g0, ns, pth, lca, eo.target, 0, true, h, fuel)->0;
                proof {
                    let pf = choose|f: nat| #[trigger] parent_walk(g0.id(), ns, eo.source, eo.target, f) is Some;
                    lemma_parent_walk_ids(g0.id(), ns, eo.source, eo.target, pf);
                }
                let mut current = h;
                let mut idx: usize = 0;
                let mut asc = true;
                let ghost mut left: nat = fuel;
                loop
                    invariant_except_break
                        chain_walk(&g0, graph.node_seq(), pth, lca, eo.target, idx as int, asc, current, left) == Some(result),
                        !asc ==> idx < pth.len(),
                        idx <= pth.len(),
                    invariant
                        g0.wf(),
                        same_but_parents(&g0, graph),
                        pth == path@,
                        forall|j: int| 0 <= j < pth.len() ==> (#[trigger] pth[j]).which_graph == g0.id(),
                    ensures
                        graph.node_seq() == result,
                    decreases left,
                {
                    if current == eo.target {
                        break;
                    }
                    let label = match graph.node_label(current) {
                        Some(l) => l,
                        None => {
                            break;
                        },
                    };
                    let rank: i32 = match label.rank {
                        Some(r) => r,
                        None => 0,
                    };
                    proof {
                        assert(graph.node_seq()[current.node_index as int] == (NodeLabel { parent: graph.node_seq()[current.node_index as int].parent, ..g0.node_seq()[current.node_index as int] }));
                        assert(or_zero(g0.label_of(current).rank) == rank);
                    }
                    let ghost idx0 = idx as int;
                    let ghost asc0 = asc;
                    let ghost ns0 = graph.node_seq();
                    if asc {
                        while idx < path.len()
                            invariant
                                g0.wf(),
                                same_but_parents(&g0, graph),
                                pth == path@,
                                forall|j: int| 0 <= j < pth.len() ==> (#[trigger] pth[j]).which_graph == g0.id(),
                                idx0 <= idx <= pth.len(),
                                ascend(&g0, pth, lca, idx as int, rank as int) == ascend(&g0, pth, lca, idx0, rank as int),
                            ensures
                                idx <= pth.len(),
                                ascend(&g0, pth, lca, idx0, rank as int) == idx,
                            decreases pth.len() - idx,
                        {
                            let pn = path[idx];
                            match graph.node_label(pn) {
                                Some(pl) => {
                                    let mr: i32 = match pl.max_rank {
                                        Some(x) => x,
                                        None => 0,
                                    };
                                    proof {
                                        assert(graph.node_seq()[pn.node_index as int] == (NodeLabel { parent: graph.node_seq()[pn.node_index as int].parent, ..g0.node_seq()[pn.node_index as int] }));
                                    }
                                    if pn == lca || mr < rank {
                                        idx += 1;
                                    } else {
                                        break;
                                    }
                                },
                                None => {
                                    break;
                                },
                            }
                        }
                        if idx < path.len() && path[idx] == lca {
                            asc = false;
                        }
                    }
                    let ghost idx1 = idx as int;
                    if !asc {
                        while idx < path.len() - 1
                            invariant
                                g0.wf(),
                                same_but_parents(&g0, graph),
                                pth == path@,
                                pth.len() > 0,
                                forall|j: int| 0 <= j < pth.len() ==> (#[trigger] pth[j]).which_graph == g0.id(),
                                idx1 <= idx < pth.len(),
                                descend(&g0, pth, idx as int, rank as int) == descend(&g0, pth, idx1, rank as int),
                            ensures
                                idx < pth.len(),
                                descend(&g0, pth, idx1, rank as int) == idx,
                            decreases pth.len() - idx,
                        {
                            let nn = path[idx + 1];
                            match graph.node_label(nn) {
                                Some(nl) => {
                                    let mr: i32 = match nl.min_rank {
                                        Some(x) => x,
                                        None => 0,
                                    };
                                    proof {
                                        assert(graph.node_seq()[nn.node_index as int] == (NodeLabel { parent: graph.node_seq()[nn.node_index as int].parent, ..g0.node_seq()[nn.node_index as int] }));
                                    }
                                    if mr <= rank {
                                        idx += 1;
                                    } else {
                                        break;
                                    }
                                },
                                None => {
                                    break;
                                },
                            }
                        }
                    }
                    let ghost gb = *graph;
                    if idx < path.len() {
                        graph.set_parent(current, path[idx]);
                    }
                    proof {
                        assert forall|j: int| 0 <= j < g0.n() implies #[trigger] graph.node_seq()[j] == (NodeLabel { parent: graph.node_seq()[j].parent, ..g0.node_seq()[j] }) by {
                            assert(gb.node_seq()[j] == (NodeLabel { parent: gb.node_seq()[j].parent, ..g0.node_seq()[j] }));
                        }
                        crate::graph::lemma_wf_same_shape(&gb, graph);
                        assert(graph.node_seq() == if 0 <= idx < pth.len() {
                            ns0.update(current.node_index as int, NodeLabel { parent: Some(pth[idx as int]), ..ns0[current.node_index as int] })
                        } else {
                            ns0
                        });
                        assert(gb.out_edges_spec(current) == g0.out_edges_spec(current));
                    }
                    let succs = graph.successors(current);
                    if succs.len() > 0 {
                        current = succs[0];
                        proof {
                            left = (left - 1) as nat;
                        }
                    } else {
                        break;
                    }
                }
            },
        }
        k += 1;
    }
}


/// The rank of the proxy for an edge from rank `s` to rank `t`: half the
/// rank difference, rounded toward zero, above `s`.
pub open spec fn proxy_rank(s: int, t: int) -> int {
    if t - s >= 0 {
        s + (t - s) / 2
    } else {
        s - (s - t) / 2
    }
}

/// Edge `e` of `g` gets a proxy node: its label has a size (`labelled`)
/// and both of its ends have a rank.
pub open spec fn gets_proxy(g: &Graph, e: Edge, labelled: bool) -> bool {
    labelled && rank_of(g, e.source) is Some && rank_of(g, e.target) is Some
}

/// How many of the first `k` edges of `es` get a proxy node.
pub open spec fn proxy_count(g: &Graph, es: Seq<Edge>, labelled: Seq<bool>, k: int) -> int
    decreases k,
{
    if k <= 0 {
        0
    } else {
        proxy_count(g, es, labelled, k - 1) + if gets_proxy(g, es[k - 1], labelled[k - 1]) {
            1int
        } else {
            0int
        }
    }
}

/// The rank difference of every edge that gets a proxy fits in an `i32`.
pub open spec fn proxy_ranks_fit(g: &Graph, labelled: Seq<bool>) -> bool {
    forall|i: int|
        0 <= i < g.edge_seq().len() && #[trigger] gets_proxy(g, g.edge_seq()[i], labelled[i]) ==> i32::MIN <= rank_of(
            g,
            g.edge_seq()[i].target,
        )->0 - rank_of(g, g.edge_seq()[i].source)->0 <= i32::MAX
}

/// `l` is the label of an edge label proxy at rank `r`: every other
/// attribute unset.
pub open spec fn is_proxy_label(l: NodeLabel, r: int) -> bool {
    &&& l.rank == Some(r as i32)
    &&& l.dummy == Some(Dummy::EdgeProxy)
    &&& (NodeLabel { rank: None, dummy: None, ..l }).is_default()
}

proof fn lemma_proxy_count_bounds(g: &Graph, es: Seq<Edge>, labelled: Seq<bool>, k: int)
    requires
        0 <= k,
    ensures
        0 <= proxy_count(g, es, labelled, k) <= k,
    decreases k,
{
    if k > 0 {
        lemma_proxy_count_bounds(g, es, labelled, k - 1);
    }
}

proof fn lemma_proxy_count_mono(g: &Graph, es: Seq<Edge>, labelled: Seq<bool>, j: int, k: int)
    requires
        0 <= j < k,
    ensures
        proxy_count(g, es, labelled, j) + (if gets_proxy(g, es[j], labelled[j]) {
            1int
        } else {
            0int
        }) <= proxy_count(g, es, labelled, k),
    decreases k,
{
    if j < k - 1 {
        lemma_proxy_count_mono(g, es, labelled, j, k - 1);
    }
}

/// Adds a proxy node for the label of every edge whose label has a size
/// (`labelled`, by edge in edge order) and whose ends both have a rank: a
/// node at the rank halfway between them (rounded toward the source), marked
/// as an edge proxy, appended in edge order.
pub fn inject_edge_label_proxies(graph: &mut Graph, labelled: &Vec<bool>)
    requires
        old(graph).wf(),
        labelled@.len() == old(graph).edge_seq().len(),
        old(graph).n() + old(graph).edge_seq().len() < usize::MAX,
        proxy_ranks_fit(old(graph), labelled@),
    ensures
        final(graph).wf(),
        final(graph).entries() == old(graph).entries(),
        final(graph).id() == old(graph).id(),
        final(graph).config_spec() == old(graph).config_spec(),
        final(graph).parallel_edges() == old(graph).parallel_edges(),
        final(graph).dummy_heads() == old(graph).dummy_heads(),
        final(graph).n() == old(graph).n() + proxy_count(
            old(graph),
            old(graph).edge_seq(),
            labelled@,
            old(graph).edge_seq().len() as int,
        ),
        final(graph).node_seq().subrange(0, old(graph).n() as int) == old(graph).node_seq(),
        forall|i: int|
            0 <= i < old(graph).edge_seq().len() && #[trigger] gets_proxy(old(graph), old(graph).edge_seq()[i], labelled@[i])
                ==> is_proxy_label(
                final(graph).node_seq()[old(graph).n() + proxy_count(old(graph), old(graph).edge_seq(), labelled@, i)],
                proxy_rank(
                    rank_of(old(graph), old(graph).edge_seq()[i].source)->0 as int,
                    rank_of(old(graph), old(graph).edge_seq()[i].target)->0 as int,
                ),
            ),
{
    let ghost g0 = *graph;
    let edges = graph.edges();
    let mut i: usize = 0;
    while i < edges.len()
        invariant
            i <= edges@.len(),
            edges@ == g0.edge_seq(),
            g0.wf(),
            labelled@.len() == edges@.len(),
            g0.n() + edges@.len() < usize::MAX,
            proxy_ranks_fit(&g0, labelled@),
            graph.wf(),
            graph.entries() == g0.entries(),
            graph.id() == g0.id(),
            graph.config_spec() == g0.config_spec(),
            graph.parallel_edges() == g0.parallel_edges(),
            graph.dummy_heads() == g0.dummy_heads(),
            graph.n() == g0.n() + proxy_count(&g0, edges@, labelled@, i as int),
            graph.node_seq().subrange(0, g0.n() as int) == g0.node_seq(),
            forall|j: int|
                0 <= j < i && #[trigger] gets_proxy(&g0, edges@[j], labelled@[j]) ==> is_proxy_label(
                    graph.node_seq()[g0.n() + proxy_count(&g0, edges@, labelled@, j)],
                    proxy_rank(rank_of(&g0, edges@[j].source)->0 as int, rank_of(&g0, edges@[j].target)->0 as int),
                ),
        decreases edges@.len() - i,
    {
        let e = edges[i];
        proof {
            lemma_proxy_count_bounds(&g0, edges@, labelled@, i as int);
            assert(g0.entries()[i as int].0 == e);
            assert(g0.contains_node(e.source) && g0.contains_node(e.target));
            assert(rank_of(graph, e.source) == rank_of(&g0, e.source)) by {
                assert(graph.node_seq()[e.source.node_index as int] == g0.node_seq()[e.source.node_index as int]);
            }
            assert(rank_of(graph, e.target) == rank_of(&g0, e.target)) by {
                assert(graph.node_seq()[e.target.node_index as int] == g0.node_seq()[e.target.node_index as int]);
            }
        }
        let ghost gb = *graph;
        if labelled[i] {
            proof {
                assert(labelled@[i as int]);
            }
            let rs = match graph.node_label(e.source) {
                Some(l) => l.rank,
                None => None,
            };
            let rt = match graph.node_label(e.target) {
                Some(l) => l.rank,
                None => None,
            };
            match (rs, rt) {
                (Some(s), Some(t)) => {
                    proof {
                        assert(gets_proxy(&g0, edges@[i as int], labelled@[i as int]));
                    }
                    let d: i64 = t as i64 - s as i64;
                    let mid: i64 = if d >= 0 {
                        s as i64 + d / 2
                    } else {
                        s as i64 - (0 - d) / 2
                    };
                    let mut proxy = NodeLabel::default();
                    proxy.rank = Some(mid as i32);
                    proxy.dummy = Some(Dummy::EdgeProxy);
                    graph.add_node(proxy);
                    proof {
                        assert(graph.node_seq().subrange(0, g0.n() as int) =~= g0.node_seq()) by {
                            assert(gb.node_seq().subrange(0, g0.n() as int) =~= g0.node_seq());
                        }
                        assert(mid == proxy_rank(s as int, t as int));
                        assert(is_proxy_label(graph.node_seq()[gb.n() as int], proxy_rank(s as int, t as int)));
                    }
                },
                _ => {},
            }
        }
        proof {
            assert(graph.n() >= gb.n());
            assert(forall|k: int| 0 <= k < gb.n() ==> #[trigger] graph.node_seq()[k] == gb.node_seq()[k]);
            assert forall|j: int|
                0 <= j < i + 1 && #[trigger] gets_proxy(&g0, edges@[j], labelled@[j]) implies is_proxy_label(
                    graph.node_seq()[g0.n() + proxy_count(&g0, edges@, labelled@, j)],
                    proxy_rank(rank_of(&g0, edges@[j].source)->0 as int, rank_of(&g0, edges@[j].target)->0 as int),
                ) by {
                if j < i {
                    lemma_proxy_count_mono(&g0, edges@, labelled@, j, i as int);
                    lemma_proxy_count_bounds(&g0, edges@, labelled@, j);
                    let idx: int = g0.n() + proxy_count(&g0, edges@, labelled@, j);
                    assert(graph.node_seq()[idx] == gb.node_seq()[idx]);
                }
            }
        }
        i += 1;
    }
    proof {
        assert(edges@.len() == g0.edge_seq().len());
    }
}


/// How many self loops the nodes `layer[0..i]` carry.
pub open spec fn loops_before(layer: Seq<NodeIndex>, loops: Seq<usize>, i: int) -> int
    decreases i,
{
    if i <= 0 {
        0
    } else {
        loops_before(layer, loops, i - 1) + loops[layer[i - 1].node_index as int]
    }
}

/// The nodes of `layer` with their new orders: the slot of each plus the
/// self loops of the nodes before it in the layer.
pub open spec fn layer_plan(layer: Seq<NodeIndex>, loops: Seq<usize>) -> Seq<(NodeIndex, int)> {
    Seq::new(layer.len(), |i: int| (layer[i], i + loops_before(layer, loops, i)))
}

/// The plan of the first `a` layers, layer after layer.
pub open spec fn plan_upto(layers: Seq<Seq<NodeIndex>>, loops: Seq<usize>, a: int) -> Seq<(NodeIndex, int)>
    decreases a,
{
    if a <= 0 {
        Seq::empty()
    } else {
        plan_upto(layers, loops, a - 1) + layer_plan(layers[a - 1], loops)
    }
}

/// The plan for the self loops of `g`: every node of its layer matrix,
/// layer after layer, with its new order.
pub open spec fn self_loop_plan(g: &Graph, loops: Seq<usize>) -> Seq<(NodeIndex, int)> {
    plan_upto(layer_matrix(g), loops, layer_matrix(g).len() as int)
}

/// The dummy nodes `plan` calls for, in order: for each entry, one per self
/// loop of its node, with the orders that follow the node's own.
pub open spec fn loop_dummies(plan: Seq<(NodeIndex, int)>, loops: Seq<usize>) -> Seq<(NodeIndex, int)>
    decreases plan.len(),
{
    if plan.len() == 0 {
        Seq::empty()
    } else {
        let v = plan.last().0;
        let o = plan.last().1;
        loop_dummies(plan.drop_last(), loops) + Seq::new(loops[v.node_index as int] as nat, |j: int| (v, o + j))
    }
}

/// The order `plan` leaves on the node at position `x`: that of the last
/// entry for it, `dflt` when there is none.
pub open spec fn planned_order(plan: Seq<(NodeIndex, int)>, x: int, dflt: Option<usize>) -> Option<usize>
    decreases plan.len(),
{
    if plan.len() == 0 {
        dflt
    } else if plan.last().0.node_index == x {
        Some(plan.last().1 as usize)
    } else {
        planned_order(plan.drop_last(), x, dflt)
    }
}

/// `l` is the label of a dummy node that carries a self loop of `v`: rank
/// `rank`, order `order`, parent `v`, loop `v -> v`, nothing else set.
pub open spec fn is_self_loop_label(l: NodeLabel, v: NodeIndex, rank: Option<i32>, order: int) -> bool {
    &&& l.dummy == Some(Dummy::SelfEdge)
    &&& l.edge_obj == Some(Edge { source: v, target: v })
    &&& l.rank == rank
    &&& l.order == Some(order as usize)
    &&& l.parent == Some(v)
    &&& (NodeLabel { dummy: None, edge_obj: None, rank: None, order: None, parent: None, ..l }).is_default()
}

/// `g` is `g0` with the nodes of `plan` given their orders and the dummy
/// nodes `d` added after the nodes of `g0`, each with an edge to it from its
/// node added after the edges of `g0`; `created` lists each such node with
/// its dummy.
pub open spec fn loops_laid_as(
    g: &Graph,
    g0: &Graph,
    plan: Seq<(NodeIndex, int)>,
    d: Seq<(NodeIndex, int)>,
    created: Seq<(NodeIndex, NodeIndex)>,
) -> bool {
    &&& g.wf()
    &&& g.id() == g0.id()
    &&& g.config_spec() == g0.config_spec()
    &&& g.parallel_edges() == g0.parallel_edges()
    &&& g.dummy_heads() == g0.dummy_heads()
    &&& g.n() == g0.n() + d.len()
    &&& created.len() == d.len()
    &&& g.entries().len() == g0.entries().len() + d.len()
    &&& forall|k: int| 0 <= k < g0.entries().len() ==> #[trigger] g.entries()[k] == g0.entries()[k]
    &&& forall|x: int|
        0 <= x < g0.n() ==> #[trigger] g.node_seq()[x] == (NodeLabel {
            order: planned_order(plan, x, g0.node_seq()[x].order),
            ..g0.node_seq()[x]
        })
    &&& forall|m: int|
        #![trigger created[m]]
        0 <= m < d.len() ==> {
            &&& created[m] == (d[m].0, g.node_at(g0.n() + m))
            &&& is_self_loop_label(g.node_seq()[g0.n() + m], d[m].0, g0.node_seq()[d[m].0.node_index as int].rank, d[m].1)
            &&& g.entries()[g0.entries().len() + m].0 == (Edge { source: d[m].0, target: g.node_at(g0.n() + m) })
            &&& g.entries()[g0.entries().len() + m].1.is_default()
        }
}

/// `g` is `g0` after the self loops of `plan` were laid out.
pub open spec fn self_loops_laid(
    g: &Graph,
    g0: &Graph,
    loops: Seq<usize>,
    plan: Seq<(NodeIndex, int)>,
    created: Seq<(NodeIndex, NodeIndex)>,
) -> bool {
    loops_laid_as(g, g0, plan, loop_dummies(plan, loops), created)
}

/// The orders and the dummy nodes of the self loops of `g` fit in a `usize`.
pub open spec fn self_loops_fit(g: &Graph, loops: Seq<usize>) -> bool {
    &&& g.n() + loop_dummies(self_loop_plan(g, loops), loops).len() < usize::MAX
    &&& forall|a: int, i: int|
        0 <= a < layer_matrix(g).len() && 0 <= i < layer_matrix(g)[a].len() ==> i + loops_before(
            layer_matrix(g)[a],
            loops,
            i,
        ) + loops[(#[trigger] layer_matrix(g)[a][i]).node_index as int] <= usize::MAX
}

proof fn lemma_loop_dummies_append(p: Seq<(NodeIndex, int)>, q: Seq<(NodeIndex, int)>, loops: Seq<usize>)
    ensures
        loop_dummies(p + q, loops) == loop_dummies(p, loops) + loop_dummies(q, loops),
    decreases q.len(),
{
    if q.len() == 0 {
        assert(p + q =~= p);
        assert(loop_dummies(p, loops) + loop_dummies(q, loops) =~= loop_dummies(p, loops));
    } else {
        assert((p + q).drop_last() =~= p + q.drop_last());
        assert((p + q).last() == q.last());
        lemma_loop_dummies_append(p, q.drop_last(), loops);
        let v = q.last().0;
        let o = q.last().1;
        let tail = Seq::new(loops[v.node_index as int] as nat, |j: int| (v, o + j));
        assert(loop_dummies(p + q, loops) == loop_dummies(p + q.drop_last(), loops) + tail);
        assert(loop_dummies(q, loops) == loop_dummies(q.drop_last(), loops) + tail);
        assert(loop_dummies(p, loops) + loop_dummies(q.drop_last(), loops) + tail =~= loop_dummies(p, loops) + (
        loop_dummies(q.drop_last(), loops) + tail));
    }
}

proof fn lemma_plan_upto_grows(layers: Seq<Seq<NodeIndex>>, loops: Seq<usize>, a: int, b: int)
    requires
        0 <= a <= b,
    ensures
        loop_dummies(plan_upto(layers, loops, a), loops).len() <= loop_dummies(plan_upto(layers, loops, b), loops).len(),
    decreases b,
{
    if a < b {
        lemma_plan_upto_grows(layers, loops, a, b - 1);
        lemma_loop_dummies_append(plan_upto(layers, loops, b - 1), layer_plan(layers[b - 1], loops), loops);
    }
}

/// A graph with one node more than `gb` and the same edges is well formed,
/// and has no edge into the new node.
proof fn lemma_fresh_node_edge(gb: &Graph, gp: &Graph, v: NodeIndex, w: NodeIndex)
    requires
        gb.wf(),
        gp.entries() == gb.entries(),
        gp.n() == gb.n() + 1,
        gp.n() <= usize::MAX,
        gp.id() == gb.id(),
        w.node_index == gb.n(),
    ensures
        gp.wf(),
        !gp.has_edge_spec(Edge { source: v, target: w }),
{
    assert forall|i: int|
        0 <= i < gp.entries().len() implies gp.contains_node(#[trigger] gp.entries()[i].0.source)
        && gp.contains_node(gp.entries()[i].0.target) by {
        assert(gb.contains_node(gb.entries()[i].0.source));
        assert(gb.contains_node(gb.entries()[i].0.target));
    }
    if gp.has_edge_spec(Edge { source: v, target: w }) {
        let k = choose|k: int| 0 <= k < gp.entries().len() && #[trigger] gp.entries()[k].0 == (Edge { source: v, target: w });
        assert(gb.contains_node(gb.entries()[k].0.source));
        assert(gb.contains_node(gb.entries()[k].0.target));
    }
}

/// Gives `v` the order `o` and adds `count` dummy nodes that carry its self
/// loops, with the orders from `o` on, each under `v` and joined to it by an
/// edge from `v`.
#[verifier::spinoff_prover]
#[verifier::rlimit(30)]
fn lay_self_loops(
    graph: &mut Graph,
    v: NodeIndex,
    o: usize,
    count: usize,
    created: &mut Vec<(NodeIndex, NodeIndex)>,
    Ghost(g0): Ghost<Graph>,
    Ghost(loops): Ghost<Seq<usize>>,
    Ghost(plan): Ghost<Seq<(NodeIndex, int)>>,
)
    requires
        self_loops_laid(old(graph), &g0, loops, plan, old(created)@),
        g0.contains_node(v),
        loops.len() == g0.n(),
        loops[v.node_index as int] == count,
        o + count <= usize::MAX,
        old(graph).n() + count < usize::MAX,
    ensures
        self_loops_laid(final(graph), &g0, loops, plan.push((v, o as int)), final(created)@),
{
    let ghost d0 = loop_dummies(plan, loops);
    let ghost plan1 = plan.push((v, o as int));
    proof {
        assert(plan1.drop_last() =~= plan);
        assert(graph.node_seq()[v.node_index as int] == (NodeLabel {
            order: planned_order(plan, v.node_index as int, g0.node_seq()[v.node_index as int].order),
            ..g0.node_seq()[v.node_index as int]
        }));
    }
    let rank = match graph.node_label(v) {
        Some(l) => l.rank,
        None => None,
    };
    let ghost gs = *graph;
    if let Some(l) = graph.node_label_mut(v) {
        l.order = Some(o);
    }
    proof {
        assert(rank == g0.node_seq()[v.node_index as int].rank);
        assert forall|x: int| 0 <= x < g0.n() implies #[trigger] graph.node_seq()[x] == (NodeLabel {
            order: planned_order(plan1, x, g0.node_seq()[x].order),
            ..g0.node_seq()[x]
        }) by {
            assert(gs.node_seq()[x] == (NodeLabel {
                order: planned_order(plan, x, g0.node_seq()[x].order),
                ..g0.node_seq()[x]
            }));
        }
        assert forall|i: int|
            0 <= i < graph.entries().len() implies graph.contains_node(#[trigger] graph.entries()[i].0.source)
            && graph.contains_node(graph.entries()[i].0.target) by {
            assert(gs.contains_node(gs.entries()[i].0.source));
            assert(gs.contains_node(gs.entries()[i].0.target));
        }
        assert(loops_laid_as(graph, &g0, plan1, d0 + Seq::new(0, |q: int| (v, o + q)), created@)) by {
            assert(d0 + Seq::new(0, |q: int| (v, o + q)) =~= d0);
            assert forall|m: int| #![trigger created@[m]] 0 <= m < d0.len() implies graph.node_seq()[g0.n() + m]
                == gs.node_seq()[g0.n() + m] by {}
        }
    }
    let mut j: usize = 0;
    while j < count
        invariant
            j <= count,
            g0.contains_node(v),
            loops.len() == g0.n(),
            loops[v.node_index as int] == count,
            o + count <= usize::MAX,
            graph.n() == g0.n() + d0.len() + j,
            g0.n() + d0.len() + count < usize::MAX,
            rank == g0.node_seq()[v.node_index as int].rank,
            loops_laid_as(graph, &g0, plan1, d0 + Seq::new(j as nat, |q: int| (v, o + q)), created@),
        decreases count - j,
    {
        let ghost gb = *graph;
        let ghost db = d0 + Seq::new(j as nat, |q: int| (v, o + q));
        let mut dummy = NodeLabel::default();
        dummy.dummy = Some(Dummy::SelfEdge);
        dummy.edge_obj = Some(Edge::new(v, v));
        dummy.rank = rank;
        dummy.order = Some(o + j);
        let w = graph.add_node(dummy);
        let ghost ga = *graph;
        graph.set_parent(w, v);
        let ghost gp = *graph;
        proof {
            assert(gb.wf());
            lemma_fresh_node_edge(&gb, &gp, v, w);
        }
        graph.add_edge(Edge::new(v, w), EdgeLabel::default());
        let ghost cb = created@;
        created.push((v, w));
        proof {
            let dn = d0 + Seq::new((j + 1) as nat, |q: int| (v, o + q));
            assert(dn =~= db.push((v, o + j)));
            let m0 = db.len() as int;
            assert forall|i: int|
                0 <= i < graph.entries().len() implies graph.contains_node(#[trigger] graph.entries()[i].0.source)
                && graph.contains_node(graph.entries()[i].0.target) by {}
            assert forall|x: int| 0 <= x < g0.n() implies #[trigger] graph.node_seq()[x] == (NodeLabel {
                order: planned_order(plan1, x, g0.node_seq()[x].order),
                ..g0.node_seq()[x]
            }) by {
                assert(graph.node_seq()[x] == gb.node_seq()[x]);
            }
            assert forall|k: int| 0 <= k < g0.entries().len() implies #[trigger] graph.entries()[k] == g0.entries()[k] by {
                assert(graph.entries()[k] == gb.entries()[k]);
            }
            assert forall|m: int| #![trigger created@[m]] 0 <= m < dn.len() implies {
                &&& created@[m] == (dn[m].0, graph.node_at(g0.n() + m))
                &&& is_self_loop_label(graph.node_seq()[g0.n() + m], dn[m].0, g0.node_seq()[dn[m].0.node_index as int].rank, dn[m].1)
                &&& graph.entries()[g0.entries().len() + m].0 == (Edge { source: dn[m].0, target: graph.node_at(g0.n() + m) })
                &&& graph.entries()[g0.entries().len() + m].1.is_default()
            } by {
                if m < m0 {
                    assert(created@[m] == cb[m]);
                    assert(dn[m] == db[m]);
                    assert(graph.node_seq()[g0.n() + m] == gb.node_seq()[g0.n() + m]);
                    assert(graph.entries()[g0.entries().len() + m] == gb.entries()[g0.entries().len() + m]);
                } else {
                    assert(dn[m] == (v, o + j));
                    assert(graph.node_seq()[g0.n() + m] == gp.node_seq()[g0.n() + m]);
                }
            }
            assert(loops_laid_as(graph, &g0, plan1, dn, created@));
        }
        j += 1;
    }
    proof {
        let dfin = d0 + Seq::new(count as nat, |q: int| (v, o + q));
        assert(plan1.last() == (v, o as int));
        assert(loop_dummies(plan1, loops) == loop_dummies(plan1.drop_last(), loops) + Seq::new(
            loops[v.node_index as int] as nat,
            |q: int| (v, o + q),
        ));
        assert(loop_dummies(plan1, loops) =~= dfin);
    }
}

/// Gives every node of the layer matrix its order among the nodes and the
/// dummy nodes of self loops of its layer, and adds, after each node, one
/// dummy node per self loop it carries (`loops`, by node position): same
/// rank, the orders that follow, the node as parent, and an edge from the
/// node. Returns each node with the dummy nodes, in the order they were made.
#[verifier::rlimit(40)]
#[verifier::spinoff_prover]
pub fn insert_self_edges(graph: &mut Graph, loops: &Vec<usize>) -> (created: Vec<(NodeIndex, NodeIndex)>)
    requires
        old(graph).wf(),
        loops@.len() == old(graph).n(),
        rank_spread_below(old(graph)),
        forall|i: int| 0 <= i < old(graph).n() ==> ((#[trigger] old(graph).node_seq()[i]).order matches Some(o) ==> o < usize::MAX),
        self_loops_fit(old(graph), loops@),
    ensures
        self_loops_laid(final(graph), old(graph), loops@, self_loop_plan(old(graph), loops@), created@),
{
    let ghost g0 = *graph;
    let ghost lm = layer_matrix(&g0);
    let layers = build_layer_matrix(graph);
    proof {
        lemma_layer_matrix_nodes(&g0);
        assert(plan_upto(lm, loops@, 0) =~= Seq::<(NodeIndex, int)>::empty());
        assert(loops_laid_as(graph, &g0, Seq::empty(), Seq::empty(), Seq::empty())) by {
            assert forall|x: int| 0 <= x < g0.n() implies #[trigger] graph.node_seq()[x] == (NodeLabel {
                order: planned_order(Seq::empty(), x, g0.node_seq()[x].order),
                ..g0.node_seq()[x]
            }) by {}
        }
    }
    let mut created: Vec<(NodeIndex, NodeIndex)> = Vec::new();
    let mut a: usize = 0;
    while a < layers.len()
        invariant
            a <= layers@.len(),
            lm == layer_matrix(&g0),
            layers@.len() == lm.len(),
            forall|k: int| 0 <= k < layers@.len() ==> (#[trigger] layers@[k])@ == lm[k],
            forall|b: int, i: int| 0 <= b < lm.len() && 0 <= i < lm[b].len() ==> g0.contains_node(#[trigger] lm[b][i]),
            loops@.len() == g0.n(),
            self_loops_fit(&g0, loops@),
            self_loops_laid(graph, &g0, loops@, plan_upto(lm, loops@, a as int), created@),
        decreases layers@.len() - a,
    {
        let layer = &layers[a];
        let ghost lp = layer_plan(lm[a as int], loops@);
        let ghost base = plan_upto(lm, loops@, a as int);
        let mut shift: usize = 0;
        let mut i: usize = 0;
        proof {
            assert(base + lp.take(0) =~= base);
        }
        while i < layer.len()
            invariant
                a < layers@.len(),
                layers@.len() == lm.len(),
                i <= layer@.len(),
                layer@ == lm[a as int],
                lm == layer_matrix(&g0),
                lp == layer_plan(lm[a as int], loops@),
                base == plan_upto(lm, loops@, a as int),
                forall|b: int, i: int| 0 <= b < lm.len() && 0 <= i < lm[b].len() ==> g0.contains_node(#[trigger] lm[b][i]),
                loops@.len() == g0.n(),
                self_loops_fit(&g0, loops@),
                shift == loops_before(lm[a as int], loops@, i as int),
                self_loops_laid(graph, &g0, loops@, base + lp.take(i as int), created@),
            decreases layer@.len() - i,
        {
            let v = layer[i];
            proof {
                assert(g0.contains_node(lm[a as int][i as int]));
            }
            let count = loops[v.node_index];
            proof {
                assert(i + loops_before(lm[a as int], loops@, i as int) + loops@[lm[a as int][i as int].node_index as int] <= usize::MAX);
                let cur = base + lp.take(i as int);
                let next = base + lp.take(i + 1);
                assert(lp[i as int] == (v, i + shift));
                assert(next =~= cur.push((v, (i + shift) as int)));
                lemma_loop_dummies_append(base, lp.take(i + 1), loops@);
                lemma_loop_dummies_append(base, lp, loops@);
                assert(lp =~= lp.take(i + 1) + lp.skip(i + 1));
                lemma_loop_dummies_append(lp.take(i + 1), lp.skip(i + 1), loops@);
                assert(plan_upto(lm, loops@, a + 1) == base + lp);
                lemma_plan_upto_grows(lm, loops@, a + 1, lm.len() as int);
                assert(loop_dummies(next, loops@).len() == loop_dummies(cur, loops@).len() + count) by {
                    assert(next.drop_last() =~= cur);
                }
            }
            let o = i + shift;
            lay_self_loops(graph, v, o, count, &mut created, Ghost(g0), Ghost(loops@), Ghost(base + lp.take(i as int)));
            proof {
                assert(base + lp.take(i + 1) =~= (base + lp.take(i as int)).push((v, o as int)));
            }
            shift = shift + count;
            i += 1;
        }
        proof {
            assert(lp.take(layer@.len() as int) =~= lp);
            assert(plan_upto(lm, loops@, a + 1) == base + lp);
        }
        a += 1;
    }
    created
}

} // verus!
