//! Counting edge crossings between adjacent layers.
use vstd::prelude::*;
use crate::graph::{Graph, lemma_incident_index};
use crate::types::{Edge, EdgeLabel, NodeIndex};
use crate::util::is_placeholder;

use crate::util::PLACEHOLDER_GRAPH_ID;

verus! {

/// An edge between two layers, seen from the lower layer: the group (the
/// position of its source in the upper layer), the position of its target in
/// the lower layer, and its weight.
pub struct SouthEntry {
    pub group: int,
    pub pos: int,
    pub weight: int,
}

/// The last position of `v` in `layer`, if it occurs there.
pub open spec fn last_pos(layer: Seq<NodeIndex>, v: NodeIndex) -> Option<int>
    decreases layer.len(),
{
    if layer.len() == 0 {
        None
    } else if layer.last() == v {
        Some(layer.len() - 1)
    } else {
        last_pos(layer.drop_last(), v)
    }
}

/// The entries of the edges in `es` (leaving the upper node at position
/// `group`) whose target lies in `lower`, in the order of `es`.
pub open spec fn group_entries(g: &Graph, es: Seq<Edge>, group: int, lower: Seq<NodeIndex>) -> Seq<SouthEntry>
    decreases es.len(),
{
    if es.len() == 0 {
        Seq::empty()
    } else {
        let rest = group_entries(g, es.drop_last(), group, lower);
        let e = es.last();
        match last_pos(lower, e.target) {
            Some(p) => rest.push(SouthEntry { group, pos: p, weight: g.edge_label_spec(e).weight as int }),
            None => rest,
        }
    }
}

/// The entries of all edges from the first `k` nodes of `upper` into
/// `lower`, upper node by upper node.
pub open spec fn south_entries(g: &Graph, upper: Seq<NodeIndex>, lower: Seq<NodeIndex>, k: int) -> Seq<SouthEntry>
    decreases k,
{
    if k <= 0 {
        Seq::empty()
    } else {
        let rest = south_entries(g, upper, lower, k - 1);
        let u = upper[k - 1];
        if u.which_graph == PLACEHOLDER_GRAPH_ID {
            rest
        } else {
            rest + group_entries(g, g.out_edges_spec(u), k - 1, lower)
        }
    }
}

/// Total weight of the entries of earlier groups than `group` that end
/// right of position `pos`.
pub open spec fn heavier(s: Seq<SouthEntry>, group: int, pos: int) -> int
    decreases s.len(),
{
    if s.len() == 0 {
        0
    } else {
        heavier(s.drop_last(), group, pos) + if s.last().group < group && s.last().pos > pos {
            s.last().weight
        } else {
            0
        }
    }
}

/// Weighted number of crossings among the entries: every pair of edges
/// from different upper nodes whose order is inverted in the lower layer
/// counts the product of their weights.
pub open spec fn crossings(s: Seq<SouthEntry>) -> int
    decreases s.len(),
{
    if s.len() == 0 {
        0
    } else {
        crossings(s.drop_last()) + s.last().weight * heavier(s.drop_last(), s.last().group, s.last().pos)
    }
}

/// The weighted crossings between `upper` and `lower`.
pub open spec fn layer_crossings(g: &Graph, upper: Seq<NodeIndex>, lower: Seq<NodeIndex>) -> int {
    crossings(south_entries(g, upper, lower, upper.len() as int))
}

/// The weighted crossings between the first `k` adjacent layer pairs.
pub open spec fn total_crossings(g: &Graph, layering: Seq<Seq<NodeIndex>>, k: int) -> int
    decreases k,
{
    if k <= 0 {
        0
    } else {
        total_crossings(g, layering, k - 1) + layer_crossings(g, layering[k - 1], layering[k])
    }
}

/// Total weight of the entries ending right of position `pos`.
pub open spec fn weight_right_of(s: Seq<SouthEntry>, pos: int) -> int
    decreases s.len(),
{
    if s.len() == 0 {
        0
    } else {
        weight_right_of(s.drop_last(), pos) + if s.last().pos > pos { s.last().weight } else { 0 }
    }
}

/// Total weight of the entries.
pub open spec fn total_weight(s: Seq<SouthEntry>) -> int
    decreases s.len(),
{
    if s.len() == 0 {
        0
    } else {
        total_weight(s.drop_last()) + s.last().weight
    }
}

/// `ws[k] + ws[k + 1] + ...`.
pub open spec fn sum_from(ws: Seq<u128>, k: int) -> int
    decreases ws.len() - k,
{
    if k < 0 || k >= ws.len() {
        0
    } else {
        ws[k] + sum_from(ws, k + 1)
    }
}

proof fn lemma_sum_from_update(ws: Seq<u128>, k: int, p: int, w: u128)
    requires
        0 <= p < ws.len(),
        0 <= k,
    ensures
        sum_from(ws.update(p, w), k) == sum_from(ws, k) + if p >= k { w - ws[p] } else { 0 },
    decreases ws.len() - k,
{
    if k < ws.len() {
        lemma_sum_from_update(ws, k + 1, p, w);
    }
}

proof fn lemma_heavier_concat(s1: Seq<SouthEntry>, s2: Seq<SouthEntry>, g: int, p: int)
    ensures
        heavier(s1 + s2, g, p) == heavier(s1, g, p) + heavier(s2, g, p),
    decreases s2.len(),
{
    if s2.len() > 0 {
        assert((s1 + s2).drop_last() =~= s1 + s2.drop_last());
        lemma_heavier_concat(s1, s2.drop_last(), g, p);
    } else {
        assert(s1 + s2 =~= s1);
    }
}

proof fn lemma_heavier_no_earlier(s: Seq<SouthEntry>, g: int, p: int)
    requires
        forall|i: int| 0 <= i < s.len() ==> (#[trigger] s[i]).group >= g,
    ensures
        heavier(s, g, p) == 0,
    decreases s.len(),
{
    if s.len() > 0 {
        lemma_heavier_no_earlier(s.drop_last(), g, p);
    }
}

proof fn lemma_heavier_all_earlier(s: Seq<SouthEntry>, g: int, p: int)
    requires
        forall|i: int| 0 <= i < s.len() ==> (#[trigger] s[i]).group < g,
    ensures
        heavier(s, g, p) == weight_right_of(s, p),
    decreases s.len(),
{
    if s.len() > 0 {
        lemma_heavier_all_earlier(s.drop_last(), g, p);
    }
}

proof fn lemma_group_entries_group(g: &Graph, es: Seq<Edge>, group: int, lower: Seq<NodeIndex>)
    ensures
        forall|i: int| 0 <= i < group_entries(g, es, group, lower).len() ==>
            (#[trigger] group_entries(g, es, group, lower)[i]).group == group
            && 0 <= group_entries(g, es, group, lower)[i].pos < lower.len()
            && group_entries(g, es, group, lower)[i].weight >= 0,
    decreases es.len(),
{
    if es.len() > 0 {
        lemma_group_entries_group(g, es.drop_last(), group, lower);
        lemma_last_pos_range(lower, es.last().target);
        let rest = group_entries(g, es.drop_last(), group, lower);
        let e = es.last();
        if let Some(p) = last_pos(lower, e.target) {
            let x = SouthEntry { group, pos: p, weight: g.edge_label_spec(e).weight as int };
            assert forall|i: int| 0 <= i < rest.push(x).len() implies (#[trigger] rest.push(x)[i]).group == group
                && 0 <= rest.push(x)[i].pos < lower.len() && rest.push(x)[i].weight >= 0 by {
                if i < rest.len() {
                    assert(rest.push(x)[i] == rest[i]);
                }
            }
        }
    }
}

proof fn lemma_last_pos_range(layer: Seq<NodeIndex>, v: NodeIndex)
    ensures
        last_pos(layer, v) matches Some(p) ==> 0 <= p < layer.len() && layer[p] == v,
        last_pos(layer, v) is None ==> !layer.contains(v),
    decreases layer.len(),
{
    if layer.len() > 0 {
        lemma_last_pos_range(layer.drop_last(), v);
        if layer.last() != v && layer.contains(v) {
            let i = choose|i: int| 0 <= i < layer.len() && layer[i] == v;
            assert(layer.drop_last()[i] == v);
        }
    }
}

proof fn lemma_south_entries_groups(g: &Graph, upper: Seq<NodeIndex>, lower: Seq<NodeIndex>, k: int)
    ensures
        forall|i: int| 0 <= i < south_entries(g, upper, lower, k).len() ==>
            (#[trigger] south_entries(g, upper, lower, k)[i]).group < k
            && 0 <= south_entries(g, upper, lower, k)[i].pos < lower.len()
            && south_entries(g, upper, lower, k)[i].weight >= 0,
    decreases k,
{
    if k > 0 {
        lemma_south_entries_groups(g, upper, lower, k - 1);
        let rest = south_entries(g, upper, lower, k - 1);
        let u = upper[k - 1];
        if u.which_graph != PLACEHOLDER_GRAPH_ID {
            lemma_group_entries_group(g, g.out_edges_spec(u), k - 1, lower);
            let ge = group_entries(g, g.out_edges_spec(u), k - 1, lower);
            assert(south_entries(g, upper, lower, k) == rest + ge);
            assert forall|i: int| 0 <= i < (rest + ge).len() implies (#[trigger] (rest + ge)[i]).group < k
                && 0 <= (rest + ge)[i].pos < lower.len() && (rest + ge)[i].weight >= 0 by {
                if i >= rest.len() {
                    assert((rest + ge)[i] == ge[i - rest.len()]);
                } else {
                    assert((rest + ge)[i] == rest[i]);
                }
            }
        } else {
            assert(south_entries(g, upper, lower, k) == rest);
        }
    }
}

proof fn lemma_crossings_push_le(s: Seq<SouthEntry>, e: SouthEntry)
    requires
        e.weight >= 0,
        forall|i: int| 0 <= i < s.len() ==> (#[trigger] s[i]).weight >= 0,
    ensures
        crossings(s) <= crossings(s.push(e)),
{
    assert(s.push(e).drop_last() =~= s);
    lemma_heavier_nonneg(s, e.group, e.pos);
    assert(e.weight * heavier(s, e.group, e.pos) >= 0) by (nonlinear_arith)
        requires e.weight >= 0, heavier(s, e.group, e.pos) >= 0;
}

proof fn lemma_heavier_nonneg(s: Seq<SouthEntry>, g: int, p: int)
    requires
        forall|i: int| 0 <= i < s.len() ==> (#[trigger] s[i]).weight >= 0,
    ensures
        heavier(s, g, p) >= 0,
    decreases s.len(),
{
    if s.len() > 0 {
        lemma_heavier_nonneg(s.drop_last(), g, p);
    }
}

/// The crossings of a sequence are at least those of any prefix.
proof fn lemma_crossings_prefix(s: Seq<SouthEntry>, t: Seq<SouthEntry>)
    requires
        forall|i: int| 0 <= i < (s + t).len() ==> (#[trigger] (s + t)[i]).weight >= 0,
    ensures
        crossings(s) <= crossings(s + t),
    decreases t.len(),
{
    if t.len() > 0 {
        assert((s + t).drop_last() =~= s + t.drop_last());
        assert forall|i: int| 0 <= i < (s + t.drop_last()).len() implies (#[trigger] (s + t.drop_last())[i]).weight >= 0 by {
            assert((s + t.drop_last())[i] == (s + t)[i]);
        }
        lemma_crossings_prefix(s, t.drop_last());
        assert((s + t) =~= (s + t.drop_last()).push(t.last()));
        assert((s + t)[(s + t).len() - 1] == t.last());
        lemma_crossings_push_le(s + t.drop_last(), t.last());
    } else {
        assert(s + t =~= s);
    }
}

proof fn lemma_weight_right_le_total(s: Seq<SouthEntry>, p: int)
    requires
        forall|i: int| 0 <= i < s.len() ==> (#[trigger] s[i]).weight >= 0,
    ensures
        0 <= weight_right_of(s, p) <= total_weight(s),
    decreases s.len(),
{
    if s.len() > 0 {
        lemma_weight_right_le_total(s.drop_last(), p);
    }
}

proof fn lemma_total_weight_prefix(s: Seq<SouthEntry>, t: Seq<SouthEntry>)
    requires
        forall|i: int| 0 <= i < (s + t).len() ==> (#[trigger] (s + t)[i]).weight >= 0,
    ensures
        total_weight(s) <= total_weight(s + t),
    decreases t.len(),
{
    if t.len() > 0 {
        assert((s + t).drop_last() =~= s + t.drop_last());
        assert forall|i: int| 0 <= i < (s + t.drop_last()).len() implies (#[trigger] (s + t.drop_last())[i]).weight >= 0 by {
            assert((s + t.drop_last())[i] == (s + t)[i]);
        }
        lemma_total_weight_prefix(s, t.drop_last());
        assert((s + t)[(s + t).len() - 1] == t.last());
    } else {
        assert(s + t =~= s);
    }
}

/// The last position of `v` in `layer`.
pub fn last_position(layer: &Vec<NodeIndex>, v: NodeIndex) -> (r: Option<usize>)
    ensures
        r matches Some(p) ==> last_pos(layer@, v) == Some(p as int),
        r is None ==> last_pos(layer@, v) is None,
{
    let mut i: usize = layer.len();
    proof {
        assert(layer@.take(i as int) =~= layer@);
    }
    while i > 0
        invariant
            i <= layer@.len(),
            last_pos(layer@, v) == last_pos(layer@.take(i as int), v),
        decreases i,
    {
        proof {
            assert(layer@.take(i as int).drop_last() =~= layer@.take(i - 1));
        }
        if layer[i - 1] == v {
            return Some(i - 1);
        }
        i -= 1;
    }
    None
}

/// `s` is a prefix of `full`.
pub open spec fn is_prefix<T>(s: Seq<T>, full: Seq<T>) -> bool {
    s.len() <= full.len() && full.take(s.len() as int) =~= s
}

proof fn lemma_sum_from_nonneg(ws: Seq<u128>, k: int)
    ensures
        sum_from(ws, k) >= 0,
    decreases ws.len() - k,
{
    if 0 <= k < ws.len() {
        lemma_sum_from_nonneg(ws, k + 1);
    }
}

proof fn lemma_sum_from_mono(ws: Seq<u128>, i: int, j: int)
    requires
        0 <= j <= i,
    ensures
        sum_from(ws, i) <= sum_from(ws, j),
        j < ws.len() ==> ws[j] <= sum_from(ws, j),
    decreases i - j,
{
    lemma_sum_from_nonneg(ws, j + 1);
    lemma_sum_from_nonneg(ws, i);
    if j < i {
        lemma_sum_from_mono(ws, i, j + 1);
    }
}

/// What a prefix of `all` inherits from it.
proof fn lemma_prefix_bounds(s: Seq<SouthEntry>, all: Seq<SouthEntry>)
    requires
        is_prefix(s, all),
        forall|i: int| 0 <= i < all.len() ==> (#[trigger] all[i]).weight >= 0,
    ensures
        crossings(s) <= crossings(all),
        total_weight(s) <= total_weight(all),
        all =~= s + all.skip(s.len() as int),
        forall|i: int| 0 <= i < s.len() ==> (#[trigger] s[i]).weight >= 0,
{
    let t = all.skip(s.len() as int);
    assert(all =~= s + t);
    assert forall|i: int| 0 <= i < s.len() implies (#[trigger] s[i]).weight >= 0 by {
        assert(s[i] == all[i]);
    }
    lemma_crossings_prefix(s, t);
    lemma_total_weight_prefix(s, t);
}

/// A prefix of the appended part gives a prefix of the whole.
proof fn lemma_prefix_concat<T>(d: Seq<T>, g: Seq<T>, k: int)
    requires
        0 <= k <= g.len(),
    ensures
        is_prefix(d + g.take(k), d + g),
{
    assert((d + g).take((d + g.take(k)).len() as int) =~= d + g.take(k));
}

proof fn lemma_group_entries_prefix(g: &Graph, es: Seq<Edge>, i: int, group: int, lower: Seq<NodeIndex>)
    requires
        0 <= i <= es.len(),
    ensures
        is_prefix(group_entries(g, es.take(i), group, lower), group_entries(g, es, group, lower)),
    decreases es.len() - i,
{
    if i < es.len() {
        lemma_group_entries_prefix(g, es, i + 1, group, lower);
        assert(es.take(i + 1).drop_last() =~= es.take(i));
        let a = group_entries(g, es.take(i), group, lower);
        let b = group_entries(g, es.take(i + 1), group, lower);
        let c = group_entries(g, es, group, lower);
        assert(is_prefix(a, b));
        assert(c.take(a.len() as int) =~= c.take(b.len() as int).take(a.len() as int));
    } else {
        assert(es.take(i) =~= es);
    }
}

proof fn lemma_south_entries_prefix(g: &Graph, upper: Seq<NodeIndex>, lower: Seq<NodeIndex>, a: int, n: int)
    requires
        0 <= a <= n,
    ensures
        is_prefix(south_entries(g, upper, lower, a), south_entries(g, upper, lower, n)),
    decreases n - a,
{
    if a < n {
        lemma_south_entries_prefix(g, upper, lower, a + 1, n);
        let x = south_entries(g, upper, lower, a);
        let y = south_entries(g, upper, lower, a + 1);
        let z = south_entries(g, upper, lower, n);
        assert(is_prefix(x, y));
        assert(z.take(x.len() as int) =~= z.take(y.len() as int).take(x.len() as int));
    }
}

proof fn lemma_prefix_trans<T>(a: Seq<T>, b: Seq<T>, c: Seq<T>)
    requires
        is_prefix(a, b),
        is_prefix(b, c),
    ensures
        is_prefix(a, c),
{
    assert(c.take(a.len() as int) =~= c.take(b.len() as int).take(a.len() as int));
}

/// The entries of a list of `(position, weight)` pairs of group `group`.
pub open spec fn to_entries(gl: Seq<(usize, u32)>, group: int) -> Seq<SouthEntry> {
    Seq::new(gl.len(), |i: int| SouthEntry { group, pos: gl[i].0 as int, weight: gl[i].1 as int })
}

/// `ws[k + 1] + ws[k + 2] + ...`.
fn sum_right_of(ws: &Vec<u128>, k: usize) -> (r: u128)
    requires
        sum_from(ws@, 0) <= u128::MAX,
    ensures
        r == sum_from(ws@, k + 1),
{
    let mut acc: u128 = 0;
    let mut i: usize = ws.len();
    if i <= k {
        return 0;
    }
    while i > k + 1
        invariant
            k < i <= ws@.len(),
            acc == sum_from(ws@, i as int),
            sum_from(ws@, 0) <= u128::MAX,
        decreases i,
    {
        proof {
            lemma_sum_from_mono(ws@, i - 1, 0);
        }
        acc = acc + ws[i - 1];
        i -= 1;
    }
    acc
}

/// The weighted crossings between the layers `upper` and `lower`: every
/// pair of edges from different nodes of `upper` whose targets appear in
/// the opposite order in `lower` adds the product of their weights.
pub fn count_crossings_between_layers(graph: &Graph, upper: &Vec<NodeIndex>, lower: &Vec<NodeIndex>) -> (r: usize)
    requires
        graph.wf(),
        forall|i: int|
            0 <= i < upper@.len() ==> (#[trigger] upper@[i]).which_graph == PLACEHOLDER_GRAPH_ID
                || upper@[i].which_graph == graph.id(),
        layer_crossings(graph, upper@, lower@) <= usize::MAX,
        total_weight(south_entries(graph, upper@, lower@, upper@.len() as int)) <= usize::MAX,
    ensures
        r == layer_crossings(graph, upper@, lower@),
{
    let m = lower.len();
    let n = upper.len();
    let ghost all = south_entries(graph, upper@, lower@, n as int);
    let mut weight_at: Vec<u128> = Vec::new();
    while weight_at.len() < m
        invariant
            weight_at@.len() <= m,
            forall|q: int| 0 <= q < weight_at@.len() ==> weight_at@[q] == 0,
        decreases m - weight_at@.len(),
    {
        weight_at.push(0);
    }
    proof {
        assert forall|q: int| 0 <= q <= m implies #[trigger] sum_from(weight_at@, q) == 0 by {
            lemma_sum_from_zero(weight_at@, q);
        }
        lemma_south_entries_groups(graph, upper@, lower@, n as int);
    }
    let mut cc: u128 = 0;
    let mut a: usize = 0;
    while a < n
        invariant
            graph.wf(),
            n == upper@.len(),
            m == lower@.len(),
            all == south_entries(graph, upper@, lower@, n as int),
            forall|i: int|
                0 <= i < upper@.len() ==> (#[trigger] upper@[i]).which_graph == PLACEHOLDER_GRAPH_ID
                    || upper@[i].which_graph == graph.id(),
            crossings(all) <= usize::MAX,
            total_weight(all) <= usize::MAX,
            forall|i: int| 0 <= i < all.len() ==> (#[trigger] all[i]).weight >= 0,
            a <= n,
            weight_at@.len() == m,
            forall|q: int|
                0 <= q <= m ==> #[trigger] sum_from(weight_at@, q) == weight_right_of(
                    south_entries(graph, upper@, lower@, a as int),
                    q - 1,
                ),
            cc == crossings(south_entries(graph, upper@, lower@, a as int)),
        decreases n - a,
    {
        let ghost done = south_entries(graph, upper@, lower@, a as int);
        proof {
            lemma_south_entries_prefix(graph, upper@, lower@, a as int, n as int);
            lemma_south_entries_prefix(graph, upper@, lower@, a + 1, n as int);
            lemma_south_entries_groups(graph, upper@, lower@, a as int);
        }
        let u = upper[a];
        if !is_placeholder(u) {
            let es = graph.out_edges(u);
            let ghost full_ge = group_entries(graph, es@, a as int, lower@);
            proof {
                assert(south_entries(graph, upper@, lower@, a + 1) == done + full_ge);
                lemma_group_entries_group(graph, es@, a as int, lower@);
            }
            let mut glist: Vec<(usize, u32)> = Vec::new();
            let mut j: usize = 0;
            proof {
                assert(es@.take(0) =~= Seq::<Edge>::empty());
                assert(to_entries(glist@, a as int) =~= Seq::<SouthEntry>::empty());
                assert(done + Seq::<SouthEntry>::empty() =~= done);
            }
            while j < es.len()
                invariant
                    graph.wf(),
                    u.which_graph == graph.id(),
                    es@ == graph.out_edges_spec(u),
                    full_ge == group_entries(graph, es@, a as int, lower@),
                    is_prefix(done + full_ge, all),
                    crossings(all) <= usize::MAX,
                    total_weight(all) <= usize::MAX,
                    forall|i: int| 0 <= i < all.len() ==> (#[trigger] all[i]).weight >= 0,
                    forall|i: int| 0 <= i < done.len() ==> (#[trigger] done[i]).group < a && done[i].pos >= 0,
                    m == lower@.len(),
                    weight_at@.len() == m,
                    forall|q: int| 0 <= q <= m ==> #[trigger] sum_from(weight_at@, q) == weight_right_of(done, q - 1),
                    j <= es@.len(),
                    to_entries(glist@, a as int) == group_entries(graph, es@.take(j as int), a as int, lower@),
                    cc == crossings(done + group_entries(graph, es@.take(j as int), a as int, lower@)),
                decreases es@.len() - j,
            {
                let e = es[j];
                let ghost ge = group_entries(graph, es@.take(j as int), a as int, lower@);
                proof {
                    assert(es@.take(j + 1).drop_last() =~= es@.take(j as int));
                    assert(es@.take(j + 1).last() == e);
                    lemma_incident_index(graph.entries(), u, true, j as int);
                    let i = choose|i: int| 0 <= i < graph.entries().len() && #[trigger] graph.entries()[i].0 == e;
                    assert(graph.has_edge_spec(e));
                    lemma_group_entries_prefix(graph, es@, j as int, a as int, lower@);
                    lemma_group_entries_prefix(graph, es@, j + 1, a as int, lower@);
                }
                let pos = last_position(lower, e.target);
                if let Some(p) = pos {
                    let w = graph.edge_label(&e).unwrap().weight;
                    proof {
                        lemma_last_pos_range(lower@, e.target);
                        lemma_entry_step(graph, es@, j as int, a as int, lower@, done, full_ge, all, p as int, w);
                        assert(sum_from(weight_at@, p + 1) == weight_right_of(done, p as int));
                        assert(sum_from(weight_at@, 0) == weight_right_of(done, -1));
                        lemma_sum_from_mono(weight_at@, p + 1, 0);
                    }
                    let s = sum_right_of(&weight_at, p);
                    cc = cc + (w as u128) * s;
                    glist.push((p, w));
                    proof {
                        assert(to_entries(glist@, a as int) =~= to_entries(glist@.drop_last(), a as int).push(
                            SouthEntry { group: a as int, pos: p as int, weight: w as int },
                        ));
                    }
                } else {
                    proof {
                        assert(group_entries(graph, es@.take(j + 1), a as int, lower@) == ge);
                    }
                }
                j += 1;
            }
            proof {
                assert(es@.take(es@.len() as int) =~= es@);
            }
            // Record this group's weights by position.
            let ghost ge_all = full_ge;
            let mut k: usize = 0;
            proof {
                assert(done + to_entries(glist@, a as int).take(0) =~= done);
            }
            while k < glist.len()
                invariant
                    m == lower@.len(),
                    weight_at@.len() == m,
                    to_entries(glist@, a as int) == ge_all,
                    forall|i: int| 0 <= i < ge_all.len() ==> 0 <= (#[trigger] ge_all[i]).pos < m && ge_all[i].weight >= 0,
                    is_prefix(done + ge_all, all),
                    total_weight(all) <= usize::MAX,
                    forall|i: int| 0 <= i < all.len() ==> (#[trigger] all[i]).weight >= 0,
                    k <= glist@.len(),
                    forall|q: int| 0 <= q <= m ==> #[trigger] sum_from(weight_at@, q) == weight_right_of(
                        done + ge_all.take(k as int),
                        q - 1,
                    ),
                decreases glist@.len() - k,
            {
                let (p, w) = glist[k];
                let ghost cur = done + ge_all.take(k as int);
                let ghost nxt = done + ge_all.take(k + 1);
                proof {
                    assert(ge_all[k as int] == SouthEntry { group: a as int, pos: p as int, weight: w as int });
                    assert(nxt =~= cur.push(ge_all[k as int]));
                    assert(nxt.drop_last() =~= cur);
                    lemma_prefix_concat(done, ge_all, k + 1);
                    lemma_prefix_trans(nxt, done + ge_all, all);
                    lemma_prefix_bounds(nxt, all);
                    lemma_weight_right_le_total(nxt, -1);
                    assert(sum_from(weight_at@, 0) == weight_right_of(cur, -1));
                    lemma_sum_from_mono(weight_at@, p as int, 0);
                    lemma_sum_from_mono(weight_at@, p as int, p as int);
                    assert(weight_right_of(nxt, -1) == weight_right_of(cur, -1) + w);
                }
                let old_w = weight_at[p];
                let ghost ws0 = weight_at@;
                weight_at.set(p, old_w + w as u128);
                proof {
                    assert forall|q: int| 0 <= q <= m implies #[trigger] sum_from(weight_at@, q) == weight_right_of(nxt, q - 1) by {
                        lemma_sum_from_update(ws0, q, p as int, (old_w + w) as u128);
                    }
                }
                k += 1;
            }
            proof {
                assert(ge_all.take(glist@.len() as int) =~= ge_all);
                assert(to_entries(glist@, a as int).len() == glist@.len());
            }
        } else {
            proof {
                assert(south_entries(graph, upper@, lower@, a + 1) == done);
            }
        }
        a += 1;
    }
    cc as usize
}

/// One edge of the current group: its crossings with the earlier groups,
/// and the bounds that keep the arithmetic in range.
proof fn lemma_entry_step(
    graph: &Graph,
    es: Seq<Edge>,
    j: int,
    a: int,
    lower: Seq<NodeIndex>,
    done: Seq<SouthEntry>,
    full_ge: Seq<SouthEntry>,
    all: Seq<SouthEntry>,
    p: int,
    w: u32,
)
    requires
        0 <= j < es.len(),
        last_pos(lower, es[j].target) == Some(p),
        graph.edge_label_spec(es[j]).weight == w,
        full_ge == group_entries(graph, es, a, lower),
        is_prefix(done + full_ge, all),
        forall|i: int| 0 <= i < all.len() ==> (#[trigger] all[i]).weight >= 0,
        forall|i: int| 0 <= i < done.len() ==> (#[trigger] done[i]).group < a && done[i].pos >= 0,
        crossings(all) <= usize::MAX,
        total_weight(all) <= usize::MAX,
    ensures
        ({
            let ge = group_entries(graph, es.take(j), a, lower);
            let x = SouthEntry { group: a, pos: p, weight: w as int };
            &&& group_entries(graph, es.take(j + 1), a, lower) == ge.push(x)
            &&& crossings(done + ge.push(x)) == crossings(done + ge) + w * weight_right_of(done, p)
            &&& crossings(done + ge.push(x)) <= usize::MAX
            &&& 0 <= weight_right_of(done, p) <= weight_right_of(done, -1)
            &&& weight_right_of(done, -1) <= usize::MAX
            &&& w * weight_right_of(done, p) <= 0xffff_ffff * 0xffff_ffff_ffff_ffff
        }),
{
    let ge = group_entries(graph, es.take(j), a, lower);
    let x = SouthEntry { group: a, pos: p, weight: w as int };
    lemma_last_pos_range(lower, es[j].target);
    assert(es.take(j + 1).drop_last() =~= es.take(j));
    assert(es.take(j + 1).last() == es[j]);
    let ge2 = group_entries(graph, es.take(j + 1), a, lower);
    assert(ge2 == ge.push(x));
    assert((done + ge).push(x) =~= done + ge2);
    assert((done + ge2).drop_last() =~= done + ge);
    lemma_heavier_concat(done, ge, a, p);
    lemma_group_entries_group(graph, es.take(j), a, lower);
    lemma_heavier_no_earlier(ge, a, p);
    lemma_heavier_all_earlier(done, a, p);
    lemma_group_entries_prefix(graph, es, j + 1, a, lower);
    lemma_prefix_concat(done, full_ge, 0);
    assert(is_prefix(done + ge2, done + full_ge)) by {
        assert((done + full_ge).take((done + ge2).len() as int) =~= done + full_ge.take(ge2.len() as int));
        assert(full_ge.take(ge2.len() as int) =~= ge2);
    }
    lemma_prefix_trans(done + ge2, done + full_ge, all);
    lemma_prefix_bounds(done + ge2, all);
    assert(is_prefix(done, all)) by {
        assert(all.take(done.len() as int) =~= (done + full_ge).take(done.len() as int));
    }
    lemma_prefix_bounds(done, all);
    lemma_weight_right_le_total(done, p);
    lemma_weight_right_le_total(done, -1);
    lemma_weight_right_total(done);
    assert(w as int * weight_right_of(done, p) <= 0xffff_ffff * 0xffff_ffff_ffff_ffff) by (nonlinear_arith)
        requires w <= 0xffff_ffff, 0 <= weight_right_of(done, p) <= 0xffff_ffff_ffff_ffff;
    lemma_weight_right_mono(done, p);
}

proof fn lemma_weight_right_total(s: Seq<SouthEntry>)
    requires
        forall|i: int| 0 <= i < s.len() ==> (#[trigger] s[i]).pos >= 0,
    ensures
        weight_right_of(s, -1) == total_weight(s),
    decreases s.len(),
{
    if s.len() > 0 {
        lemma_weight_right_total(s.drop_last());
    }
}

proof fn lemma_weight_right_mono(s: Seq<SouthEntry>, p: int)
    requires
        p >= -1,
        forall|i: int| 0 <= i < s.len() ==> (#[trigger] s[i]).weight >= 0,
    ensures
        weight_right_of(s, p) <= weight_right_of(s, -1),
    decreases s.len(),
{
    if s.len() > 0 {
        lemma_weight_right_mono(s.drop_last(), p);
    }
}

proof fn lemma_sum_from_zero(ws: Seq<u128>, k: int)
    requires
        forall|q: int| 0 <= q < ws.len() ==> ws[q] == 0,
    ensures
        sum_from(ws, k) == 0,
    decreases ws.len() - k,
{
    if 0 <= k < ws.len() {
        lemma_sum_from_zero(ws, k + 1);
    }
}

/// The layers of a layering, as sequences.
pub open spec fn layers_view(layering: Seq<Vec<NodeIndex>>) -> Seq<Seq<NodeIndex>> {
    layering.map_values(|l: Vec<NodeIndex>| l@)
}

/// The number of adjacent layer pairs.
pub open spec fn pair_count(len: int) -> int {
    if len > 0 { len - 1 } else { 0 }
}

/// Every node of the layering is a node index of `g` or a placeholder.
pub open spec fn layering_in_graph(g: &Graph, layering: Seq<Seq<NodeIndex>>) -> bool {
    forall|r: int, i: int|
        0 <= r < layering.len() && 0 <= i < layering[r].len() ==> (#[trigger] layering[r][i]).which_graph
            == PLACEHOLDER_GRAPH_ID || layering[r][i].which_graph == g.id()
}

/// Between every two adjacent layers the edge weights sum to at most
/// `usize::MAX`.
pub open spec fn pair_weights_fit(g: &Graph, layering: Seq<Seq<NodeIndex>>) -> bool {
    forall|r: int|
        0 <= r < layering.len() - 1 ==> #[trigger] total_weight(
            south_entries(g, layering[r], layering[r + 1], layering[r].len() as int),
        ) <= usize::MAX
}

proof fn lemma_crossings_nonneg(s: Seq<SouthEntry>)
    requires
        forall|i: int| 0 <= i < s.len() ==> (#[trigger] s[i]).weight >= 0,
    ensures
        crossings(s) >= 0,
{
    assert(Seq::<SouthEntry>::empty() + s =~= s);
    lemma_crossings_prefix(Seq::<SouthEntry>::empty(), s);
}

proof fn lemma_total_crossings_mono(g: &Graph, layering: Seq<Seq<NodeIndex>>, k: int, n: int)
    requires
        0 <= k <= n,
        n < layering.len(),
    ensures
        total_crossings(g, layering, k) <= total_crossings(g, layering, n),
    decreases n - k,
{
    if k < n {
        lemma_total_crossings_mono(g, layering, k + 1, n);
        let r = k;
        lemma_south_entries_groups(g, layering[r], layering[r + 1], layering[r].len() as int);
        lemma_crossings_nonneg(south_entries(g, layering[r], layering[r + 1], layering[r].len() as int));
    }
}

/// The weighted number of edge crossings of the layering: the sum, over
/// every two adjacent layers, of their weighted crossings.
pub fn cross_count(graph: &Graph, layering: &Vec<Vec<NodeIndex>>) -> (r: usize)
    requires
        graph.wf(),
        layering_in_graph(graph, layers_view(layering@)),
        pair_weights_fit(graph, layers_view(layering@)),
        total_crossings(graph, layers_view(layering@), pair_count(layering@.len() as int)) <= usize::MAX,
    ensures
        r == total_crossings(graph, layers_view(layering@), pair_count(layering@.len() as int)),
{
    let ghost lv = layers_view(layering@);
    let n = layering.len();
    let pairs: usize = if n > 0 { n - 1 } else { 0 };
    let mut crossings: usize = 0;
    let mut rank: usize = 0;
    while rank < pairs
        invariant
            graph.wf(),
            lv == layers_view(layering@),
            n == layering@.len(),
            pairs == pair_count(n as int),
            layering_in_graph(graph, lv),
            pair_weights_fit(graph, lv),
            total_crossings(graph, lv, pairs as int) <= usize::MAX,
            rank <= pairs,
            crossings == total_crossings(graph, lv, rank as int),
        decreases pairs - rank,
    {
        let upper = &layering[rank];
        let lower = &layering[rank + 1];
        proof {
            assert(lv[rank as int] == upper@);
            assert(lv[rank + 1] == lower@);
            assert forall|i: int| 0 <= i < upper@.len() implies (#[trigger] upper@[i]).which_graph == PLACEHOLDER_GRAPH_ID
                || upper@[i].which_graph == graph.id() by {
                assert(lv[rank as int][i] == upper@[i]);
            }
            assert(total_weight(south_entries(graph, lv[rank as int], lv[rank + 1], lv[rank as int].len() as int)) <= usize::MAX);
            lemma_total_crossings_mono(graph, lv, rank + 1, pairs as int);
            lemma_south_entries_groups(graph, upper@, lower@, upper@.len() as int);
            lemma_crossings_nonneg(south_entries(graph, upper@, lower@, upper@.len() as int));
        }
        let c = count_crossings_between_layers(graph, upper, lower);
        crossings = crossings + c;
        rank += 1;
    }
    crossings
}

/// Do the segments `(u1, l1)` and `(u2, l2)` between two layers cross?
pub fn edges_cross(edge1: &(usize, usize), edge2: &(usize, usize)) -> (r: bool)
    ensures
        r == ((edge1.0 < edge2.0 && edge1.1 > edge2.1) || (edge1.0 > edge2.0 && edge1.1 < edge2.1)),
{
    let (u1, l1) = *edge1;
    let (u2, l2) = *edge2;
    (u1 < u2 && l1 > l2) || (u1 > u2 && l1 < l2)
}

} // verus!
