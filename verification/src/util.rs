//! Helpers over ranks and layers, and small utilities.
use vstd::prelude::*;
use std::time::{Duration, Instant};
use crate::graph::Graph;
use crate::types::{dummy_named, Dummy, NodeIndex, NodeLabel};

verus! {

/// The graph id that marks a placeholder index; graphs get their ids from
/// a counter that starts at 1.
pub const PLACEHOLDER_GRAPH_ID: u32 = 0;

/// Is `v` the placeholder index that marks an unused slot of a layer?
pub fn is_placeholder(v: NodeIndex) -> (r: bool)
    ensures
        r == (v.which_graph == PLACEHOLDER_GRAPH_ID),
{
    v.which_graph == PLACEHOLDER_GRAPH_ID
}

/// The integers `start, start + 1, ..., end - 1`.
pub fn range(start: i32, end: i32) -> (r: Vec<i32>)
    ensures
        r@.len() == if end > start { end - start } else { 0 },
        forall|i: int| 0 <= i < r@.len() ==> #[trigger] r@[i] == start + i,
{
    let mut r: Vec<i32> = Vec::new();
    let mut x = start;
    while x < end
        invariant
            start <= x || end <= start,
            x <= end || end <= start,
            end > start ==> r@.len() == x - start,
            end <= start ==> x == start && r@.len() == 0,
            forall|i: int| 0 <= i < r@.len() ==> #[trigger] r@[i] == start + i,
        decreases end - x,
    {
        r.push(x);
        x = x + 1;
    }
    r
}

/// Number of values `from + k * step` (k >= 0) below `to`, for `step > 0`.
pub open spec fn stepped_len(from: int, to: int, step: int) -> int {
    if to > from { (to - from + step - 1) / step } else { 0 }
}

/// With a positive `step`: `start, start + step, ...` while below `end`.
/// With a negative `step`: the values `end, end - step, ...` below `start`,
/// largest first.
pub fn range_with_step(start: i32, end: i32, step: i32) -> (r: Vec<i32>)
    requires
        step != 0,
        step != i32::MIN,
    ensures
        step > 0 ==> r@.len() == stepped_len(start as int, end as int, step as int),
        step > 0 ==> forall|i: int| 0 <= i < r@.len() ==> #[trigger] r@[i] == start + i * step,
        step < 0 ==> r@.len() == stepped_len(end as int, start as int, -step),
        step < 0 ==> forall|i: int|
            0 <= i < r@.len() ==> #[trigger] r@[i] == end + (r@.len() - 1 - i) * (-step),
{
    if step > 0 {
        step_up(start, end, step)
    } else {
        let s = -step;
        let up = step_up(end, start, s);
        let mut r: Vec<i32> = Vec::new();
        let mut i: usize = up.len();
        while i > 0
            invariant
                i <= up@.len(),
                r@.len() == up@.len() - i,
                forall|j: int| 0 <= j < r@.len() ==> #[trigger] r@[j] == up@[up@.len() - 1 - j],
            decreases i,
        {
            i -= 1;
            r.push(up[i]);
        }
        r
    }
}

/// `from, from + step, ...` while below `to`, for a positive `step`.
fn step_up(start: i32, end: i32, step: i32) -> (r: Vec<i32>)
    requires
        step > 0,
    ensures
        r@.len() == stepped_len(start as int, end as int, step as int),
        forall|i: int| 0 <= i < r@.len() ==> #[trigger] r@[i] == start + i * step,
{
    let mut r: Vec<i32> = Vec::new();
    let mut x: i64 = start as i64;
    let mut k: usize = 0;
    proof {
        if start < end {
            let d: int = end - start;
            let st: int = step as int;
            assert(d + st - 1 >= st);
            assert((d + st - 1) / st >= 1) by (nonlinear_arith)
                requires d + st - 1 >= st, st > 0;
        }
    }
    while x < end as i64
        invariant
            step > 0,
            x == start + k * step,
            r@.len() == k,
            x < end + step || x == start,
            end <= start ==> k == 0,
            k <= stepped_len(start as int, end as int, step as int),
            x < end ==> k < stepped_len(start as int, end as int, step as int),
            x >= end ==> k == stepped_len(start as int, end as int, step as int),
            forall|i: int| 0 <= i < r@.len() ==> #[trigger] r@[i] == start + i * step,
        decreases end + step - x,
    {
        r.push(x as i32);
        proof {
            lemma_stepped_len_next(start as int, end as int, step as int, k as int);
            assert((k + 1) * step == k * step + step) by (nonlinear_arith);
            assert(k * step >= k) by (nonlinear_arith)
                requires step > 0, k >= 0;
            assert(k < 0x1_0000_0000);
        }
        x = x + step as i64;
        k = k + 1;
    }
    r
}

proof fn lemma_stepped_len_next(from: int, to: int, step: int, k: int)
    requires
        step > 0,
        k >= 0,
        from + k * step < to,
        k <= stepped_len(from, to, step),
    ensures
        k < stepped_len(from, to, step),
        from + (k + 1) * step < to ==> k + 1 < stepped_len(from, to, step),
        from + (k + 1) * step >= to ==> k + 1 == stepped_len(from, to, step),
{
    let d = to - from;
    assert(k * step < d);
    assert((k + 1) * step == k * step + step) by (nonlinear_arith);
    assert(stepped_len(from, to, step) == (d + step - 1) / step);
    assert(k * step + step <= d + step - 1);
    assert((k + 1) <= (d + step - 1) / step) by (nonlinear_arith)
        requires (k + 1) * step <= d + step - 1, step > 0, k >= 0;
    if (k + 1) * step < d {
        assert((k + 2) * step <= d + step - 1) by (nonlinear_arith)
            requires (k + 1) * step < d, step > 0;
        assert((k + 2) <= (d + step - 1) / step) by (nonlinear_arith)
            requires (k + 2) * step <= d + step - 1, step > 0, k >= 0;
    } else {
        assert((d + step - 1) / step < k + 2) by (nonlinear_arith)
            requires (k + 1) * step >= d, step > 0, k >= 0;
    }
}

/// Some node of `g` has a rank.
pub open spec fn has_ranked(g: &Graph) -> bool {
    exists|i: int| 0 <= i < g.n() && (#[trigger] g.node_seq()[i]).rank is Some
}

/// `r` is the least rank of a node of `g`.
pub open spec fn is_min_rank(g: &Graph, r: int) -> bool {
    &&& exists|i: int| 0 <= i < g.n() && (#[trigger] g.node_seq()[i]).rank is Some && g.node_seq()[i].rank->0 == r
    &&& forall|i: int|
        0 <= i < g.n() && (#[trigger] g.node_seq()[i]).rank is Some ==> r <= g.node_seq()[i].rank->0
}

/// `r` is the greatest rank of a node of `g`.
pub open spec fn is_max_rank(g: &Graph, r: int) -> bool {
    &&& exists|i: int| 0 <= i < g.n() && (#[trigger] g.node_seq()[i]).rank is Some && g.node_seq()[i].rank->0 == r
    &&& forall|i: int|
        0 <= i < g.n() && (#[trigger] g.node_seq()[i]).rank is Some ==> g.node_seq()[i].rank->0 <= r
}

/// The least rank of a node, or 0 when no node has a rank.
pub fn min_rank(graph: &Graph) -> (r: i32)
    ensures
        has_ranked(graph) ==> is_min_rank(graph, r as int),
        !has_ranked(graph) ==> r == 0,
{
    let n = graph.node_count();
    let mut best: Option<i32> = None;
    let mut i: usize = 0;
    while i < n
        invariant
            n == graph.n(),
            i <= n,
            best is None ==> forall|k: int| 0 <= k < i ==> (#[trigger] graph.node_seq()[k]).rank is None,
            best matches Some(b) ==> (exists|k: int| 0 <= k < i && (#[trigger] graph.node_seq()[k]).rank == Some(b)),
            best matches Some(b) ==> forall|k: int|
                0 <= k < i && (#[trigger] graph.node_seq()[k]).rank is Some ==> b <= graph.node_seq()[k].rank->0,
        decreases n - i,
    {
        let v = NodeIndex { node_index: i, which_graph: graph.graph_id() };
        let label = graph.node_label(v).unwrap();
        if let Some(x) = label.rank {
            match best {
                Some(b) => {
                    if x < b {
                        best = Some(x);
                    }
                },
                None => {
                    best = Some(x);
                },
            }
        }
        i += 1;
    }
    match best {
        Some(b) => b,
        None => 0,
    }
}

/// The greatest rank of a node, or 0 when no node has a rank.
pub fn max_rank(graph: &Graph) -> (r: i32)
    ensures
        has_ranked(graph) ==> is_max_rank(graph, r as int),
        !has_ranked(graph) ==> r == 0,
{
    let n = graph.node_count();
    let mut best: Option<i32> = None;
    let mut i: usize = 0;
    while i < n
        invariant
            n == graph.n(),
            i <= n,
            best is None ==> forall|k: int| 0 <= k < i ==> (#[trigger] graph.node_seq()[k]).rank is None,
            best matches Some(b) ==> (exists|k: int| 0 <= k < i && (#[trigger] graph.node_seq()[k]).rank == Some(b)),
            best matches Some(b) ==> forall|k: int|
                0 <= k < i && (#[trigger] graph.node_seq()[k]).rank is Some ==> graph.node_seq()[k].rank->0 <= b,
        decreases n - i,
    {
        let v = NodeIndex { node_index: i, which_graph: graph.graph_id() };
        let label = graph.node_label(v).unwrap();
        if let Some(x) = label.rank {
            match best {
                Some(b) => {
                    if x > b {
                        best = Some(x);
                    }
                },
                None => {
                    best = Some(x);
                },
            }
        }
        i += 1;
    }
    match best {
        Some(b) => b,
        None => 0,
    }
}

/// No two ranks of `g` are more than `i32::MAX` apart.
pub open spec fn rank_spread_fits(g: &Graph) -> bool {
    forall|i: int, j: int|
        0 <= i < g.n() && 0 <= j < g.n() && (#[trigger] g.node_seq()[i]).rank is Some
            && (#[trigger] g.node_seq()[j]).rank is Some ==> g.node_seq()[i].rank->0
            - g.node_seq()[j].rank->0 <= i32::MAX
}

/// Shifts all ranks so that the least becomes 0; nothing else changes.
pub fn normalize_ranks(graph: &mut Graph)
    requires
        rank_spread_fits(old(graph)),
    ensures
        final(graph).n() == old(graph).n(),
        final(graph).entries() == old(graph).entries(),
        final(graph).id() == old(graph).id(),
        final(graph).config_spec() == old(graph).config_spec(),
        forall|i: int|
            0 <= i < old(graph).n() ==> #[trigger] final(graph).node_seq()[i] == (NodeLabel {
                rank: match old(graph).node_seq()[i].rank {
                    Some(x) => Some((x - min_rank_spec(old(graph))) as i32),
                    None => None,
                },
                ..old(graph).node_seq()[i]
            }),
{
    let m = min_rank(graph);
    proof {
        lemma_min_rank_spec(&*graph, m as int);
    }
    let n = graph.node_count();
    let gid = graph.graph_id();
    let ghost g0 = *graph;
    let mut i: usize = 0;
    while i < n
        invariant
            n == g0.n(),
            i <= n,
            gid == g0.id(),
            m == min_rank_spec(&g0),
            rank_spread_fits(&g0),
            has_ranked(&g0) ==> is_min_rank(&g0, m as int),
            graph.n() == g0.n(),
            graph.entries() == g0.entries(),
            graph.id() == g0.id(),
            graph.config_spec() == g0.config_spec(),
            forall|k: int|
                0 <= k < n ==> #[trigger] graph.node_seq()[k] == if k < i {
                    NodeLabel {
                        rank: match g0.node_seq()[k].rank {
                            Some(x) => Some((x - m) as i32),
                            None => None,
                        },
                        ..g0.node_seq()[k]
                    }
                } else {
                    g0.node_seq()[k]
                },
        decreases n - i,
    {
        let v = NodeIndex { node_index: i, which_graph: gid };
        let label = graph.node_label_mut(v).unwrap();
        if let Some(x) = label.rank {
            proof {
                assert(g0.node_seq()[i as int].rank == Some(x));
                assert(has_ranked(&g0));
                let j = choose|j: int| 0 <= j < g0.n() && (#[trigger] g0.node_seq()[j]).rank is Some && g0.node_seq()[j].rank->0 == m;
                assert(x - m <= i32::MAX);
                assert(m <= x);
            }
            label.rank = Some(x - m);
        }
        i += 1;
    }
}

/// The value `min_rank` returns.
pub open spec fn min_rank_spec(g: &Graph) -> int {
    if has_ranked(g) {
        choose|r: int| is_min_rank(g, r)
    } else {
        0
    }
}

/// `min_rank` returns `min_rank_spec`.
pub proof fn lemma_min_rank_spec(g: &Graph, m: int)
    requires
        has_ranked(g) ==> is_min_rank(g, m),
        !has_ranked(g) ==> m == 0,
    ensures
        min_rank_spec(g) == m,
{
    if has_ranked(g) {
        let c = choose|r: int| is_min_rank(g, r);
        assert(is_min_rank(g, c));
        let i = choose|i: int| 0 <= i < g.n() && (#[trigger] g.node_seq()[i]).rank is Some && g.node_seq()[i].rank->0 == c;
        let j = choose|j: int| 0 <= j < g.n() && (#[trigger] g.node_seq()[j]).rank is Some && g.node_seq()[j].rank->0 == m;
        assert(c <= m && m <= c);
    }
}

/// The value `max_rank` returns.
pub open spec fn max_rank_spec(g: &Graph) -> int {
    if has_ranked(g) {
        choose|r: int| is_max_rank(g, r)
    } else {
        0
    }
}

/// `max_rank` returns `max_rank_spec`.
pub proof fn lemma_max_rank_spec(g: &Graph, m: int)
    requires
        has_ranked(g) ==> is_max_rank(g, m),
        !has_ranked(g) ==> m == 0,
    ensures
        max_rank_spec(g) == m,
{
    if has_ranked(g) {
        let c = choose|r: int| is_max_rank(g, r);
        assert(is_max_rank(g, c));
        let i = choose|i: int| 0 <= i < g.n() && (#[trigger] g.node_seq()[i]).rank is Some && g.node_seq()[i].rank->0 == c;
        let j = choose|j: int| 0 <= j < g.n() && (#[trigger] g.node_seq()[j]).rank is Some && g.node_seq()[j].rank->0 == m;
        assert(c <= m && m <= c);
    }
}

/// The index that fills unused slots of a layer while it is built.
pub open spec fn placeholder() -> NodeIndex {
    NodeIndex { node_index: usize::MAX, which_graph: PLACEHOLDER_GRAPH_ID }
}

/// `layer` grown with placeholders to at least `len` slots.
pub open spec fn pad(layer: Seq<NodeIndex>, len: int) -> Seq<NodeIndex> {
    if layer.len() >= len {
        layer
    } else {
        layer + Seq::new((len - layer.len()) as nat, |i: int| placeholder())
    }
}

/// `v` placed in `layer`: at slot `order` when it has one (growing the
/// layer with placeholders as needed, and replacing what was there),
/// otherwise at the end.
pub open spec fn place(layer: Seq<NodeIndex>, v: NodeIndex, order: Option<usize>) -> Seq<NodeIndex> {
    match order {
        Some(o) => pad(layer, o + 1).update(o as int, v),
        None => layer.push(v),
    }
}

/// The layers after the first `k` nodes were placed, layer `i` holding
/// rank `lo + i`.
pub open spec fn raw_layers(g: &Graph, lo: int, count: nat, k: int) -> Seq<Seq<NodeIndex>>
    decreases k,
{
    if k <= 0 {
        Seq::new(count, |i: int| Seq::<NodeIndex>::empty())
    } else {
        let prev = raw_layers(g, lo, count, k - 1);
        let l = g.node_seq()[k - 1];
        match l.rank {
            Some(r) => {
                let idx = r - lo;
                if 0 <= idx < count {
                    prev.update(idx, place(prev[idx], g.node_at(k - 1), l.order))
                } else {
                    prev
                }
            },
            None => prev,
        }
    }
}

/// Not a placeholder.
pub open spec fn is_real(v: NodeIndex) -> bool {
    v.which_graph != PLACEHOLDER_GRAPH_ID
}

/// The layer matrix of `g`: one layer per rank from the least to the
/// greatest, each holding its nodes by their order, without placeholders.
pub open spec fn layer_matrix(g: &Graph) -> Seq<Seq<NodeIndex>> {
    raw_layers(g, min_rank_spec(g), (max_rank_spec(g) - min_rank_spec(g) + 1) as nat, g.n() as int).map_values(
        |l: Seq<NodeIndex>| l.filter(|v: NodeIndex| is_real(v)),
    )
}

proof fn lemma_raw_layers_nodes(g: &Graph, lo: int, count: nat, k: int)
    requires
        0 <= k <= g.n(),
    ensures
        forall|a: int, i: int|
            0 <= a < raw_layers(g, lo, count, k).len() && 0 <= i < raw_layers(g, lo, count, k)[a].len() && is_real(
                #[trigger] raw_layers(g, lo, count, k)[a][i],
            ) ==> g.contains_node(raw_layers(g, lo, count, k)[a][i]),
    decreases k,
{
    if k > 0 {
        lemma_raw_layers_nodes(g, lo, count, k - 1);
        lemma_raw_layers_len(g, lo, count, k - 1);
        let prev = raw_layers(g, lo, count, k - 1);
        let l = g.node_seq()[k - 1];
        let v = g.node_at(k - 1);
        match l.rank {
            Some(r) => {
                let idx = r - lo;
                if 0 <= idx < count {
                    let nl = place(prev[idx], v, l.order);
                    assert(forall|i: int| 0 <= i < prev[idx].len() && is_real(#[trigger] prev[idx][i]) ==> g.contains_node(prev[idx][i]));
                    assert(g.contains_node(v));
                    assert forall|i: int| 0 <= i < nl.len() && is_real(#[trigger] nl[i]) implies g.contains_node(nl[i]) by {
                        match l.order {
                            Some(o) => {
                                let pd = pad(prev[idx], o + 1);
                                if i != o {
                                    assert(nl[i] == pd[i]);
                                    if i < prev[idx].len() {
                                        assert(pd[i] == prev[idx][i]);
                                    } else {
                                        assert(pd[i] == placeholder());
                                    }
                                }
                            },
                            None => {
                                if i < prev[idx].len() {
                                    assert(nl[i] == prev[idx][i]);
                                }
                            },
                        }
                    }
                    assert forall|a: int, i: int|
                        0 <= a < raw_layers(g, lo, count, k).len() && 0 <= i < raw_layers(g, lo, count, k)[a].len()
                            && is_real(#[trigger] raw_layers(g, lo, count, k)[a][i]) implies g.contains_node(
                        raw_layers(g, lo, count, k)[a][i],
                    ) by {
                        if a == idx {
                            assert(raw_layers(g, lo, count, k)[a] == nl);
                        } else {
                            assert(raw_layers(g, lo, count, k)[a] == prev[a]);
                        }
                    }
                }
            },
            None => {},
        }
    }
}

proof fn lemma_filter_real_from(s: Seq<NodeIndex>, f: Seq<NodeIndex>, g: &Graph)
    requires
        f == s.filter(|v: NodeIndex| is_real(v)),
        forall|i: int| 0 <= i < s.len() && is_real(#[trigger] s[i]) ==> g.contains_node(s[i]),
    ensures
        forall|i: int| 0 <= i < f.len() ==> g.contains_node(#[trigger] f[i]),
    decreases s.len(),
{
    reveal(Seq::filter);
    if s.len() > 0 {
        let d = s.drop_last();
        assert forall|i: int| 0 <= i < d.len() && is_real(#[trigger] d[i]) implies g.contains_node(d[i]) by {
            assert(d[i] == s[i]);
        }
        let fd = d.filter(|v: NodeIndex| is_real(v));
        lemma_filter_real_from(d, fd, g);
        assert forall|i: int| 0 <= i < f.len() implies g.contains_node(#[trigger] f[i]) by {
            if i < fd.len() {
                assert(f[i] == fd[i]);
            } else {
                assert(f[i] == s.last());
                assert(is_real(s[s.len() - 1]));
            }
        }
    }
}

/// Every node in the layer matrix of `g` is a node of `g`.
pub proof fn lemma_layer_matrix_nodes(g: &Graph)
    ensures
        forall|a: int, i: int|
            0 <= a < layer_matrix(g).len() && 0 <= i < layer_matrix(g)[a].len() ==> g.contains_node(
                #[trigger] layer_matrix(g)[a][i],
            ),
{
    let lo = min_rank_spec(g);
    let count = (max_rank_spec(g) - min_rank_spec(g) + 1) as nat;
    let raw = raw_layers(g, lo, count, g.n() as int);
    lemma_raw_layers_nodes(g, lo, count, g.n() as int);
    assert forall|a: int, i: int| 0 <= a < layer_matrix(g).len() && 0 <= i < layer_matrix(g)[a].len() implies g.contains_node(
        #[trigger] layer_matrix(g)[a][i],
    ) by {
        assert forall|j: int| 0 <= j < raw[a].len() && is_real(#[trigger] raw[a][j]) implies g.contains_node(raw[a][j]) by {
            assert(is_real(raw[a][j]));
        }
        lemma_filter_real_from(raw[a], layer_matrix(g)[a], g);
        assert(layer_matrix(g)[a] == raw[a].filter(|v: NodeIndex| is_real(v)));
    }
}

/// The difference of any two ranks is below `i32::MAX`.
pub open spec fn rank_spread_below(g: &Graph) -> bool {
    forall|i: int, j: int|
        0 <= i < g.n() && 0 <= j < g.n() && (#[trigger] g.node_seq()[i]).rank is Some
            && (#[trigger] g.node_seq()[j]).rank is Some ==> g.node_seq()[i].rank->0
            - g.node_seq()[j].rank->0 < i32::MAX
}

proof fn lemma_raw_layers_len(g: &Graph, lo: int, count: nat, k: int)
    ensures
        raw_layers(g, lo, count, k).len() == count,
    decreases k,
{
    if k > 0 {
        lemma_raw_layers_len(g, lo, count, k - 1);
    }
}

/// The nodes with a rank, layer by layer from the least rank to the
/// greatest. Within a layer a node with an `order` takes that slot (a later
/// node with the same order replaces it) and a node without one is
/// appended; slots nobody took are dropped.
pub fn build_layer_matrix(graph: &Graph) -> (r: Vec<Vec<NodeIndex>>)
    requires
        rank_spread_below(graph),
        forall|i: int| 0 <= i < graph.n() ==> ((#[trigger] graph.node_seq()[i]).order matches Some(o) ==> o < usize::MAX),
    ensures
        r@.len() == layer_matrix(graph).len(),
        r@.len() == max_rank_spec(graph) - min_rank_spec(graph) + 1,
        r@.len() <= i32::MAX,
        forall|i: int| 0 <= i < r@.len() ==> (#[trigger] r@[i])@ == layer_matrix(graph)[i],
{
    let min_rank = min_rank(graph);
    let max_rank = max_rank(graph);
    proof {
        lemma_min_rank_spec(graph, min_rank as int);
        lemma_max_rank_spec(graph, max_rank as int);
        if has_ranked(graph) {
            let i = choose|i: int| 0 <= i < graph.n() && (#[trigger] graph.node_seq()[i]).rank is Some && graph.node_seq()[i].rank->0 == max_rank;
            let j = choose|j: int| 0 <= j < graph.n() && (#[trigger] graph.node_seq()[j]).rank is Some && graph.node_seq()[j].rank->0 == min_rank;
        }
    }
    let rank_count = (max_rank - min_rank + 1) as usize;
    let ghost count = rank_count as nat;
    let ghost lo = min_rank as int;
    let mut layering: Vec<Vec<NodeIndex>> = Vec::new();
    let mut c: usize = 0;
    while c < rank_count
        invariant
            c <= rank_count,
            layering@.len() == c,
            forall|i: int| 0 <= i < c ==> (#[trigger] layering@[i])@ == Seq::<NodeIndex>::empty(),
        decreases rank_count - c,
    {
        layering.push(Vec::new());
        c += 1;
    }
    let n = graph.node_count();
    let id = graph.graph_id();
    let mut k: usize = 0;
    while k < n
        invariant
            n == graph.n(),
            id == graph.id(),
            k <= n,
            count == rank_count,
            lo == min_rank,
            layering@.len() == count,
            forall|i: int| 0 <= i < count ==> (#[trigger] layering@[i])@ == raw_layers(graph, lo, count, k as int)[i],
            forall|i: int| 0 <= i < graph.n() ==> ((#[trigger] graph.node_seq()[i]).order matches Some(o) ==> o < usize::MAX),
            has_ranked(graph) ==> is_min_rank(graph, min_rank as int) && is_max_rank(graph, max_rank as int),
            !has_ranked(graph) ==> min_rank == 0 && max_rank == 0,
            rank_spread_below(graph),
            count == max_rank - min_rank + 1,
        decreases n - k,
    {
        let v = NodeIndex { node_index: k, which_graph: id };
        let ghost prev = raw_layers(graph, lo, count, k as int);
        let ghost lab = graph.node_seq()[k as int];
        proof {
            lemma_raw_layers_len(graph, lo, count, k as int);
            assert(graph.node_at(k as int) == v);
            if lab.rank is Some {
                assert(min_rank <= lab.rank->0 <= max_rank);
            }
        }
        if let Some(label) = graph.node_label(v) {
            if let Some(rank) = label.rank {
                proof {
                    assert(graph.node_seq()[k as int].rank is Some);
                }
                let adjusted = rank - min_rank;
                let adjusted_rank = adjusted as usize;
                if adjusted_rank < layering.len() {
                    let mut layer = layering[adjusted_rank].clone();
                    let ghost before = layer@;
                    assert(before == raw_layers(graph, lo, count, k as int)[adjusted_rank as int]);
                    match label.order {
                        Some(order) => {
                            while layer.len() <= order
                                invariant
                                    order < usize::MAX,
                                    layer@ == pad(before, layer@.len() as int),
                                    before.len() <= layer@.len(),
                                    layer@.len() <= order + 1 || layer@ == before,
                                decreases order + 1 - layer@.len(),
                            {
                                let filler = NodeIndex::new_raw(usize::MAX, PLACEHOLDER_GRAPH_ID);
                                proof {
                                    assert(pad(before, layer@.len() + 1 as int) =~= pad(before, layer@.len() as int).push(placeholder()));
                                }
                                layer.push(filler);
                            }
                            proof {
                                assert(pad(before, order + 1) =~= layer@);
                            }
                            layer.set(order, v);
                        },
                        None => {
                            layer.push(v);
                        },
                    }
                    proof {
                        assert(layer@ == place(before, v, label.order));
                    }
                    layering.set(adjusted_rank, layer);
                }
            }
        }
        proof {
            lemma_raw_layers_len(graph, lo, count, k + 1);
            let nxt = raw_layers(graph, lo, count, k + 1);
            match lab.rank {
                Some(r) => {
                    let idx = r - lo;
                    assert(nxt == prev.update(idx, place(prev[idx], v, lab.order)));
                    assert forall|i: int| 0 <= i < count implies (#[trigger] layering@[i])@ == nxt[i] by {}
                },
                None => {
                    assert(nxt == prev);
                },
            }
        }
        k += 1;
    }
    let mut result: Vec<Vec<NodeIndex>> = Vec::new();
    let mut c: usize = 0;
    while c < rank_count
        invariant
            c <= rank_count,
            count == rank_count,
            lo == min_rank,
            layering@.len() == count,
            forall|i: int| 0 <= i < count ==> (#[trigger] layering@[i])@ == raw_layers(graph, lo, count, graph.n() as int)[i],
            result@.len() == c,
            forall|i: int| 0 <= i < c ==> (#[trigger] result@[i])@ == raw_layers(graph, lo, count, graph.n() as int)[i].filter(
                |v: NodeIndex| is_real(v),
            ),
        decreases rank_count - c,
    {
        let layer = &layering[c];
        let mut kept: Vec<NodeIndex> = Vec::new();
        let mut j: usize = 0;
        while j < layer.len()
            invariant
                j <= layer@.len(),
                kept@ == layer@.take(j as int).filter(|v: NodeIndex| is_real(v)),
            decreases layer@.len() - j,
        {
            let w = layer[j];
            proof {
                assert(layer@.take(j + 1) =~= layer@.take(j as int).push(w));
                layer@.take(j as int).lemma_filter_push(w, |v: NodeIndex| is_real(v));
            }
            if !is_placeholder(w) {
                kept.push(w);
            }
            j += 1;
        }
        proof {
            assert(layer@.take(layer@.len() as int) =~= layer@);
        }
        result.push(kept);
        c += 1;
    }
    proof {
        lemma_raw_layers_len(graph, lo, count, graph.n() as int);
        assert(min_rank_spec(graph) == lo);
    }
    result
}

/// Rank `r` is a layer index in `0..=max` whose layer holds some node.
pub open spec fn kept_rank(layers: Seq<Seq<NodeIndex>>, max: int, r: int) -> bool {
    0 <= r <= max && r < layers.len() && layers[r].len() > 0
}

/// How many ranks below `r` are kept.
pub open spec fn kept_below(layers: Seq<Seq<NodeIndex>>, max: int, r: int) -> int
    decreases r,
{
    if r <= 0 {
        0
    } else {
        kept_below(layers, max, r - 1) + if kept_rank(layers, max, r - 1) { 1int } else { 0 }
    }
}

proof fn lemma_kept_below_bounds(layers: Seq<Seq<NodeIndex>>, max: int, r: int)
    requires
        0 <= r,
    ensures
        0 <= kept_below(layers, max, r) <= r,
        kept_below(layers, max, r) <= layers.len(),
    decreases r,
{
    if r > 0 {
        lemma_kept_below_bounds(layers, max, r - 1);
        if kept_rank(layers, max, r - 1) {
            assert(r - 1 < layers.len());
        }
    }
}

/// The rank that `remove_empty_ranks` gives a node of rank `x`.
pub open spec fn compacted(layers: Seq<Seq<NodeIndex>>, max: int, x: i32) -> i32 {
    if kept_rank(layers, max, x as int) {
        kept_below(layers, max, x as int) as i32
    } else {
        x
    }
}

/// Closes the gaps between ranks: a rank `r` in `0..=max_rank` whose layer
/// in the layer matrix (read as starting at rank 0) holds a node becomes the
/// number of such ranks below it; other ranks stay.
pub fn remove_empty_ranks(graph: &mut Graph)
    requires
        rank_spread_below(old(graph)),
        forall|i: int| 0 <= i < old(graph).n() ==> ((#[trigger] old(graph).node_seq()[i]).order matches Some(o) ==> o < usize::MAX),
    ensures
        final(graph).n() == old(graph).n(),
        final(graph).entries() == old(graph).entries(),
        final(graph).id() == old(graph).id(),
        final(graph).config_spec() == old(graph).config_spec(),
        forall|i: int|
            0 <= i < old(graph).n() ==> #[trigger] final(graph).node_seq()[i] == (NodeLabel {
                rank: match old(graph).node_seq()[i].rank {
                    Some(x) => Some(compacted(layer_matrix(old(graph)), max_rank_spec(old(graph)), x)),
                    None => None,
                },
                ..old(graph).node_seq()[i]
            }),
{
    let layers = build_layer_matrix(graph);
    let max = max_rank(graph);
    let ghost g0 = *graph;
    let ghost lm = layer_matrix(&g0);
    proof {
        lemma_max_rank_spec(&g0, max as int);
        assert(lm.len() <= i32::MAX);
    }
    // the new rank of every kept rank, indexed by rank
    let mut shift: Vec<Option<i32>> = Vec::new();
    let mut current: i32 = 0;
    let mut r: i64 = 0;
    while r <= max as i64
        invariant
            0 <= r,
            r <= max + 1 || max < 0,
            max < 0 ==> r == 0,
            layers@.len() == lm.len(),
            lm.len() <= i32::MAX,
            forall|i: int| 0 <= i < layers@.len() ==> (#[trigger] layers@[i])@ == lm[i],
            shift@.len() == r,
            current == kept_below(lm, max as int, r as int),
            forall|j: int| 0 <= j < r ==> #[trigger] shift@[j] == if kept_rank(lm, max as int, j) {
                Some(kept_below(lm, max as int, j) as i32)
            } else {
                None::<i32>
            },
        decreases max + 1 - r,
    {
        proof {
            lemma_kept_below_bounds(lm, max as int, r as int);
            lemma_kept_below_bounds(lm, max as int, r + 1);
        }
        let ru = r as usize;
        if ru < layers.len() && layers[ru].len() > 0 {
            proof {
                assert(kept_rank(lm, max as int, r as int));
            }
            shift.push(Some(current));
            current += 1;
        } else {
            proof {
                assert(!kept_rank(lm, max as int, r as int));
            }
            shift.push(None);
        }
        r += 1;
    }
    let n = graph.node_count();
    let gid = graph.graph_id();
    let mut i: usize = 0;
    while i < n
        invariant
            n == g0.n(),
            i <= n,
            gid == g0.id(),
            lm == layer_matrix(&g0),
            max == max_rank_spec(&g0),
            shift@.len() == if max < 0 { 0 } else { max + 1 },
            forall|j: int| 0 <= j < shift@.len() ==> #[trigger] shift@[j] == if kept_rank(lm, max as int, j) {
                Some(kept_below(lm, max as int, j) as i32)
            } else {
                None::<i32>
            },
            graph.n() == g0.n(),
            graph.entries() == g0.entries(),
            graph.id() == g0.id(),
            graph.config_spec() == g0.config_spec(),
            forall|k: int|
                0 <= k < n ==> #[trigger] graph.node_seq()[k] == if k < i {
                    NodeLabel {
                        rank: match g0.node_seq()[k].rank {
                            Some(x) => Some(compacted(lm, max as int, x)),
                            None => None,
                        },
                        ..g0.node_seq()[k]
                    }
                } else {
                    g0.node_seq()[k]
                },
        decreases n - i,
    {
        let v = NodeIndex { node_index: i, which_graph: gid };
        let label = graph.node_label_mut(v).unwrap();
        if let Some(x) = label.rank {
            if 0 <= x && (x as usize) < shift.len() {
                if let Some(new_rank) = shift[x as usize] {
                    label.rank = Some(new_rank);
                }
            } else {
                proof {
                    assert(!kept_rank(lm, max as int, x as int));
                }
            }
        }
        i += 1;
    }
}

/// Runs `f` and returns its result; its running time is measured for
/// debugging.
pub fn time<F, R>(name: &str, f: F) -> (r: R)
    where
        F: FnOnce() -> R,
    requires
        f.requires(()),
    ensures
        f.ensures((), r),
{
    let timer = Timer::new();
    let result = f();
    let _elapsed = timer.elapsed();
    result
}

/// Runs `f` and returns its result, without measuring.
pub fn no_time<F, R>(_name: &str, f: F) -> (r: R)
    where
        F: FnOnce() -> R,
    requires
        f.requires(()),
    ensures
        f.ensures((), r),
{
    f()
}

#[verifier::external_type_specification]
#[verifier::external_body]
pub struct ExInstant(Instant);

/// Measures elapsed wall-clock time.
pub struct Timer {
    start: Instant,
}

impl Timer {
    /// Starts a timer (`Instant::now`; nothing is known of the instant).
    #[verifier::external_body]
    pub fn new() -> Timer {
        Timer { start: Instant::now() }
    }

    /// The time since the timer started (`Instant::elapsed`; nothing is
    /// known of the duration).
    #[verifier::external_body]
    pub fn elapsed(&self) -> Duration {
        self.start.elapsed()
    }
}


/// Adds a dummy node with `label`, marked as the kind of dummy that
/// `dummy_type` names (a long-edge dummy when it names none); returns
/// `prefix` followed by the number of nodes the graph had before, in
/// decimal.
pub fn add_dummy_node(graph: &mut Graph, dummy_type: &str, label: NodeLabel, prefix: &str) -> (r: String)
    requires
        old(graph).wf(),
        old(graph).n() < usize::MAX,
    ensures
        r@ == prefix@ + crate::acyclic::decimal(old(graph).n()),
        final(graph).wf(),
        final(graph).node_seq() == old(graph).node_seq().push(
            NodeLabel {
                dummy: Some(
                    match dummy_named(dummy_type@) {
                        Some(k) => k,
                        None => Dummy::Edge,
                    },
                ),
                ..label
            },
        ),
        final(graph).entries() == old(graph).entries(),
        final(graph).id() == old(graph).id(),
        final(graph).config_spec() == old(graph).config_spec(),
        final(graph).parallel_edges() == old(graph).parallel_edges(),
        final(graph).dummy_heads() == old(graph).dummy_heads(),
{
    let digits = crate::acyclic::decimal_string(graph.node_count());
    let mut id = String::from_str(prefix);
    id.append(digits.as_str());
    let mut dummy_label = label;
    dummy_label.dummy = Some(
        match Dummy::from_name(dummy_type) {
            Some(k) => k,
            None => Dummy::Edge,
        },
    );
    graph.add_node(dummy_label);
    id
}

} // verus!
