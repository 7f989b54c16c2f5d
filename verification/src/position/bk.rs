//! Brandes-Köpf horizontal coordinate assignment: its combinatorial part.
//!
//! The layering, the type-1 and type-2 conflicts between segments, and the
//! vertical alignment of nodes into blocks are computed here; compacting
//! the blocks into coordinates is left to the caller.
use vstd::prelude::*;
use indexmap::IndexMap;
use crate::graph::{Graph, lemma_incident_index};
use crate::index_map::{
    conflict_entries, conflict_map_contains_key, conflict_map_insert, conflict_map_new, entry_map,
    has_key, inserted, keys_unique, lemma_inserted,
};
use crate::order::assign::{layer_of_rank, rank_layer, stably_ordered};
use crate::position::align::{
    align_vertically, aligned_by_median, layer_seqs, layering_of_graph, layers_keys, pos_layers, proper_for_alignment,
    vertical_alignment_spec, Alignment,
};
use crate::types::{Dummy, Edge, NodeIndex};
use crate::util::{is_placeholder, max_rank, min_rank, max_rank_spec, min_rank_spec, lemma_max_rank_spec, lemma_min_rank_spec};

verus! {

/// How many crossings an edge takes part in.
#[derive(Debug, Clone, Copy)]
pub struct EdgeCrossing {
    pub edge: Edge,
    pub crossings: usize,
}

/// The kinds of conflict between inner and other segments.
#[derive(Debug, Clone, Copy, PartialEq, Eq, Structural)]
pub enum ConflictType {
    Type1,
    Type2,
}

/// The four alignments, by vertical and horizontal direction.
#[derive(Debug, Clone, Copy, PartialEq, Eq, Structural)]
pub enum AlignmentDirection {
    UpLeft,
    UpRight,
    DownLeft,
    DownRight,
}

/// `v` marks an unused slot of a layer.
pub open spec fn ph(v: NodeIndex) -> bool {
    v.which_graph == crate::util::PLACEHOLDER_GRAPH_ID
}

/// The order of `v`, if `v` is a node with one.
pub open spec fn order_of(g: &Graph, v: NodeIndex) -> Option<usize> {
    if g.contains_node(v) {
        g.label_of(v).order
    } else {
        None
    }
}

/// The order of `v` as a number, `d` when it has none.
pub open spec fn order_or(g: &Graph, v: NodeIndex, d: int) -> int {
    match order_of(g, v) {
        Some(o) => o as int,
        None => d,
    }
}

/// `v` is a dummy node of `g`.
pub open spec fn is_dummy(g: &Graph, v: NodeIndex) -> bool {
    !ph(v) && g.contains_node(v) && g.label_of(v).dummy is Some
}

/// `v` is a border node of `g`.
pub open spec fn is_border(g: &Graph, v: NodeIndex) -> bool {
    !ph(v) && g.contains_node(v) && g.label_of(v).dummy == Some(Dummy::Border)
}

/// The sources of the edges entering `v`, most recent edge first.
pub open spec fn preds(g: &Graph, v: NodeIndex) -> Seq<NodeIndex> {
    g.in_edges_spec(v).map_values(|e: Edge| e.source)
}

/// The first dummy node in `s`.
pub open spec fn first_dummy(g: &Graph, s: Seq<NodeIndex>) -> Option<NodeIndex>
    decreases s.len(),
{
    if s.len() == 0 {
        None
    } else if is_dummy(g, s[0]) {
        Some(s[0])
    } else {
        first_dummy(g, s.drop_first())
    }
}

/// For a dummy node, its first dummy predecessor: the other end of the
/// inner segment it ends.
pub open spec fn other_inner(g: &Graph, v: NodeIndex) -> Option<NodeIndex> {
    if is_dummy(g, v) {
        first_dummy(g, preds(g, v))
    } else {
        None
    }
}

/// The key a conflict between `v` and `w` is stored under: the one of
/// smaller position first.
pub open spec fn conflict_key(v: NodeIndex, w: NodeIndex) -> (NodeIndex, NodeIndex) {
    if v.node_index > w.node_index {
        (w, v)
    } else {
        (v, w)
    }
}

/// The map that sends every key of `keys` to `t`.
pub open spec fn tagged(keys: Set<(NodeIndex, NodeIndex)>, t: ConflictType) -> Map<(NodeIndex, NodeIndex), ConflictType> {
    Map::new(|k: (NodeIndex, NodeIndex)| keys.contains(k), |k: (NodeIndex, NodeIndex)| t)
}

/// Every node of `layer` but the placeholders belongs to `g`.
pub open spec fn layer_in(g: &Graph, layer: Seq<NodeIndex>) -> bool {
    forall|k: int| 0 <= k < layer.len() && !ph(#[trigger] layer[k]) ==> g.contains_node(layer[k])
}

/// Every node of `layer` but the placeholders carries the id of `g`.
pub open spec fn layer_of_graph(g: &Graph, layer: Seq<NodeIndex>) -> bool {
    forall|k: int| 0 <= k < layer.len() && !ph(#[trigger] layer[k]) ==> layer[k].which_graph == g.id()
}

/// The predecessors of a node of a well-formed graph are its nodes.
pub proof fn lemma_preds_in(g: &Graph, v: NodeIndex, q: int)
    requires
        g.wf(),
        0 <= q < preds(g, v).len(),
    ensures
        g.contains_node(preds(g, v)[q]),
{
    lemma_incident_index(g.entries(), v, false, q);
    let i = choose|i: int| 0 <= i < g.entries().len() && #[trigger] g.entries()[i].0 == g.in_edges_spec(v)[q];
    assert(g.contains_node(g.entries()[i].0.source));
}

/// The order of `v`, if `v` is a node with one.
fn node_order(graph: &Graph, v: NodeIndex) -> (r: Option<usize>)
    requires
        v.which_graph == graph.id(),
    ensures
        r == order_of(graph, v),
{
    match graph.node_label(v) {
        Some(l) => l.order,
        None => None,
    }
}

/// Whether `v` is a dummy node.
fn node_is_dummy(graph: &Graph, v: NodeIndex) -> (r: bool)
    requires
        !ph(v) ==> v.which_graph == graph.id(),
    ensures
        r == is_dummy(graph, v),
{
    if is_placeholder(v) {
        return false;
    }
    match graph.node_label(v) {
        Some(l) => l.dummy.is_some(),
        None => false,
    }
}

/// Whether `v` is a border node.
fn node_is_border(graph: &Graph, v: NodeIndex) -> (r: bool)
    requires
        !ph(v) ==> v.which_graph == graph.id(),
    ensures
        r == is_border(graph, v),
{
    if is_placeholder(v) {
        return false;
    }
    match graph.node_label(v) {
        Some(l) => match l.dummy {
            Some(Dummy::Border) => true,
            _ => false,
        },
        None => false,
    }
}

/// For a dummy node, its first dummy predecessor.
fn other_inner_node(graph: &Graph, v: NodeIndex) -> (r: Option<NodeIndex>)
    requires
        graph.wf(),
        !ph(v) ==> v.which_graph == graph.id(),
    ensures
        r == other_inner(graph, v),
        r matches Some(w) ==> graph.contains_node(w),
{
    if !node_is_dummy(graph, v) {
        return None;
    }
    let ps = graph.predecessors(v);
    let ghost s = ps@;
    proof {
        assert(s.skip(0) =~= s);
    }
    let mut i: usize = 0;
    while i < ps.len()
        invariant
            graph.wf(),
            s == ps@,
            s == preds(graph, v),
            is_dummy(graph, v),
            i <= s.len(),
            first_dummy(graph, s) == first_dummy(graph, s.skip(i as int)),
        decreases s.len() - i,
    {
        let u = ps[i];
        proof {
            lemma_preds_in(graph, v, i as int);
            assert(s.skip(i as int)[0] == u);
            assert(s.skip(i as int).drop_first() =~= s.skip(i + 1));
        }
        if node_is_dummy(graph, u) {
            proof {
                assert(first_dummy(graph, s.skip(i as int)) == Some(u));
            }
            return Some(u);
        }
        i += 1;
    }
    proof {
        assert(s.skip(i as int).len() == 0);
    }
    None
}

/// Position `i` of `layer` closes a scan: a real node that ends an inner
/// segment, or the last node of the layer.
pub open spec fn is_cut(g: &Graph, layer: Seq<NodeIndex>, i: int) -> bool {
    !ph(layer[i]) && (other_inner(g, layer[i]) is Some || layer[i] == layer.last())
}

/// The bound a closing node sets on the positions in the layer above:
/// the order of the other end of its inner segment, `prev_len` when it
/// ends none or that end has no order.
pub open spec fn cut_bound(g: &Graph, prev_len: int, v: NodeIndex) -> int {
    match other_inner(g, v) {
        Some(w) => order_or(g, w, prev_len),
        None => prev_len,
    }
}

/// The first closing position at or after `j` (the length when none).
pub open spec fn next_cut(g: &Graph, layer: Seq<NodeIndex>, j: int) -> int
    decreases layer.len() - j,
{
    if j < 0 || j >= layer.len() {
        layer.len() as int
    } else if is_cut(g, layer, j) {
        j
    } else {
        next_cut(g, layer, j + 1)
    }
}

/// The last closing position before `j` (-1 when none).
pub open spec fn prev_cut(g: &Graph, layer: Seq<NodeIndex>, j: int) -> int
    decreases j,
{
    if j <= 0 {
        -1
    } else if is_cut(g, layer, j - 1) {
        j - 1
    } else {
        prev_cut(g, layer, j - 1)
    }
}

/// The lower bound in force at position `j`: the bound set by the last
/// closing position before it, 0 when there is none.
pub open spec fn low_bound(g: &Graph, prev_len: int, layer: Seq<NodeIndex>, j: int) -> int {
    let p = prev_cut(g, layer, j);
    if p < 0 {
        0
    } else {
        cut_bound(g, prev_len, layer[p])
    }
}

/// The edge from the `q`-th predecessor of the node at position `j` is a
/// type-1 conflict: the node is followed by a closing position, and the
/// predecessor lies outside the bounds in force there, unless both ends
/// are dummies.
pub open spec fn type1_at(g: &Graph, prev_len: int, layer: Seq<NodeIndex>, j: int, q: int) -> bool {
    &&& 0 <= j < layer.len()
    &&& !ph(layer[j])
    &&& next_cut(g, layer, j) < layer.len()
    &&& 0 <= q < preds(g, layer[j]).len()
    &&& !ph(preds(g, layer[j])[q])
    &&& {
        let u = preds(g, layer[j])[q];
        let up = order_or(g, u, 0);
        (up < low_bound(g, prev_len, layer, j) || cut_bound(g, prev_len, layer[next_cut(g, layer, j)]) < up)
            && !(is_dummy(g, u) && is_dummy(g, layer[j]))
    }
}

/// The key of the conflict between the node at position `j` and its
/// `q`-th predecessor.
pub open spec fn type1_key(g: &Graph, layer: Seq<NodeIndex>, j: int, q: int) -> (NodeIndex, NodeIndex) {
    conflict_key(preds(g, layer[j])[q], layer[j])
}

/// The keys of the type-1 conflicts at positions before `m`, and at
/// position `m` with the predecessors before `qm`.
pub open spec fn type1_keys(g: &Graph, prev_len: int, layer: Seq<NodeIndex>, m: int, qm: int) -> Set<(NodeIndex, NodeIndex)> {
    Set::new(|k: (NodeIndex, NodeIndex)| exists|j: int, q: int|
        (j < m || (j == m && q < qm)) && #[trigger] type1_at(g, prev_len, layer, j, q) && k == type1_key(g, layer, j, q))
}

/// The keys of all type-1 conflicts between `layer` and the layer above it,
/// which has `prev_len` nodes.
pub open spec fn type1_conflicts(g: &Graph, prev_len: int, layer: Seq<NodeIndex>) -> Set<(NodeIndex, NodeIndex)> {
    type1_keys(g, prev_len, layer, layer.len() as int, 0)
}

/// The keys of the type-1 conflicts between layer `i` and layer `i - 1`,
/// for `1 <= i < m`.
pub open spec fn all_type1(g: &Graph, layers: Seq<Seq<NodeIndex>>, m: int) -> Set<(NodeIndex, NodeIndex)> {
    Set::new(|k: (NodeIndex, NodeIndex)| exists|i: int|
        1 <= i < m && i < layers.len() && #[trigger] type1_conflicts(g, layers[i - 1].len() as int, layers[i]).contains(k))
}

proof fn lemma_next_cut_at(g: &Graph, layer: Seq<NodeIndex>, j: int, i: int)
    requires
        0 <= j <= i < layer.len(),
        is_cut(g, layer, i),
        forall|t: int| j <= t < i ==> !is_cut(g, layer, t),
    ensures
        next_cut(g, layer, j) == i,
    decreases i - j,
{
    if j < i {
        lemma_next_cut_at(g, layer, j + 1, i);
    }
}

proof fn lemma_next_cut_none(g: &Graph, layer: Seq<NodeIndex>, j: int)
    requires
        0 <= j <= layer.len(),
        forall|t: int| j <= t < layer.len() ==> !is_cut(g, layer, t),
    ensures
        next_cut(g, layer, j) == layer.len(),
    decreases layer.len() - j,
{
    if j < layer.len() {
        lemma_next_cut_none(g, layer, j + 1);
    }
}

proof fn lemma_prev_cut(g: &Graph, layer: Seq<NodeIndex>, p: int, j: int)
    requires
        -1 <= p < j <= layer.len(),
        p >= 0 ==> is_cut(g, layer, p),
        forall|t: int| p < t < j ==> !is_cut(g, layer, t),
    ensures
        prev_cut(g, layer, j) == p,
    decreases j,
{
    if j - 1 > p {
        lemma_prev_cut(g, layer, p, j - 1);
    }
}

proof fn lemma_type1_step(g: &Graph, pl: int, layer: Seq<NodeIndex>, m: int, q: int)
    ensures
        forall|k: (NodeIndex, NodeIndex)| #[trigger] type1_keys(g, pl, layer, m, q + 1).contains(k) <==> (type1_keys(g, pl, layer, m, q).contains(k)
            || (type1_at(g, pl, layer, m, q) && k == type1_key(g, layer, m, q))),
{
    assert forall|k: (NodeIndex, NodeIndex)| #[trigger] type1_keys(g, pl, layer, m, q + 1).contains(k) <==> (type1_keys(g, pl, layer, m, q).contains(k)
        || (type1_at(g, pl, layer, m, q) && k == type1_key(g, layer, m, q))) by {
        if type1_keys(g, pl, layer, m, q + 1).contains(k) {
            let (j, r) = choose|j: int, r: int|
                (j < m || (j == m && r < q + 1)) && #[trigger] type1_at(g, pl, layer, j, r) && k == type1_key(g, layer, j, r);
            if j < m || (j == m && r < q) {
                assert(type1_keys(g, pl, layer, m, q).contains(k));
            }
        }
        if type1_keys(g, pl, layer, m, q).contains(k) {
            let (j, r) = choose|j: int, r: int|
                (j < m || (j == m && r < q)) && #[trigger] type1_at(g, pl, layer, j, r) && k == type1_key(g, layer, j, r);
            assert(type1_keys(g, pl, layer, m, q + 1).contains(k));
        }
        if type1_at(g, pl, layer, m, q) && k == type1_key(g, layer, m, q) {
            assert(type1_keys(g, pl, layer, m, q + 1).contains(k));
        }
    }
}

proof fn lemma_type1_next(g: &Graph, pl: int, layer: Seq<NodeIndex>, m: int, qm: int)
    requires
        forall|q: int| q >= qm ==> !#[trigger] type1_at(g, pl, layer, m, q),
    ensures
        type1_keys(g, pl, layer, m, qm) == type1_keys(g, pl, layer, m + 1, 0),
{
    assert forall|k: (NodeIndex, NodeIndex)| #[trigger] type1_keys(g, pl, layer, m + 1, 0).contains(k) implies type1_keys(g, pl, layer, m, qm).contains(k) by {
        let (j, r) = choose|j: int, r: int|
            (j < m + 1 || (j == m + 1 && r < 0)) && #[trigger] type1_at(g, pl, layer, j, r) && k == type1_key(g, layer, j, r);
        if j == m {
            assert(r < qm);
        }
    }
    assert forall|k: (NodeIndex, NodeIndex)| #[trigger] type1_keys(g, pl, layer, m, qm).contains(k) implies type1_keys(g, pl, layer, m + 1, 0).contains(k) by {
        let (j, r) = choose|j: int, r: int|
            (j < m || (j == m && r < qm)) && #[trigger] type1_at(g, pl, layer, j, r) && k == type1_key(g, layer, j, r);
    }
    assert(type1_keys(g, pl, layer, m, qm) =~= type1_keys(g, pl, layer, m + 1, 0));
}

proof fn lemma_type1_tail(g: &Graph, pl: int, layer: Seq<NodeIndex>, m: int)
    requires
        0 <= m <= layer.len(),
        forall|j: int| m <= j < layer.len() ==> #[trigger] next_cut(g, layer, j) == layer.len(),
    ensures
        type1_keys(g, pl, layer, m, 0) == type1_conflicts(g, pl, layer),
{
    assert forall|k: (NodeIndex, NodeIndex)| #[trigger] type1_conflicts(g, pl, layer).contains(k) implies type1_keys(g, pl, layer, m, 0).contains(k) by {
        let (j, r) = choose|j: int, r: int|
            (j < layer.len() || (j == layer.len() && r < 0)) && #[trigger] type1_at(g, pl, layer, j, r) && k == type1_key(g, layer, j, r);
        if j >= m {
            assert(next_cut(g, layer, j) == layer.len());
        }
    }
    assert forall|k: (NodeIndex, NodeIndex)| #[trigger] type1_keys(g, pl, layer, m, 0).contains(k) implies type1_conflicts(g, pl, layer).contains(k) by {
        let (j, r) = choose|j: int, r: int|
            (j < m || (j == m && r < 0)) && #[trigger] type1_at(g, pl, layer, j, r) && k == type1_key(g, layer, j, r);
    }
    assert(type1_keys(g, pl, layer, m, 0) =~= type1_conflicts(g, pl, layer));
}

/// Adding one key of type `t` to a map built from `base` and the keys `s`.
proof fn lemma_tag_insert(
    base: Map<(NodeIndex, NodeIndex), ConflictType>,
    s: Set<(NodeIndex, NodeIndex)>,
    s2: Set<(NodeIndex, NodeIndex)>,
    k: (NodeIndex, NodeIndex),
    t: ConflictType,
)
    requires
        forall|x: (NodeIndex, NodeIndex)| #[trigger] s2.contains(x) <==> s.contains(x) || x == k,
    ensures
        base.union_prefer_right(tagged(s, t)).insert(k, t) == base.union_prefer_right(tagged(s2, t)),
{
    assert(base.union_prefer_right(tagged(s, t)).insert(k, t) =~= base.union_prefer_right(tagged(s2, t)));
}

/// Records the type-1 conflicts between `layer` and the layer above it,
/// which has `prev_len` nodes.
fn scan_type1(
    graph: &Graph,
    conflicts: &mut IndexMap<(NodeIndex, NodeIndex), ConflictType>,
    prev_len: usize,
    layer: &[NodeIndex],
)
    requires
        graph.wf(),
        layer_of_graph(graph, layer@),
        keys_unique(conflict_entries(*old(conflicts))),
    ensures
        keys_unique(conflict_entries(*final(conflicts))),
        entry_map(conflict_entries(*final(conflicts))) == entry_map(conflict_entries(*old(conflicts))).union_prefer_right(
            tagged(type1_conflicts(graph, prev_len as int, layer@), ConflictType::Type1),
        ),
{
    let ghost m0 = entry_map(conflict_entries(*conflicts));
    let ghost ly = layer@;
    let ghost pl = prev_len as int;
    let n = layer.len();
    let mut k0: usize = 0;
    let mut scan_pos: usize = 0;
    let mut i: usize = 0;
    proof {
        assert(type1_keys(graph, pl, ly, 0, 0) =~= Set::<(NodeIndex, NodeIndex)>::empty());
        assert(m0.union_prefer_right(tagged(type1_keys(graph, pl, ly, 0, 0), ConflictType::Type1)) =~= m0);
    }
    while i < n
        invariant
            graph.wf(),
            ly == layer@,
            layer_of_graph(graph, ly),
            pl == prev_len as int,
            n == ly.len(),
            scan_pos <= i <= n,
            forall|t: int| scan_pos <= t < i ==> !is_cut(graph, ly, t),
            scan_pos > 0 ==> is_cut(graph, ly, scan_pos - 1),
            k0 == (if scan_pos == 0 { 0 } else { cut_bound(graph, pl, ly[scan_pos - 1]) }),
            keys_unique(conflict_entries(*conflicts)),
            entry_map(conflict_entries(*conflicts)) == m0.union_prefer_right(
                tagged(type1_keys(graph, pl, ly, scan_pos as int, 0), ConflictType::Type1),
            ),
        decreases n - i,
    {
        let v = layer[i];
        if !is_placeholder(v) {
            let w = other_inner_node(graph, v);
            let k1: usize = match w {
                Some(x) => match node_order(graph, x) {
                    Some(o) => o,
                    None => prev_len,
                },
                None => prev_len,
            };
            if w.is_some() || v == layer[n - 1] {
                proof {
                    assert(is_cut(graph, ly, i as int));
                    assert forall|t: int| scan_pos <= t <= i implies #[trigger] next_cut(graph, ly, t) == i
                        && prev_cut(graph, ly, t) == scan_pos - 1 by {
                        lemma_next_cut_at(graph, ly, t, i as int);
                        lemma_prev_cut(graph, ly, scan_pos - 1, t);
                    }
                }
                let mut j: usize = scan_pos;
                while j <= i
                    invariant
                        graph.wf(),
                        ly == layer@,
                        layer_of_graph(graph, ly),
                        pl == prev_len as int,
                        n == ly.len(),
                        scan_pos <= j <= i + 1,
                        i < n,
                        forall|t: int| scan_pos <= t <= i ==> #[trigger] next_cut(graph, ly, t) == i
                            && prev_cut(graph, ly, t) == scan_pos - 1,
                        k0 == (if scan_pos == 0 { 0 } else { cut_bound(graph, pl, ly[scan_pos - 1]) }),
                        k1 == cut_bound(graph, pl, ly[i as int]),
                        keys_unique(conflict_entries(*conflicts)),
                        entry_map(conflict_entries(*conflicts)) == m0.union_prefer_right(
                            tagged(type1_keys(graph, pl, ly, j as int, 0), ConflictType::Type1),
                        ),
                    decreases i + 1 - j,
                {
                    let s = layer[j];
                    if !is_placeholder(s) {
                        let ps = graph.predecessors(s);
                        let sd = node_is_dummy(graph, s);
                        let mut q: usize = 0;
                        proof {
                            assert(next_cut(graph, ly, j as int) == i);
                            assert(low_bound(graph, pl, ly, j as int) == k0);
                        }
                        while q < ps.len()
                            invariant
                                graph.wf(),
                                ly == layer@,
                                pl == prev_len as int,
                                n == ly.len(),
                                j <= i < n,
                                s == ly[j as int],
                                !ph(s),
                                ps@ == preds(graph, s),
                                sd == is_dummy(graph, s),
                                next_cut(graph, ly, j as int) == i,
                                low_bound(graph, pl, ly, j as int) == k0,
                                k1 == cut_bound(graph, pl, ly[i as int]),
                                q <= ps@.len(),
                                keys_unique(conflict_entries(*conflicts)),
                                entry_map(conflict_entries(*conflicts)) == m0.union_prefer_right(
                                    tagged(type1_keys(graph, pl, ly, j as int, q as int), ConflictType::Type1),
                                ),
                            decreases ps@.len() - q,
                        {
                            let u = ps[q];
                            proof {
                                lemma_type1_step(graph, pl, ly, j as int, q as int);
                            }
                            if !is_placeholder(u) {
                                proof {
                                    lemma_preds_in(graph, s, q as int);
                                }
                                let up: usize = match node_order(graph, u) {
                                    Some(o) => o,
                                    None => 0,
                                };
                                let ud = node_is_dummy(graph, u);
                                if (up < k0 || k1 < up) && !(ud && sd) {
                                    proof {
                                        assert(type1_at(graph, pl, ly, j as int, q as int));
                                        lemma_tag_insert(
                                            m0,
                                            type1_keys(graph, pl, ly, j as int, q as int),
                                            type1_keys(graph, pl, ly, j as int, q + 1),
                                            conflict_key(u, s),
                                            ConflictType::Type1,
                                        );
                                    }
                                    record_conflict(conflicts, u, s, ConflictType::Type1);
                                } else {
                                    proof {
                                        assert(!type1_at(graph, pl, ly, j as int, q as int));
                                        assert(type1_keys(graph, pl, ly, j as int, q as int) =~= type1_keys(graph, pl, ly, j as int, q + 1));
                                    }
                                }
                            } else {
                                proof {
                                    assert(!type1_at(graph, pl, ly, j as int, q as int));
                                    assert(type1_keys(graph, pl, ly, j as int, q as int) =~= type1_keys(graph, pl, ly, j as int, q + 1));
                                }
                            }
                            q += 1;
                        }
                        proof {
                            lemma_type1_next(graph, pl, ly, j as int, q as int);
                        }
                    } else {
                        proof {
                            lemma_type1_next(graph, pl, ly, j as int, 0);
                        }
                    }
                    j += 1;
                }
                scan_pos = i + 1;
                k0 = k1;
            }
        }
        i += 1;
    }
    proof {
        assert forall|j: int| scan_pos <= j < n implies #[trigger] next_cut(graph, ly, j) == n by {
            lemma_next_cut_none(graph, ly, j);
        }
        lemma_type1_tail(graph, pl, ly, scan_pos as int);
    }
}

/// The order of `u` as `scan_type2` compares it: 0 when unset, cast to
/// `i32`.
pub open spec fn order_i32(g: &Graph, u: NodeIndex) -> i32 {
    (match order_of(g, u) {
        Some(o) => o,
        None => 0usize,
    }) as i32
}

/// The edge from the `q`-th predecessor of the node at position `i` of
/// `south` is a type-2 conflict of the scan of positions `a..b` between
/// the borders `prev` and `next`: both ends are dummies and the
/// predecessor lies outside the borders.
pub open spec fn type2_at(g: &Graph, south: Seq<NodeIndex>, a: int, b: int, prev: i32, next: i32, i: int, q: int) -> bool {
    &&& a <= i < b
    &&& 0 <= i < south.len()
    &&& is_dummy(g, south[i])
    &&& 0 <= q < preds(g, south[i]).len()
    &&& is_dummy(g, preds(g, south[i])[q])
    &&& (order_i32(g, preds(g, south[i])[q]) < prev || order_i32(g, preds(g, south[i])[q]) > next)
}

/// The keys of the type-2 conflicts of a scan, at positions before `m`
/// and at position `m` with the predecessors before `qm`.
pub open spec fn type2_keys(g: &Graph, south: Seq<NodeIndex>, a: int, b: int, prev: i32, next: i32, m: int, qm: int) -> Set<(NodeIndex, NodeIndex)> {
    Set::new(|k: (NodeIndex, NodeIndex)| exists|i: int, q: int|
        (i < m || (i == m && q < qm)) && #[trigger] type2_at(g, south, a, b, prev, next, i, q)
            && k == type1_key(g, south, i, q))
}

/// The keys of all type-2 conflicts of the scan of positions `a..b`.
pub open spec fn type2_scan(g: &Graph, south: Seq<NodeIndex>, a: int, b: int, prev: i32, next: i32) -> Set<(NodeIndex, NodeIndex)> {
    type2_keys(g, south, a, b, prev, next, b, 0)
}

proof fn lemma_type2_step(g: &Graph, south: Seq<NodeIndex>, a: int, b: int, prev: i32, next: i32, m: int, q: int)
    ensures
        forall|k: (NodeIndex, NodeIndex)| #[trigger] type2_keys(g, south, a, b, prev, next, m, q + 1).contains(k) <==> (
            type2_keys(g, south, a, b, prev, next, m, q).contains(k)
            || (type2_at(g, south, a, b, prev, next, m, q) && k == type1_key(g, south, m, q))),
{
    assert forall|k: (NodeIndex, NodeIndex)| #[trigger] type2_keys(g, south, a, b, prev, next, m, q + 1).contains(k) <==> (
        type2_keys(g, south, a, b, prev, next, m, q).contains(k)
        || (type2_at(g, south, a, b, prev, next, m, q) && k == type1_key(g, south, m, q))) by {
        if type2_keys(g, south, a, b, prev, next, m, q + 1).contains(k) {
            let (i, r) = choose|i: int, r: int|
                (i < m || (i == m && r < q + 1)) && #[trigger] type2_at(g, south, a, b, prev, next, i, r) && k == type1_key(g, south, i, r);
            if i < m || (i == m && r < q) {
                assert(type2_keys(g, south, a, b, prev, next, m, q).contains(k));
            }
        }
        if type2_keys(g, south, a, b, prev, next, m, q).contains(k) {
            let (i, r) = choose|i: int, r: int|
                (i < m || (i == m && r < q)) && #[trigger] type2_at(g, south, a, b, prev, next, i, r) && k == type1_key(g, south, i, r);
            assert(type2_keys(g, south, a, b, prev, next, m, q + 1).contains(k));
        }
        if type2_at(g, south, a, b, prev, next, m, q) && k == type1_key(g, south, m, q) {
            assert(type2_keys(g, south, a, b, prev, next, m, q + 1).contains(k));
        }
    }
}

proof fn lemma_type2_next(g: &Graph, south: Seq<NodeIndex>, a: int, b: int, prev: i32, next: i32, m: int, qm: int)
    requires
        forall|q: int| q >= qm ==> !#[trigger] type2_at(g, south, a, b, prev, next, m, q),
    ensures
        type2_keys(g, south, a, b, prev, next, m, qm) == type2_keys(g, south, a, b, prev, next, m + 1, 0),
{
    assert forall|k: (NodeIndex, NodeIndex)| #[trigger] type2_keys(g, south, a, b, prev, next, m + 1, 0).contains(k)
        implies type2_keys(g, south, a, b, prev, next, m, qm).contains(k) by {
        let (i, r) = choose|i: int, r: int|
            (i < m + 1 || (i == m + 1 && r < 0)) && #[trigger] type2_at(g, south, a, b, prev, next, i, r) && k == type1_key(g, south, i, r);
        if i == m {
            assert(r < qm);
        }
    }
    assert forall|k: (NodeIndex, NodeIndex)| #[trigger] type2_keys(g, south, a, b, prev, next, m, qm).contains(k)
        implies type2_keys(g, south, a, b, prev, next, m + 1, 0).contains(k) by {
        let (i, r) = choose|i: int, r: int|
            (i < m || (i == m && r < qm)) && #[trigger] type2_at(g, south, a, b, prev, next, i, r) && k == type1_key(g, south, i, r);
    }
    assert(type2_keys(g, south, a, b, prev, next, m, qm) =~= type2_keys(g, south, a, b, prev, next, m + 1, 0));
}

/// Records the type-2 conflicts of the scan of positions `a..b` of
/// `south`: edges between dummies whose upper end lies outside the
/// borders `prev..=next`.
fn scan_type2_in(
    graph: &Graph,
    conflicts: &mut IndexMap<(NodeIndex, NodeIndex), ConflictType>,
    south: &[NodeIndex],
    a: usize,
    b: usize,
    prev: i32,
    next: i32,
)
    requires
        graph.wf(),
        a >= b || b <= south@.len(),
        forall|k: int| a <= k < b && !ph(#[trigger] south@[k]) ==> south@[k].which_graph == graph.id(),
        keys_unique(conflict_entries(*old(conflicts))),
    ensures
        keys_unique(conflict_entries(*final(conflicts))),
        entry_map(conflict_entries(*final(conflicts))) == entry_map(conflict_entries(*old(conflicts))).union_prefer_right(
            tagged(type2_scan(graph, south@, a as int, b as int, prev, next), ConflictType::Type2),
        ),
{
    let ghost m0 = entry_map(conflict_entries(*conflicts));
    let ghost sv = south@;
    let mut i: usize = a;
    proof {
        assert(type2_keys(graph, sv, a as int, b as int, prev, next, a as int, 0) =~= Set::<(NodeIndex, NodeIndex)>::empty());
        assert(m0.union_prefer_right(tagged(type2_keys(graph, sv, a as int, b as int, prev, next, a as int, 0), ConflictType::Type2)) =~= m0);
    }
    while i < b
        invariant
            graph.wf(),
            sv == south@,
            a >= b || b <= sv.len(),
            forall|k: int| a <= k < b && !ph(#[trigger] sv[k]) ==> sv[k].which_graph == graph.id(),
            a <= i,
            i <= b || a >= b,
            keys_unique(conflict_entries(*conflicts)),
            entry_map(conflict_entries(*conflicts)) == m0.union_prefer_right(
                tagged(type2_keys(graph, sv, a as int, b as int, prev, next, i as int, 0), ConflictType::Type2),
            ),
        decreases b - i,
    {
        let v = south[i];
        if node_is_dummy(graph, v) {
            let ps = graph.predecessors(v);
            let mut q: usize = 0;
            while q < ps.len()
                invariant
                    graph.wf(),
                    sv == south@,
                    a <= i < b,
                    i < sv.len(),
                    v == sv[i as int],
                    is_dummy(graph, v),
                    ps@ == preds(graph, v),
                    q <= ps@.len(),
                    keys_unique(conflict_entries(*conflicts)),
                    entry_map(conflict_entries(*conflicts)) == m0.union_prefer_right(
                        tagged(type2_keys(graph, sv, a as int, b as int, prev, next, i as int, q as int), ConflictType::Type2),
                    ),
                decreases ps@.len() - q,
            {
                let u = ps[q];
                proof {
                    lemma_type2_step(graph, sv, a as int, b as int, prev, next, i as int, q as int);
                    lemma_preds_in(graph, v, q as int);
                }
                if node_is_dummy(graph, u) {
                    let uo: usize = match node_order(graph, u) {
                        Some(o) => o,
                        None => 0,
                    };
                    let u_order = uo as i32;
                    if u_order < prev || u_order > next {
                        proof {
                            assert(type2_at(graph, sv, a as int, b as int, prev, next, i as int, q as int));
                            lemma_tag_insert(
                                m0,
                                type2_keys(graph, sv, a as int, b as int, prev, next, i as int, q as int),
                                type2_keys(graph, sv, a as int, b as int, prev, next, i as int, q + 1),
                                conflict_key(u, v),
                                ConflictType::Type2,
                            );
                        }
                        record_conflict(conflicts, u, v, ConflictType::Type2);
                    } else {
                        proof {
                            assert(type2_keys(graph, sv, a as int, b as int, prev, next, i as int, q as int)
                                =~= type2_keys(graph, sv, a as int, b as int, prev, next, i as int, q + 1));
                        }
                    }
                } else {
                    proof {
                        assert(type2_keys(graph, sv, a as int, b as int, prev, next, i as int, q as int)
                            =~= type2_keys(graph, sv, a as int, b as int, prev, next, i as int, q + 1));
                    }
                }
                q += 1;
            }
            proof {
                lemma_type2_next(graph, sv, a as int, b as int, prev, next, i as int, q as int);
            }
        } else {
            proof {
                lemma_type2_next(graph, sv, a as int, b as int, prev, next, i as int, 0);
            }
        }
        i += 1;
    }
    proof {
        if a >= b {
            assert(type2_keys(graph, sv, a as int, b as int, prev, next, i as int, 0) =~= type2_scan(graph, sv, a as int, b as int, prev, next));
        }
    }
}


/// Position `i` of `south` holds a border node with a predecessor.
pub open spec fn is_border_cut(g: &Graph, south: Seq<NodeIndex>, i: int) -> bool {
    is_border(g, south[i]) && preds(g, south[i]).len() > 0
}

/// The order of the first predecessor of `v`, as `scan_type2` compares it.
pub open spec fn north_of(g: &Graph, v: NodeIndex) -> i32 {
    order_i32(g, preds(g, v)[0])
}

/// The last border position before `j` (-1 when none).
pub open spec fn last_border(g: &Graph, south: Seq<NodeIndex>, j: int) -> int
    decreases j,
{
    if j <= 0 {
        -1
    } else if is_border_cut(g, south, j - 1) {
        j - 1
    } else {
        last_border(g, south, j - 1)
    }
}

/// Where a scan starts after the border position `p`.
pub open spec fn scan_start(p: int) -> int {
    if p < 0 {
        0
    } else {
        p
    }
}

/// The upper border set by the border position `p`, `d` when none.
pub open spec fn north_at(g: &Graph, south: Seq<NodeIndex>, p: int, d: i32) -> i32 {
    if p < 0 {
        d
    } else {
        north_of(g, south[p])
    }
}

/// The keys of the type-2 conflicts found while visiting position `i` of
/// `south`: at a border node, the scan from the previous border to it;
/// then, at every real node, the scan from the last border to the end.
pub open spec fn type2_visit_at(g: &Graph, north_len: usize, south: Seq<NodeIndex>, i: int) -> Set<(NodeIndex, NodeIndex)> {
    if ph(south[i]) {
        Set::empty()
    } else {
        let p = last_border(g, south, i);
        let p2 = last_border(g, south, i + 1);
        let first = if is_border_cut(g, south, i) {
            type2_scan(g, south, scan_start(p), i, north_at(g, south, p, -1i32), north_of(g, south[i]))
        } else {
            Set::empty()
        };
        first.union(type2_scan(g, south, scan_start(p2), south.len() as int, north_at(g, south, p2, 0), north_len as i32))
    }
}

/// The keys of the type-2 conflicts found while visiting the positions
/// before `m`.
pub open spec fn type2_visit(g: &Graph, north_len: usize, south: Seq<NodeIndex>, m: int) -> Set<(NodeIndex, NodeIndex)> {
    Set::new(|k: (NodeIndex, NodeIndex)| exists|i: int| 0 <= i < m && i < south.len() && #[trigger] type2_visit_at(g, north_len, south, i).contains(k))
}

/// The keys of the type-2 conflicts between `south` and the layer above
/// it, which has `north_len` nodes.
pub open spec fn type2_conflicts(g: &Graph, north_len: usize, south: Seq<NodeIndex>) -> Set<(NodeIndex, NodeIndex)> {
    type2_visit(g, north_len, south, south.len() as int)
}

/// The keys of the type-2 conflicts between layer `i` and layer `i - 1`,
/// for `1 <= i < m`.
pub open spec fn all_type2(g: &Graph, layers: Seq<Seq<NodeIndex>>, m: int) -> Set<(NodeIndex, NodeIndex)> {
    Set::new(|k: (NodeIndex, NodeIndex)| exists|i: int|
        1 <= i < m && i < layers.len() && #[trigger] type2_conflicts(g, layers[i - 1].len() as usize, layers[i]).contains(k))
}

/// Records the type-2 conflicts between `south` and the layer above it,
/// which has `north_len` nodes.
fn visit_type2(
    graph: &Graph,
    conflicts: &mut IndexMap<(NodeIndex, NodeIndex), ConflictType>,
    north_len: usize,
    south: &[NodeIndex],
)
    requires
        graph.wf(),
        layer_of_graph(graph, south@),
        keys_unique(conflict_entries(*old(conflicts))),
    ensures
        keys_unique(conflict_entries(*final(conflicts))),
        entry_map(conflict_entries(*final(conflicts))) == entry_map(conflict_entries(*old(conflicts))).union_prefer_right(
            tagged(type2_conflicts(graph, north_len, south@), ConflictType::Type2),
        ),
{
    let ghost m0 = entry_map(conflict_entries(*conflicts));
    let ghost sv = south@;
    let n = south.len();
    let mut prev: i32 = -1;
    let mut next: i32 = 0;
    let mut sp: usize = 0;
    let mut i: usize = 0;
    proof {
        assert(type2_visit(graph, north_len, sv, 0) =~= Set::<(NodeIndex, NodeIndex)>::empty());
        assert(m0.union_prefer_right(tagged(type2_visit(graph, north_len, sv, 0), ConflictType::Type2)) =~= m0);
    }
    while i < n
        invariant
            graph.wf(),
            sv == south@,
            n == sv.len(),
            layer_of_graph(graph, sv),
            i <= n,
            sp as int == scan_start(last_border(graph, sv, i as int)),
            sp <= i,
            prev == north_at(graph, sv, last_border(graph, sv, i as int), -1i32),
            next == north_at(graph, sv, last_border(graph, sv, i as int), 0),
            keys_unique(conflict_entries(*conflicts)),
            entry_map(conflict_entries(*conflicts)) == m0.union_prefer_right(
                tagged(type2_visit(graph, north_len, sv, i as int), ConflictType::Type2),
            ),
        decreases n - i,
    {
        let v = south[i];
        let ghost before = type2_visit(graph, north_len, sv, i as int);
        if !is_placeholder(v) {
            let ghost p = last_border(graph, sv, i as int);
            let ghost first: Set<(NodeIndex, NodeIndex)> = Set::empty();
            if node_is_border(graph, v) {
                let ps = graph.predecessors(v);
                if ps.len() > 0 {
                    proof {
                        lemma_preds_in(graph, v, 0);
                    }
                    let o: usize = match node_order(graph, ps[0]) {
                        Some(x) => x,
                        None => 0,
                    };
                    next = o as i32;
                    scan_type2_in(graph, conflicts, south, sp, i, prev, next);
                    proof {
                        first = type2_scan(graph, sv, scan_start(p), i as int, north_at(graph, sv, p, -1i32), north_of(graph, sv[i as int]));
                        assert(m0.union_prefer_right(tagged(before, ConflictType::Type2)).union_prefer_right(tagged(first, ConflictType::Type2))
                            =~= m0.union_prefer_right(tagged(before.union(first), ConflictType::Type2)));
                    }
                    sp = i;
                    prev = next;
                }
            }
            proof {
                if !is_border_cut(graph, sv, i as int) {
                    assert(before.union(first) =~= before);
                }
            }
            scan_type2_in(graph, conflicts, south, sp, n, next, north_len as i32);
            proof {
                let second = type2_scan(graph, sv, sp as int, n as int, next, north_len as i32);
                assert(m0.union_prefer_right(tagged(before.union(first), ConflictType::Type2)).union_prefer_right(tagged(second, ConflictType::Type2))
                    =~= m0.union_prefer_right(tagged(before.union(first).union(second), ConflictType::Type2)));
                assert(type2_visit_at(graph, north_len, sv, i as int) =~= first.union(second));
            }
        }
        proof {
            let after = type2_visit(graph, north_len, sv, i + 1);
            let here = type2_visit_at(graph, north_len, sv, i as int);
            assert(after =~= before.union(here)) by {
                assert forall|k: (NodeIndex, NodeIndex)| #[trigger] after.contains(k) implies before.union(here).contains(k) by {
                    let x = choose|x: int| 0 <= x < i + 1 && x < sv.len() && #[trigger] type2_visit_at(graph, north_len, sv, x).contains(k);
                    if x < i {
                        assert(before.contains(k));
                    }
                }
                assert forall|k: (NodeIndex, NodeIndex)| before.union(here).contains(k) implies #[trigger] after.contains(k) by {
                    if before.contains(k) {
                        let x = choose|x: int| 0 <= x < i && x < sv.len() && #[trigger] type2_visit_at(graph, north_len, sv, x).contains(k);
                        assert(type2_visit_at(graph, north_len, sv, x).contains(k));
                    } else {
                        assert(type2_visit_at(graph, north_len, sv, i as int).contains(k));
                    }
                }
            }
            if ph(v) {
                assert(here =~= Set::<(NodeIndex, NodeIndex)>::empty());
                assert(after =~= before);
            }
        }
        i += 1;
    }
}


/// The upward directions align with predecessors.
pub open spec fn is_upward(d: AlignmentDirection) -> bool {
    d is UpLeft || d is UpRight
}

/// The layers `ls` as the alignment in direction `d` scans them.
pub open spec fn adjusted(ls: Seq<Seq<NodeIndex>>, d: AlignmentDirection) -> Seq<Seq<NodeIndex>> {
    let vert = if d is DownLeft || d is DownRight {
        ls.reverse()
    } else {
        ls
    };
    if d is UpRight || d is DownRight {
        vert.map_values(|l: Seq<NodeIndex>| l.reverse())
    } else {
        vert
    }
}

/// Reordering the layers keeps them within the graph.
proof fn lemma_adjusted_of_graph(g: &Graph, ls: Seq<Seq<NodeIndex>>, d: AlignmentDirection)
    requires
        forall|k: int| 0 <= k < ls.len() ==> layer_in(g, #[trigger] ls[k]),
    ensures
        layering_of_graph(g, adjusted(ls, d)),
{
    let a = adjusted(ls, d);
    assert forall|r: int, k: int| 0 <= r < a.len() && 0 <= k < a[r].len() && !ph(#[trigger] a[r][k]) implies a[r][k].which_graph == g.id() by {
        let down = d is DownLeft || d is DownRight;
        let src = if down { ls.len() - 1 - r } else { r };
        assert(layer_in(g, ls[src]));
        let l = ls[src];
        let kk = if d is UpRight || d is DownRight { l.len() - 1 - k } else { k };
        assert(a[r][k] == l[kk]);
    }
}


/// Brandes-Köpf: a graph, its layers and the conflicts found in them.
pub struct BrandesKoepf {
    graph: Graph,
    layers: Vec<Vec<NodeIndex>>,
    conflicts: IndexMap<(NodeIndex, NodeIndex), ConflictType>,
}

impl BrandesKoepf {
    /// The graph.
    pub closed spec fn graph_spec(&self) -> Graph {
        self.graph
    }

    /// The layers, top first.
    pub closed spec fn layers_spec(&self) -> Seq<Seq<NodeIndex>> {
        self.layers@.map_values(|l: Vec<NodeIndex>| l@)
    }

    /// The conflicts found, in the order they were first found.
    pub closed spec fn conflict_seq(&self) -> Seq<((NodeIndex, NodeIndex), ConflictType)> {
        conflict_entries(self.conflicts)
    }

    /// The conflicts found, by key.
    pub open spec fn conflict_view(&self) -> Map<(NodeIndex, NodeIndex), ConflictType> {
        entry_map(self.conflict_seq())
    }

    /// The graph is well formed, the layers hold its nodes, and no conflict
    /// is recorded twice.
    pub open spec fn wf(&self) -> bool {
        &&& self.graph_spec().wf()
        &&& forall|k: int| 0 <= k < self.layers_spec().len() ==> layer_in(&self.graph_spec(), #[trigger] self.layers_spec()[k])
        &&& keys_unique(self.conflict_seq())
    }

    /// Takes `graph`, with no layers and no conflicts yet.
    pub fn new(graph: Graph) -> (r: Self)
        requires
            graph.wf(),
        ensures
            r.wf(),
            r.graph_spec() == graph,
            r.layers_spec().len() == 0,
            r.conflict_view() == Map::<(NodeIndex, NodeIndex), ConflictType>::empty(),
    {
        let r = BrandesKoepf { graph, layers: Vec::new(), conflicts: conflict_map_new() };
        proof {
            assert(r.conflict_view() =~= Map::<(NodeIndex, NodeIndex), ConflictType>::empty());
        }
        r
    }

    /// The graph.
    pub fn graph(&self) -> (r: &Graph)
        ensures
            *r == self.graph_spec(),
    {
        &self.graph
    }

    /// One layer for every rank from the least to the greatest (a single
    /// layer when no node has a rank): the nodes of that rank ordered by
    /// their order (0 when unset), nodes of equal order by position. In a
    /// graph whose id marks placeholders every layer is empty.
    pub fn build_layers(&mut self)
        requires
            old(self).wf(),
        ensures
            final(self).wf(),
            final(self).graph_spec() == old(self).graph_spec(),
            final(self).conflict_seq() == old(self).conflict_seq(),
            final(self).layers_spec().len() == max_rank_spec(&old(self).graph_spec()) - min_rank_spec(&old(self).graph_spec()) + 1,
            forall|k: int| 0 <= k < final(self).layers_spec().len() ==> {
                let l = #[trigger] final(self).layers_spec()[k];
                let g = old(self).graph_spec();
                if ph(g.node_at(0)) {
                    l.len() == 0
                } else {
                    rank_layer(&g, l, min_rank_spec(&g) + k) && stably_ordered(&g, l)
                }
            },
    {
        let lo = min_rank(&self.graph);
        let hi = max_rank(&self.graph);
        proof {
            lemma_min_rank_spec(&self.graph, lo as int);
            lemma_max_rank_spec(&self.graph, hi as int);
            if crate::util::has_ranked(&self.graph) {
                let i = choose|i: int| 0 <= i < self.graph.n() && (#[trigger] self.graph.node_seq()[i]).rank is Some;
                assert(lo <= self.graph.node_seq()[i].rank->0 <= hi);
            }
        }
        let skip = is_placeholder(NodeIndex { node_index: 0, which_graph: self.graph.graph_id() });
        let mut layers: Vec<Vec<NodeIndex>> = Vec::new();
        let mut rank: i64 = lo as i64;
        while rank <= hi as i64
            invariant
                self.graph.wf(),
                lo <= rank <= hi + 1,
                lo as int == min_rank_spec(&self.graph),
                skip == ph(self.graph.node_at(0)),
                layers@.len() == rank - lo,
                forall|k: int| 0 <= k < layers@.len() ==> {
                    let l = (#[trigger] layers@[k])@;
                    if skip {
                        l.len() == 0
                    } else {
                        rank_layer(&self.graph, l, lo + k) && stably_ordered(&self.graph, l)
                    }
                },
            decreases hi + 1 - rank,
        {
            if skip {
                layers.push(Vec::new());
            } else {
                let layer = layer_of_rank(&self.graph, rank as i32);
                layers.push(layer);
            }
            rank += 1;
        }
        self.layers = layers;
        proof {
            assert forall|k: int| 0 <= k < self.layers_spec().len() implies layer_in(&self.graph_spec(), #[trigger] self.layers_spec()[k]) by {
                assert(self.layers_spec()[k] == self.layers@[k]@);
            }
        }
    }

    /// The order of `node`, if it is a node with one.
    pub fn get_node_order(&self, node: NodeIndex) -> (r: Option<usize>)
        requires
            node.which_graph == self.graph_spec().id(),
        ensures
            r == order_of(&self.graph_spec(), node),
    {
        node_order(&self.graph, node)
    }

    /// Whether `node` is a dummy node.
    pub fn is_dummy_node(&self, node: NodeIndex) -> (r: bool)
        requires
            !ph(node) ==> node.which_graph == self.graph_spec().id(),
        ensures
            r == is_dummy(&self.graph_spec(), node),
    {
        node_is_dummy(&self.graph, node)
    }

    /// Whether `node` is a border node.
    pub fn is_border_node(&self, node: NodeIndex) -> (r: bool)
        requires
            !ph(node) ==> node.which_graph == self.graph_spec().id(),
        ensures
            r == is_border(&self.graph_spec(), node),
    {
        node_is_border(&self.graph, node)
    }

    /// For a dummy node, its first dummy predecessor: the other end of
    /// the inner segment it ends.
    pub fn find_other_inner_segment_node(&self, v: NodeIndex) -> (r: Option<NodeIndex>)
        requires
            self.wf(),
            !ph(v) ==> v.which_graph == self.graph_spec().id(),
        ensures
            r == other_inner(&self.graph_spec(), v),
    {
        other_inner_node(&self.graph, v)
    }

    /// Records the type-1 conflicts between `layer` and the layer above it,
    /// `prev_layer`: edges that cross an inner segment, found by scanning
    /// `layer` from left to right between the nodes that end inner
    /// segments.
    pub fn visit_layer_type1(&mut self, prev_layer: &[NodeIndex], layer: &[NodeIndex])
        requires
            old(self).wf(),
            layer_of_graph(&old(self).graph_spec(), layer@),
        ensures
            final(self).wf(),
            final(self).graph_spec() == old(self).graph_spec(),
            final(self).layers_spec() == old(self).layers_spec(),
            final(self).conflict_view() == old(self).conflict_view().union_prefer_right(
                tagged(type1_conflicts(&old(self).graph_spec(), prev_layer@.len() as int, layer@), ConflictType::Type1),
            ),
    {
        scan_type1(&self.graph, &mut self.conflicts, prev_layer.len(), layer);
        proof {
            assert forall|k: int| 0 <= k < self.layers_spec().len() implies layer_in(&self.graph_spec(), #[trigger] self.layers_spec()[k]) by {
                assert(self.layers_spec()[k] == old(self).layers_spec()[k]);
            }
        }
    }

    /// Records the type-1 conflicts between every layer and the layer
    /// above it.
    pub fn find_type1_conflicts(&mut self)
        requires
            old(self).wf(),
        ensures
            final(self).wf(),
            final(self).graph_spec() == old(self).graph_spec(),
            final(self).layers_spec() == old(self).layers_spec(),
            final(self).conflict_view() == old(self).conflict_view().union_prefer_right(
                tagged(all_type1(&old(self).graph_spec(), old(self).layers_spec(), old(self).layers_spec().len() as int), ConflictType::Type1),
            ),
    {
        let ghost m0 = self.conflict_view();
        let ghost g = self.graph_spec();
        let ghost ls = self.layers_spec();
        let mut i: usize = 1;
        proof {
            assert(all_type1(&g, ls, 1) =~= Set::<(NodeIndex, NodeIndex)>::empty());
            assert(m0.union_prefer_right(tagged(all_type1(&g, ls, 1), ConflictType::Type1)) =~= m0);
        }
        while i < self.layers.len()
            invariant
                self.wf(),
                self.graph_spec() == g,
                self.layers_spec() == ls,
                1 <= i,
                i <= ls.len() || ls.len() == 0,
                self.conflict_view() == m0.union_prefer_right(tagged(all_type1(&g, ls, i as int), ConflictType::Type1)),
            decreases self.layers@.len() - i,
        {
            proof {
                assert(ls[i as int] == self.layers@[i as int]@);
                assert(ls[i - 1] == self.layers@[i - 1]@);
                assert(layer_in(&g, ls[i as int]));
                assert forall|k: int| 0 <= k < ls[i as int].len() && !ph(#[trigger] ls[i as int][k]) implies ls[i as int][k].which_graph == g.id() by {
                }
            }
            let prev_len = self.layers[i - 1].len();
            scan_type1(&self.graph, &mut self.conflicts, prev_len, self.layers[i].as_slice());
            proof {
                let a = all_type1(&g, ls, i as int);
                let b = type1_conflicts(&g, ls[i - 1].len() as int, ls[i as int]);
                assert(all_type1(&g, ls, i + 1) =~= a.union(b)) by {
                    assert forall|k: (NodeIndex, NodeIndex)| #[trigger] all_type1(&g, ls, i + 1).contains(k) implies a.union(b).contains(k) by {
                        let x = choose|x: int| 1 <= x < i + 1 && #[trigger] type1_conflicts(&g, ls[x - 1].len() as int, ls[x]).contains(k);
                        if x < i {
                            assert(a.contains(k));
                        }
                    }
                    assert forall|k: (NodeIndex, NodeIndex)| a.union(b).contains(k) implies #[trigger] all_type1(&g, ls, i + 1).contains(k) by {
                        if a.contains(k) {
                            let x = choose|x: int| 1 <= x < i && #[trigger] type1_conflicts(&g, ls[x - 1].len() as int, ls[x]).contains(k);
                            assert(type1_conflicts(&g, ls[x - 1].len() as int, ls[x]).contains(k));
                        } else {
                            assert(type1_conflicts(&g, ls[i - 1].len() as int, ls[i as int]).contains(k));
                        }
                    }
                }
                assert(m0.union_prefer_right(tagged(a, ConflictType::Type1)).union_prefer_right(tagged(b, ConflictType::Type1))
                    =~= m0.union_prefer_right(tagged(a.union(b), ConflictType::Type1)));
                assert forall|k: int| 0 <= k < self.layers_spec().len() implies layer_in(&self.graph_spec(), #[trigger] self.layers_spec()[k]) by {
                    assert(self.layers_spec()[k] == ls[k]);
                }
            }
            i += 1;
        }
        proof {
            if ls.len() == 0 {
                assert(all_type1(&g, ls, 0) =~= all_type1(&g, ls, 1));
            }
        }
    }

    /// Records the type-2 conflicts of the scan of positions
    /// `south_pos..south_end` of `south`: edges between dummies whose upper
    /// end lies outside `prev_north_border..=next_north_border`.
    pub fn scan_type2(
        &mut self,
        south: &[NodeIndex],
        south_pos: usize,
        south_end: usize,
        prev_north_border: i32,
        next_north_border: i32,
    )
        requires
            old(self).wf(),
            south_pos >= south_end || south_end <= south@.len(),
            forall|k: int| south_pos <= k < south_end && !ph(#[trigger] south@[k]) ==> south@[k].which_graph == old(self).graph_spec().id(),
        ensures
            final(self).wf(),
            final(self).graph_spec() == old(self).graph_spec(),
            final(self).layers_spec() == old(self).layers_spec(),
            final(self).conflict_view() == old(self).conflict_view().union_prefer_right(
                tagged(
                    type2_scan(&old(self).graph_spec(), south@, south_pos as int, south_end as int, prev_north_border, next_north_border),
                    ConflictType::Type2,
                ),
            ),
    {
        scan_type2_in(&self.graph, &mut self.conflicts, south, south_pos, south_end, prev_north_border, next_north_border);
        proof {
            assert forall|k: int| 0 <= k < self.layers_spec().len() implies layer_in(&self.graph_spec(), #[trigger] self.layers_spec()[k]) by {
                assert(self.layers_spec()[k] == old(self).layers_spec()[k]);
            }
        }
    }

    /// Records the type-2 conflicts between `south` and the layer above it,
    /// `north`: the layer is cut at its border nodes, and each part is
    /// scanned for edges between dummies that leave the part's borders.
    pub fn visit_layer_type2(&mut self, north: &[NodeIndex], south: &[NodeIndex])
        requires
            old(self).wf(),
            layer_of_graph(&old(self).graph_spec(), south@),
        ensures
            final(self).wf(),
            final(self).graph_spec() == old(self).graph_spec(),
            final(self).layers_spec() == old(self).layers_spec(),
            final(self).conflict_view() == old(self).conflict_view().union_prefer_right(
                tagged(type2_conflicts(&old(self).graph_spec(), north@.len() as usize, south@), ConflictType::Type2),
            ),
    {
        visit_type2(&self.graph, &mut self.conflicts, north.len(), south);
        proof {
            assert forall|k: int| 0 <= k < self.layers_spec().len() implies layer_in(&self.graph_spec(), #[trigger] self.layers_spec()[k]) by {
                assert(self.layers_spec()[k] == old(self).layers_spec()[k]);
            }
        }
    }

    /// Records the type-2 conflicts between every layer and the layer
    /// above it.
    pub fn find_type2_conflicts(&mut self)
        requires
            old(self).wf(),
        ensures
            final(self).wf(),
            final(self).graph_spec() == old(self).graph_spec(),
            final(self).layers_spec() == old(self).layers_spec(),
            final(self).conflict_view() == old(self).conflict_view().union_prefer_right(
                tagged(all_type2(&old(self).graph_spec(), old(self).layers_spec(), old(self).layers_spec().len() as int), ConflictType::Type2),
            ),
    {
        let ghost m0 = self.conflict_view();
        let ghost g = self.graph_spec();
        let ghost ls = self.layers_spec();
        let mut i: usize = 1;
        proof {
            assert(all_type2(&g, ls, 1) =~= Set::<(NodeIndex, NodeIndex)>::empty());
            assert(m0.union_prefer_right(tagged(all_type2(&g, ls, 1), ConflictType::Type2)) =~= m0);
        }
        while i < self.layers.len()
            invariant
                self.wf(),
                self.graph_spec() == g,
                self.layers_spec() == ls,
                1 <= i,
                i <= ls.len() || ls.len() == 0,
                self.conflict_view() == m0.union_prefer_right(tagged(all_type2(&g, ls, i as int), ConflictType::Type2)),
            decreases self.layers@.len() - i,
        {
            proof {
                assert(ls[i as int] == self.layers@[i as int]@);
                assert(ls[i - 1] == self.layers@[i - 1]@);
                assert(layer_in(&g, ls[i as int]));
                assert forall|k: int| 0 <= k < ls[i as int].len() && !ph(#[trigger] ls[i as int][k]) implies ls[i as int][k].which_graph == g.id() by {
                }
            }
            let north_len = self.layers[i - 1].len();
            visit_type2(&self.graph, &mut self.conflicts, north_len, self.layers[i].as_slice());
            proof {
                let a = all_type2(&g, ls, i as int);
                let b = type2_conflicts(&g, ls[i - 1].len() as usize, ls[i as int]);
                assert(all_type2(&g, ls, i + 1) =~= a.union(b)) by {
                    assert forall|k: (NodeIndex, NodeIndex)| #[trigger] all_type2(&g, ls, i + 1).contains(k) implies a.union(b).contains(k) by {
                        let x = choose|x: int| 1 <= x < i + 1 && x < ls.len() && #[trigger] type2_conflicts(&g, ls[x - 1].len() as usize, ls[x]).contains(k);
                        if x < i {
                            assert(a.contains(k));
                        }
                    }
                    assert forall|k: (NodeIndex, NodeIndex)| a.union(b).contains(k) implies #[trigger] all_type2(&g, ls, i + 1).contains(k) by {
                        if a.contains(k) {
                            let x = choose|x: int| 1 <= x < i && x < ls.len() && #[trigger] type2_conflicts(&g, ls[x - 1].len() as usize, ls[x]).contains(k);
                            assert(type2_conflicts(&g, ls[x - 1].len() as usize, ls[x]).contains(k));
                        } else {
                            assert(type2_conflicts(&g, ls[i - 1].len() as usize, ls[i as int]).contains(k));
                        }
                    }
                }
                assert(m0.union_prefer_right(tagged(a, ConflictType::Type2)).union_prefer_right(tagged(b, ConflictType::Type2))
                    =~= m0.union_prefer_right(tagged(a.union(b), ConflictType::Type2)));
                assert forall|k: int| 0 <= k < self.layers_spec().len() implies layer_in(&self.graph_spec(), #[trigger] self.layers_spec()[k]) by {
                    assert(self.layers_spec()[k] == ls[k]);
                }
            }
            i += 1;
        }
        proof {
            if ls.len() == 0 {
                assert(all_type2(&g, ls, 0) =~= all_type2(&g, ls, 1));
            }
        }
    }

    /// Records the type-1 conflicts, then the type-2 conflicts, between
    /// every layer and the layer above it; a type-2 conflict overrides a
    /// type-1 conflict on the same pair.
    pub fn find_conflicts(&mut self)
        requires
            old(self).wf(),
        ensures
            final(self).wf(),
            final(self).graph_spec() == old(self).graph_spec(),
            final(self).layers_spec() == old(self).layers_spec(),
            final(self).conflict_view() == old(self).conflict_view().union_prefer_right(
                tagged(all_type1(&old(self).graph_spec(), old(self).layers_spec(), old(self).layers_spec().len() as int), ConflictType::Type1),
            ).union_prefer_right(
                tagged(all_type2(&old(self).graph_spec(), old(self).layers_spec(), old(self).layers_spec().len() as int), ConflictType::Type2),
            ),
    {
        self.find_type1_conflicts();
        self.find_type2_conflicts();
    }

    /// The alignment of `layering` with the neighbours in the direction
    /// given: predecessors for the upward directions, successors for the
    /// downward ones. A pair recorded as a conflict is never aligned.
    pub fn vertical_alignment(&self, layering: &[Vec<NodeIndex>], direction: AlignmentDirection) -> (r: Alignment)
        requires
            self.wf(),
            layering_of_graph(&self.graph_spec(), layer_seqs(layering@)),
        ensures
            (r.root_view(), r.align_view()) == vertical_alignment_spec(
                &self.graph_spec(),
                layer_seqs(layering@),
                is_upward(direction),
                self.conflict_view(),
            ),
            r.root_keys() == layers_keys(layer_seqs(layering@), layering@.len() as int),
            r.align_keys() == layers_keys(layer_seqs(layering@), layering@.len() as int),
            proper_for_alignment(&self.graph_spec(), layer_seqs(layering@), is_upward(direction)) ==> aligned_by_median(
                &self.graph_spec(),
                is_upward(direction),
                pos_layers(layer_seqs(layering@), layering@.len() as int),
                r.root_view(),
            ),
    {
        let upward = match direction {
            AlignmentDirection::UpLeft => true,
            AlignmentDirection::UpRight => true,
            AlignmentDirection::DownLeft => false,
            AlignmentDirection::DownRight => false,
        };
        align_vertically(&self.graph, &self.conflicts, layering, upward)
    }

    /// The layers as the alignment in direction `direction` scans them:
    /// bottom first for the downward directions, each layer right to left
    /// for the rightward ones.
    pub fn adjusted_layering(&self, direction: AlignmentDirection) -> (r: Vec<Vec<NodeIndex>>)
        ensures
            layer_seqs(r@) == adjusted(self.layers_spec(), direction),
    {
        let n = self.layers.len();
        let down = match direction {
            AlignmentDirection::DownLeft => true,
            AlignmentDirection::DownRight => true,
            _ => false,
        };
        let right = match direction {
            AlignmentDirection::UpRight => true,
            AlignmentDirection::DownRight => true,
            _ => false,
        };
        let ghost ls = self.layers_spec();
        let ghost target = adjusted(ls, direction);
        let mut r: Vec<Vec<NodeIndex>> = Vec::new();
        let mut i: usize = 0;
        while i < n
            invariant
                n == self.layers@.len(),
                ls == self.layers_spec(),
                target == adjusted(ls, direction),
                down == (direction is DownLeft || direction is DownRight),
                right == (direction is UpRight || direction is DownRight),
                i <= n,
                r@.len() == i,
                forall|k: int| 0 <= k < i ==> (#[trigger] r@[k])@ == target[k],
            decreases n - i,
        {
            let src: usize = if down { n - 1 - i } else { i };
            let layer = &self.layers[src];
            proof {
                assert(ls[src as int] == layer@);
            }
            let m = layer.len();
            let mut out: Vec<NodeIndex> = Vec::new();
            let mut j: usize = 0;
            while j < m
                invariant
                    m == layer@.len(),
                    j <= m,
                    out@.len() == j,
                    forall|t: int| 0 <= t < j ==> #[trigger] out@[t] == (if right { layer@[m - 1 - t] } else { layer@[t] }),
                decreases m - j,
            {
                let x = if right { layer[m - 1 - j] } else { layer[j] };
                out.push(x);
                j += 1;
            }
            proof {
                assert(out@ =~= target[i as int]);
            }
            r.push(out);
            i += 1;
        }
        proof {
            assert(layer_seqs(r@) =~= target);
        }
        r
    }

    /// Builds the layers, finds the conflicts, then aligns the layers in
    /// each of the four directions, in the order up-left, up-right,
    /// down-left, down-right: each direction with the layering it scanned.
    pub fn alignments(&mut self) -> (r: Vec<(AlignmentDirection, Vec<Vec<NodeIndex>>, Alignment)>)
        requires
            old(self).wf(),
        ensures
            final(self).wf(),
            final(self).graph_spec() == old(self).graph_spec(),
            r@.len() == 4,
            r@[0].0 == AlignmentDirection::UpLeft,
            r@[1].0 == AlignmentDirection::UpRight,
            r@[2].0 == AlignmentDirection::DownLeft,
            r@[3].0 == AlignmentDirection::DownRight,
            forall|k: int| 0 <= k < 4 ==> {
                let (d, l, a) = #[trigger] r@[k];
                &&& layer_seqs(l@) == adjusted(final(self).layers_spec(), d)
                &&& (a.root_view(), a.align_view()) == vertical_alignment_spec(
                    &final(self).graph_spec(),
                    layer_seqs(l@),
                    is_upward(d),
                    final(self).conflict_view(),
                )
                &&& a.root_keys() == layers_keys(layer_seqs(l@), l@.len() as int)
                &&& a.align_keys() == layers_keys(layer_seqs(l@), l@.len() as int)
            },
    {
        self.build_layers();
        self.find_conflicts();
        let dirs = [
            AlignmentDirection::UpLeft,
            AlignmentDirection::UpRight,
            AlignmentDirection::DownLeft,
            AlignmentDirection::DownRight,
        ];
        let mut r: Vec<(AlignmentDirection, Vec<Vec<NodeIndex>>, Alignment)> = Vec::new();
        let mut k: usize = 0;
        while k < 4
            invariant
                self.wf(),
                dirs@ == seq![
                    AlignmentDirection::UpLeft,
                    AlignmentDirection::UpRight,
                    AlignmentDirection::DownLeft,
                    AlignmentDirection::DownRight,
                ],
                k <= 4,
                r@.len() == k,
                forall|t: int| 0 <= t < k ==> (#[trigger] r@[t]).0 == dirs@[t],
                forall|t: int| 0 <= t < k ==> {
                    let (d, l, a) = #[trigger] r@[t];
                    &&& layer_seqs(l@) == adjusted(self.layers_spec(), d)
                    &&& (a.root_view(), a.align_view()) == vertical_alignment_spec(
                        &self.graph_spec(),
                        layer_seqs(l@),
                        is_upward(d),
                        self.conflict_view(),
                    )
                    &&& a.root_keys() == layers_keys(layer_seqs(l@), l@.len() as int)
                    &&& a.align_keys() == layers_keys(layer_seqs(l@), l@.len() as int)
                },
            decreases 4 - k,
        {
            let d = dirs[k];
            let l = self.adjusted_layering(d);
            proof {
                lemma_adjusted_of_graph(&self.graph_spec(), self.layers_spec(), d);
            }
            let a = self.vertical_alignment(l.as_slice(), d);
            r.push((d, l, a));
            k += 1;
        }
        r
    }

    /// Records a conflict of type `conflict_type` between `v` and `w`;
    /// nothing is recorded for a placeholder.
    pub fn add_conflict(&mut self, v: NodeIndex, w: NodeIndex, conflict_type: ConflictType)
        requires
            old(self).wf(),
        ensures
            final(self).wf(),
            final(self).graph_spec() == old(self).graph_spec(),
            final(self).layers_spec() == old(self).layers_spec(),
            final(self).conflict_view() == if ph(v) || ph(w) {
                old(self).conflict_view()
            } else {
                old(self).conflict_view().insert(conflict_key(v, w), conflict_type)
            },
            final(self).conflict_seq() == if ph(v) || ph(w) {
                old(self).conflict_seq()
            } else {
                inserted(old(self).conflict_seq(), conflict_key(v, w), conflict_type)
            },
    {
        if is_placeholder(v) || is_placeholder(w) {
            return;
        }
        record_conflict(&mut self.conflicts, v, w, conflict_type);
        proof {
            assert forall|k: int| 0 <= k < self.layers_spec().len() implies layer_in(&self.graph_spec(), #[trigger] self.layers_spec()[k]) by {
                assert(self.layers_spec()[k] == old(self).layers_spec()[k]);
            }
        }
    }

    /// Whether a conflict between `v` and `w` has been recorded.
    pub fn has_conflict(&self, v: NodeIndex, w: NodeIndex) -> (r: bool)
        ensures
            r == (!ph(v) && !ph(w) && self.conflict_view().dom().contains(conflict_key(v, w))),
    {
        if is_placeholder(v) || is_placeholder(w) {
            return false;
        }
        let key = if v.node_index > w.node_index {
            (w, v)
        } else {
            (v, w)
        };
        conflict_map_contains_key(&self.conflicts, &key)
    }
}

/// Records a conflict between `v` and `w` under its key.
fn record_conflict(
    conflicts: &mut IndexMap<(NodeIndex, NodeIndex), ConflictType>,
    v: NodeIndex,
    w: NodeIndex,
    t: ConflictType,
)
    requires
        keys_unique(conflict_entries(*old(conflicts))),
    ensures
        keys_unique(conflict_entries(*final(conflicts))),
        entry_map(conflict_entries(*final(conflicts))) == entry_map(conflict_entries(*old(conflicts))).insert(conflict_key(v, w), t),
        conflict_entries(*final(conflicts)) == inserted(conflict_entries(*old(conflicts)), conflict_key(v, w), t),
{
    let key = if v.node_index > w.node_index {
        (w, v)
    } else {
        (v, w)
    };
    proof {
        lemma_inserted(conflict_entries(*conflicts), key, t);
    }
    conflict_map_insert(conflicts, key, t);
}

} // verus!
