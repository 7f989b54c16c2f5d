//! Vertical alignment: every node is aligned with at most one median
//! neighbour in the layer before it, so that nodes form blocks that will
//! share one coordinate.
use vstd::prelude::*;
use indexmap::IndexMap;
use crate::graph::Graph;
use crate::index_map::{
    inserted,
    conflict_entries, conflict_map_contains_key, entry_map, has_key, key_pos, keys_unique, lemma_inserted,
    node_map_get, node_map_insert, node_map_new, node_pair_entries, node_pos_entries, pos_map_get,
    pos_map_insert, pos_map_new,
};
use crate::position::bk::{conflict_key, lemma_preds_in, ph, preds, ConflictType};
use crate::types::{Edge, NodeIndex};
use crate::util::is_placeholder;

verus! {

/// The blocks of an alignment: `root` sends every node to the top node of
/// its block, `align` to the next node of its block (the last one back to
/// the root).
#[derive(Debug)]
pub struct Alignment {
    pub root: IndexMap<NodeIndex, NodeIndex>,
    pub align: IndexMap<NodeIndex, NodeIndex>,
}

impl Alignment {
    /// `root` as a map.
    pub open spec fn root_view(&self) -> Map<NodeIndex, NodeIndex> {
        entry_map(node_pair_entries(self.root))
    }

    /// `align` as a map.
    pub open spec fn align_view(&self) -> Map<NodeIndex, NodeIndex> {
        entry_map(node_pair_entries(self.align))
    }

    /// The nodes `root` holds, in its order.
    pub open spec fn root_keys(&self) -> Seq<NodeIndex> {
        keys_of(node_pair_entries(self.root))
    }

    /// The nodes `align` holds, in its order.
    pub open spec fn align_keys(&self) -> Seq<NodeIndex> {
        keys_of(node_pair_entries(self.align))
    }
}

/// The targets of the edges leaving `v`, most recent edge first.
pub open spec fn succs(g: &Graph, v: NodeIndex) -> Seq<NodeIndex> {
    g.out_edges_spec(v).map_values(|e: Edge| e.target)
}

/// The neighbours a node is aligned with: its predecessors when aligning
/// upward, its successors otherwise.
pub open spec fn neighbours(g: &Graph, v: NodeIndex, upward: bool) -> Seq<NodeIndex> {
    if upward {
        preds(g, v)
    } else {
        succs(g, v)
    }
}

/// The position of each real node in its layer, a node listed twice
/// keeping its later position: the layers before `r` are entered into
/// `m`, and the first `k` slots of layer `r`.
pub open spec fn pos_layer(m: Map<NodeIndex, usize>, l: Seq<NodeIndex>, k: int) -> Map<NodeIndex, usize>
    decreases k,
{
    if k <= 0 {
        m
    } else {
        let m1 = pos_layer(m, l, k - 1);
        if ph(l[k - 1]) {
            m1
        } else {
            m1.insert(l[k - 1], (k - 1) as usize)
        }
    }
}

/// The positions of the real nodes of the first `r` layers.
pub open spec fn pos_layers(ls: Seq<Seq<NodeIndex>>, r: int) -> Map<NodeIndex, usize>
    decreases r,
{
    if r <= 0 {
        Map::empty()
    } else {
        pos_layer(pos_layers(ls, r - 1), ls[r - 1], ls[r - 1].len() as int)
    }
}

/// Every real node of the layers, mapped to itself.
pub open spec fn identity_on(pos: Map<NodeIndex, usize>) -> Map<NodeIndex, NodeIndex> {
    Map::new(|v: NodeIndex| pos.dom().contains(v), |v: NodeIndex| v)
}

/// The real nodes of `s` that have a position, in order.
pub open spec fn keep(pos: Map<NodeIndex, usize>, s: Seq<NodeIndex>) -> Seq<NodeIndex>
    decreases s.len(),
{
    if s.len() == 0 {
        Seq::empty()
    } else {
        let t = keep(pos, s.drop_last());
        if !ph(s.last()) && pos.dom().contains(s.last()) {
            t.push(s.last())
        } else {
            t
        }
    }
}

/// `x` inserted into `s` after every node whose position is at most its
/// own, counting from the end.
pub open spec fn insert_by_pos(pos: Map<NodeIndex, usize>, s: Seq<NodeIndex>, x: NodeIndex) -> Seq<NodeIndex>
    decreases s.len(),
{
    if s.len() == 0 {
        seq![x]
    } else if pos[s.last()] <= pos[x] {
        s.push(x)
    } else {
        insert_by_pos(pos, s.drop_last(), x).push(s.last())
    }
}

/// `s` sorted by position, stably.
pub open spec fn sort_by_pos(pos: Map<NodeIndex, usize>, s: Seq<NodeIndex>) -> Seq<NodeIndex>
    decreases s.len(),
{
    if s.len() == 0 {
        Seq::empty()
    } else {
        insert_by_pos(pos, sort_by_pos(pos, s.drop_last()), s.last())
    }
}

/// The neighbours `v` may be aligned with, by position.
pub open spec fn candidates(g: &Graph, v: NodeIndex, upward: bool, pos: Map<NodeIndex, usize>) -> Seq<NodeIndex> {
    sort_by_pos(pos, keep(pos, neighbours(g, v, upward)))
}

/// The state of the alignment: roots, alignment, and the position of the
/// last neighbour aligned with in the current layer.
pub type AlignState = (Map<NodeIndex, NodeIndex>, Map<NodeIndex, NodeIndex>, i32);

/// Aligns `v` with `w` when `v` is not aligned yet, `w` lies right of the
/// last neighbour aligned with in this layer, and no conflict separates
/// them: `w` is followed by `v` in its block, and `v` takes its root.
pub open spec fn try_align(
    st: AlignState,
    v: NodeIndex,
    w: NodeIndex,
    pos: Map<NodeIndex, usize>,
    cv: Map<(NodeIndex, NodeIndex), ConflictType>,
) -> AlignState {
    let (root, align, prev) = st;
    if align.dom().contains(v) && align[v] == v && prev < (pos[w] as i32) && !cv.dom().contains(conflict_key(v, w)) {
        let rw = if root.dom().contains(w) {
            root[w]
        } else {
            w
        };
        (root.insert(v, rw), align.insert(w, v).insert(v, rw), pos[w] as i32)
    } else {
        st
    }
}

/// `try_align` with the candidates at positions `i..=end`, in order.
pub open spec fn try_range(
    st: AlignState,
    v: NodeIndex,
    ws: Seq<NodeIndex>,
    pos: Map<NodeIndex, usize>,
    cv: Map<(NodeIndex, NodeIndex), ConflictType>,
    i: int,
    end: int,
) -> AlignState
    decreases end + 1 - i,
{
    if i > end || i < 0 || i >= ws.len() {
        st
    } else {
        try_range(try_align(st, v, ws[i], pos, cv), v, ws, pos, cv, i + 1, end)
    }
}

/// Aligns the real node `v` with its median candidates: the middle one,
/// or the two middle ones in order.
pub open spec fn align_node(
    st: AlignState,
    g: &Graph,
    v: NodeIndex,
    upward: bool,
    pos: Map<NodeIndex, usize>,
    cv: Map<(NodeIndex, NodeIndex), ConflictType>,
) -> AlignState {
    let ws = candidates(g, v, upward, pos);
    if ph(v) || ws.len() == 0 {
        st
    } else {
        try_range(st, v, ws, pos, cv, (ws.len() - 1) / 2, (ws.len() / 2) as int)
    }
}

/// `align_node` with the nodes of `l` from position `k` on.
pub open spec fn align_layer(
    st: AlignState,
    g: &Graph,
    l: Seq<NodeIndex>,
    k: int,
    upward: bool,
    pos: Map<NodeIndex, usize>,
    cv: Map<(NodeIndex, NodeIndex), ConflictType>,
) -> AlignState
    decreases l.len() - k,
{
    if k < 0 || k >= l.len() {
        st
    } else {
        align_layer(align_node(st, g, l[k], upward, pos, cv), g, l, k + 1, upward, pos, cv)
    }
}

/// `align_layer` with the layers from `r` on, each starting with no
/// neighbour aligned with.
pub open spec fn align_layers(
    root: Map<NodeIndex, NodeIndex>,
    align: Map<NodeIndex, NodeIndex>,
    g: &Graph,
    ls: Seq<Seq<NodeIndex>>,
    r: int,
    upward: bool,
    pos: Map<NodeIndex, usize>,
    cv: Map<(NodeIndex, NodeIndex), ConflictType>,
) -> (Map<NodeIndex, NodeIndex>, Map<NodeIndex, NodeIndex>)
    decreases ls.len() - r,
{
    if r < 0 || r >= ls.len() {
        (root, align)
    } else {
        let st = align_layer((root, align, -1i32), g, ls[r], 0, upward, pos, cv);
        align_layers(st.0, st.1, g, ls, r + 1, upward, pos, cv)
    }
}

/// The alignment of the layers `ls`: every real node starts as a block of
/// its own, then each layer, top first, is aligned node by node.
pub open spec fn vertical_alignment_spec(
    g: &Graph,
    ls: Seq<Seq<NodeIndex>>,
    upward: bool,
    cv: Map<(NodeIndex, NodeIndex), ConflictType>,
) -> (Map<NodeIndex, NodeIndex>, Map<NodeIndex, NodeIndex>) {
    let pos = pos_layers(ls, ls.len() as int);
    align_layers(identity_on(pos), identity_on(pos), g, ls, 0, upward, pos, cv)
}

proof fn lemma_insert_by_pos(pos: Map<NodeIndex, usize>, s: Seq<NodeIndex>, x: NodeIndex, p: int)
    requires
        0 <= p <= s.len(),
        forall|t: int| p <= t < s.len() ==> pos[#[trigger] s[t]] > pos[x],
        p > 0 ==> pos[s[p - 1]] <= pos[x],
    ensures
        insert_by_pos(pos, s, x) == s.insert(p, x),
    decreases s.len(),
{
    if s.len() == 0 {
        assert(s.insert(p, x) =~= seq![x]);
    } else if p == s.len() {
        assert(s.insert(p, x) =~= s.push(x));
    } else {
        let d = s.drop_last();
        assert forall|t: int| p <= t < d.len() implies pos[#[trigger] d[t]] > pos[x] by {
            assert(d[t] == s[t]);
        }
        if p > 0 {
            assert(d[p - 1] == s[p - 1]);
        }
        lemma_insert_by_pos(pos, d, x, p);
        assert(s.insert(p, x) =~= d.insert(p, x).push(s.last()));
    }
}

/// The real nodes of `nb` that have a position.
fn keep_positioned(pos: &IndexMap<NodeIndex, usize>, nb: &Vec<NodeIndex>) -> (r: Vec<NodeIndex>)
    requires
        keys_unique(node_pos_entries(*pos)),
    ensures
        r@ == keep(entry_map(node_pos_entries(*pos)), nb@),
        forall|t: int| 0 <= t < r@.len() ==> entry_map(node_pos_entries(*pos)).dom().contains(#[trigger] r@[t]),
{
    let ghost pm = entry_map(node_pos_entries(*pos));
    let mut r: Vec<NodeIndex> = Vec::new();
    let mut j: usize = 0;
    proof {
        assert(nb@.take(0) =~= Seq::<NodeIndex>::empty());
    }
    while j < nb.len()
        invariant
            pm == entry_map(node_pos_entries(*pos)),
            j <= nb@.len(),
            r@ == keep(pm, nb@.take(j as int)),
            forall|t: int| 0 <= t < r@.len() ==> pm.dom().contains(#[trigger] r@[t]),
        decreases nb@.len() - j,
    {
        let x = nb[j];
        proof {
            assert(nb@.take(j + 1).drop_last() =~= nb@.take(j as int));
            assert(nb@.take(j + 1).last() == x);
        }
        if !is_placeholder(x) {
            match pos_map_get(pos, &x) {
                Some(_) => {
                    r.push(x);
                },
                None => {},
            }
        }
        j += 1;
    }
    proof {
        assert(nb@.take(nb@.len() as int) =~= nb@);
    }
    r
}

/// `ws` sorted by position, stably.
fn sort_positioned(pos: &IndexMap<NodeIndex, usize>, ws: &Vec<NodeIndex>) -> (r: Vec<NodeIndex>)
    requires
        keys_unique(node_pos_entries(*pos)),
        forall|t: int| 0 <= t < ws@.len() ==> entry_map(node_pos_entries(*pos)).dom().contains(#[trigger] ws@[t]),
    ensures
        r@ == sort_by_pos(entry_map(node_pos_entries(*pos)), ws@),
        r@.len() == ws@.len(),
        forall|t: int| 0 <= t < r@.len() ==> entry_map(node_pos_entries(*pos)).dom().contains(#[trigger] r@[t]),
{
    let ghost pm = entry_map(node_pos_entries(*pos));
    let mut r: Vec<NodeIndex> = Vec::new();
    let mut j: usize = 0;
    proof {
        assert(ws@.take(0) =~= Seq::<NodeIndex>::empty());
    }
    while j < ws.len()
        invariant
            pm == entry_map(node_pos_entries(*pos)),
            keys_unique(node_pos_entries(*pos)),
            forall|t: int| 0 <= t < ws@.len() ==> pm.dom().contains(#[trigger] ws@[t]),
            j <= ws@.len(),
            r@ == sort_by_pos(pm, ws@.take(j as int)),
            r@.len() == j,
            forall|t: int| 0 <= t < r@.len() ==> pm.dom().contains(#[trigger] r@[t]),
        decreases ws@.len() - j,
    {
        let x = ws[j];
        proof {
            assert(pm.dom().contains(ws@[j as int]));
        }
        let kx: usize = match pos_map_get(pos, &x) {
            Some(o) => o,
            None => 0,
        };
        let mut p: usize = r.len();
        while p > 0
            invariant
                pm == entry_map(node_pos_entries(*pos)),
                p <= r@.len(),
                kx == pm[x],
                forall|t: int| 0 <= t < r@.len() ==> pm.dom().contains(#[trigger] r@[t]),
                forall|t: int| p <= t < r@.len() ==> pm[#[trigger] r@[t]] > kx,
            ensures
                p <= r@.len(),
                forall|t: int| p <= t < r@.len() ==> pm[#[trigger] r@[t]] > kx,
                p > 0 ==> pm[r@[p - 1]] <= kx,
            decreases p,
        {
            let y = r[p - 1];
            proof {
                assert(pm.dom().contains(r@[p - 1]));
            }
            let ky: usize = match pos_map_get(pos, &y) {
                Some(o) => o,
                None => 0,
            };
            if ky <= kx {
                break;
            }
            p -= 1;
        }
        proof {
            lemma_insert_by_pos(pm, r@, x, p as int);
            assert(ws@.take(j + 1).drop_last() =~= ws@.take(j as int));
            assert(ws@.take(j + 1).last() == x);
        }
        let ghost pre = r@;
        r.insert(p, x);
        proof {
            assert forall|t: int| 0 <= t < r@.len() implies pm.dom().contains(#[trigger] r@[t]) by {
                if t < p {
                    assert(r@[t] == pre[t]);
                } else if t > p {
                    assert(r@[t] == pre[t - 1]);
                }
            }
        }
        j += 1;
    }
    proof {
        assert(ws@.take(ws@.len() as int) =~= ws@);
    }
    r
}

/// The layers as sequences.
pub open spec fn layer_seqs(layering: Seq<Vec<NodeIndex>>) -> Seq<Seq<NodeIndex>> {
    layering.map_values(|l: Vec<NodeIndex>| l@)
}

/// Every real node of the layering carries the id of `g`.
pub open spec fn layering_of_graph(g: &Graph, ls: Seq<Seq<NodeIndex>>) -> bool {
    forall|r: int, k: int| 0 <= r < ls.len() && 0 <= k < ls[r].len() && !ph(#[trigger] ls[r][k]) ==> ls[r][k].which_graph == g.id()
}

/// `w` is a median of `ws`: the middle entry, or one of the two middle ones.
pub open spec fn median_of(ws: Seq<NodeIndex>, w: NodeIndex) -> bool {
    ws.len() > 0 && (w == ws[(ws.len() - 1) / 2] || w == ws[(ws.len() / 2) as int])
}

/// `w` stands in one of the first `r` layers of `ls`.
pub open spec fn in_layers_before(ls: Seq<Seq<NodeIndex>>, r: int, w: NodeIndex) -> bool {
    exists|q: int, j: int| 0 <= q < r && 0 <= j < ls[q].len() && #[trigger] ls[q][j] == w
}

/// The layering suits an alignment: no real node stands in two slots, and
/// every neighbour a real node may be aligned with lies in an earlier layer.
pub open spec fn proper_for_alignment(g: &Graph, ls: Seq<Seq<NodeIndex>>, upward: bool) -> bool {
    let pos = pos_layers(ls, ls.len() as int);
    &&& forall|r1: int, k1: int, r2: int, k2: int|
        0 <= r1 < ls.len() && 0 <= k1 < ls[r1].len() && 0 <= r2 < ls.len() && 0 <= k2 < ls[r2].len() && (r1 != r2 || k1
            != k2) && !ph(#[trigger] ls[r1][k1]) ==> ls[r1][k1] != #[trigger] ls[r2][k2]
    &&& forall|r: int, k: int, i: int|
        0 <= r < ls.len() && 0 <= k < ls[r].len() && !ph(ls[r][k]) && 0 <= i < candidates(g, ls[r][k], upward, pos).len()
            ==> in_layers_before(ls, r, #[trigger] candidates(g, ls[r][k], upward, pos)[i])
}

/// Node `v` shares its root with one of its median neighbours.
pub open spec fn median_linked(
    g: &Graph,
    upward: bool,
    pos: Map<NodeIndex, usize>,
    root: Map<NodeIndex, NodeIndex>,
    v: NodeIndex,
) -> bool {
    exists|w: NodeIndex| #[trigger] median_of(candidates(g, v, upward, pos), w) && root.dom().contains(w) && root[w] == root[v]
}

/// Every node that joined the block of another node joined it through one
/// of its median neighbours: it has the root of such a neighbour.
pub open spec fn aligned_by_median(g: &Graph, upward: bool, pos: Map<NodeIndex, usize>, root: Map<NodeIndex, NodeIndex>) -> bool {
    forall|v: NodeIndex| root.dom().contains(v) && root[v] != v ==> #[trigger] median_linked(g, upward, pos, root, v)
}

/// Slot `(q, j)` comes before slot `(r, k)` in the order of the alignment.
pub open spec fn slot_done(r: int, k: int, q: int, j: int) -> bool {
    q < r || (q == r && j < k)
}

/// The real node `v` stands in a slot before `(r, k)`.
pub open spec fn done_node(ls: Seq<Seq<NodeIndex>>, r: int, k: int, v: NodeIndex) -> bool {
    exists|q: int, j: int| 0 <= q < ls.len() && 0 <= j < ls[q].len() && slot_done(r, k, q, j) && #[trigger] ls[q][j] == v && !ph(v)
}

/// The roots before slot `(r, k)` is aligned: every positioned node has a
/// root, the real nodes of later slots are their own roots, and every node
/// of another root stands in an earlier slot and shares a median
/// neighbour's root.
pub open spec fn median_inv(
    g: &Graph,
    ls: Seq<Seq<NodeIndex>>,
    upward: bool,
    pos: Map<NodeIndex, usize>,
    root: Map<NodeIndex, NodeIndex>,
    r: int,
    k: int,
) -> bool {
    &&& forall|x: NodeIndex| pos.dom().contains(x) ==> #[trigger] root.dom().contains(x)
    &&& forall|q: int, j: int|
        0 <= q < ls.len() && 0 <= j < ls[q].len() && !ph(#[trigger] ls[q][j]) && !slot_done(r, k, q, j) ==> root.dom().contains(
            ls[q][j],
        ) && root[ls[q][j]] == ls[q][j]
    &&& forall|v: NodeIndex|
        root.dom().contains(v) && #[trigger] root[v] != v ==> done_node(ls, r, k, v) && median_linked(g, upward, pos, root, v)
}

proof fn lemma_keep_in(pos: Map<NodeIndex, usize>, s: Seq<NodeIndex>)
    ensures
        forall|i: int| 0 <= i < keep(pos, s).len() ==> pos.dom().contains(#[trigger] keep(pos, s)[i]),
    decreases s.len(),
{
    if s.len() > 0 {
        lemma_keep_in(pos, s.drop_last());
        let t = keep(pos, s.drop_last());
        assert forall|i: int| 0 <= i < keep(pos, s).len() implies pos.dom().contains(#[trigger] keep(pos, s)[i]) by {
            if i < t.len() {
                assert(keep(pos, s)[i] == t[i]);
            }
        }
    }
}

proof fn lemma_insert_by_pos_in(pos: Map<NodeIndex, usize>, s: Seq<NodeIndex>, x: NodeIndex)
    requires
        forall|i: int| 0 <= i < s.len() ==> pos.dom().contains(#[trigger] s[i]),
        pos.dom().contains(x),
    ensures
        forall|i: int| 0 <= i < insert_by_pos(pos, s, x).len() ==> pos.dom().contains(#[trigger] insert_by_pos(pos, s, x)[i]),
    decreases s.len(),
{
    if s.len() > 0 && !(pos[s.last()] <= pos[x]) {
        let d = s.drop_last();
        assert forall|i: int| 0 <= i < d.len() implies pos.dom().contains(#[trigger] d[i]) by {
            assert(d[i] == s[i]);
        }
        lemma_insert_by_pos_in(pos, d, x);
        let t = insert_by_pos(pos, d, x);
        assert forall|i: int| 0 <= i < insert_by_pos(pos, s, x).len() implies pos.dom().contains(
            #[trigger] insert_by_pos(pos, s, x)[i],
        ) by {
            if i < t.len() {
                assert(insert_by_pos(pos, s, x)[i] == t[i]);
            } else {
                assert(insert_by_pos(pos, s, x)[i] == s[s.len() - 1]);
            }
        }
    } else if s.len() > 0 {
        assert forall|i: int| 0 <= i < insert_by_pos(pos, s, x).len() implies pos.dom().contains(
            #[trigger] insert_by_pos(pos, s, x)[i],
        ) by {
            if i < s.len() {
                assert(insert_by_pos(pos, s, x)[i] == s[i]);
            }
        }
    }
}

proof fn lemma_sort_in(pos: Map<NodeIndex, usize>, s: Seq<NodeIndex>)
    requires
        forall|i: int| 0 <= i < s.len() ==> pos.dom().contains(#[trigger] s[i]),
    ensures
        forall|i: int| 0 <= i < sort_by_pos(pos, s).len() ==> pos.dom().contains(#[trigger] sort_by_pos(pos, s)[i]),
    decreases s.len(),
{
    if s.len() > 0 {
        let d = s.drop_last();
        assert forall|i: int| 0 <= i < d.len() implies pos.dom().contains(#[trigger] d[i]) by {
            assert(d[i] == s[i]);
        }
        lemma_sort_in(pos, d);
        assert(pos.dom().contains(s[s.len() - 1]));
        lemma_insert_by_pos_in(pos, sort_by_pos(pos, d), s.last());
    }
}

/// The neighbours a node may be aligned with all have a position.
proof fn lemma_candidates_positioned(g: &Graph, v: NodeIndex, upward: bool, pos: Map<NodeIndex, usize>)
    ensures
        forall|i: int| 0 <= i < candidates(g, v, upward, pos).len() ==> pos.dom().contains(#[trigger] candidates(g, v, upward, pos)[i]),
{
    lemma_keep_in(pos, neighbours(g, v, upward));
    lemma_sort_in(pos, keep(pos, neighbours(g, v, upward)));
}

proof fn lemma_pos_layer_dom(m: Map<NodeIndex, usize>, l: Seq<NodeIndex>, k: int)
    requires
        0 <= k <= l.len(),
    ensures
        forall|x: NodeIndex| m.dom().contains(x) ==> #[trigger] pos_layer(m, l, k).dom().contains(x),
        forall|j: int| 0 <= j < k && !ph(#[trigger] l[j]) ==> pos_layer(m, l, k).dom().contains(l[j]),
    decreases k,
{
    if k > 0 {
        lemma_pos_layer_dom(m, l, k - 1);
        assert forall|x: NodeIndex| m.dom().contains(x) implies #[trigger] pos_layer(m, l, k).dom().contains(x) by {
            assert(pos_layer(m, l, k - 1).dom().contains(x));
        }
    }
}

/// Every real node of the first `r` layers has a position.
proof fn lemma_pos_layers_cover(ls: Seq<Seq<NodeIndex>>, r: int)
    requires
        0 <= r <= ls.len(),
    ensures
        forall|q: int, j: int| 0 <= q < r && 0 <= j < ls[q].len() && !ph(#[trigger] ls[q][j]) ==> pos_layers(ls, r).dom().contains(ls[q][j]),
    decreases r,
{
    if r > 0 {
        lemma_pos_layers_cover(ls, r - 1);
        lemma_pos_layer_dom(pos_layers(ls, r - 1), ls[r - 1], ls[r - 1].len() as int);
    }
}

/// Trying the candidates `i..=end` changes the root of `v` alone, and
/// either leaves it or gives it the root of one of those candidates.
proof fn lemma_try_range_root(
    st: AlignState,
    v: NodeIndex,
    ws: Seq<NodeIndex>,
    pos: Map<NodeIndex, usize>,
    cv: Map<(NodeIndex, NodeIndex), ConflictType>,
    i: int,
    end: int,
)
    requires
        forall|t: int| i <= t <= end && 0 <= t < ws.len() ==> #[trigger] ws[t] != v && st.0.dom().contains(ws[t]),
    ensures
        forall|y: NodeIndex| st.0.dom().contains(y) ==> #[trigger] try_range(st, v, ws, pos, cv, i, end).0.dom().contains(y),
        forall|y: NodeIndex| y != v ==> (#[trigger] try_range(st, v, ws, pos, cv, i, end).0.dom().contains(y) == st.0.dom().contains(y))
            && try_range(st, v, ws, pos, cv, i, end).0[y] == st.0[y],
        ({
            let r = try_range(st, v, ws, pos, cv, i, end).0;
            (r.dom().contains(v) == st.0.dom().contains(v) && r[v] == st.0[v]) || exists|t: int|
                i <= t <= end && 0 <= t < ws.len() && r.dom().contains(v) && r[v] == st.0[#[trigger] ws[t]]
        }),
    decreases end + 1 - i,
{
    if !(i > end || i < 0 || i >= ws.len()) {
        let st1 = try_align(st, v, ws[i], pos, cv);
        assert(ws[i] != v && st.0.dom().contains(ws[i]));
        lemma_try_range_root(st1, v, ws, pos, cv, i + 1, end);
        let r = try_range(st1, v, ws, pos, cv, i + 1, end).0;
        assert(r == try_range(st, v, ws, pos, cv, i, end).0);
        if r.dom().contains(v) == st1.0.dom().contains(v) && r[v] == st1.0[v] {
            if st1.0 != st.0 {
                assert(st1.0[v] == st.0[ws[i]]);
                assert(r.dom().contains(v));
            }
        } else {
            let t = choose|t: int| i + 1 <= t <= end && 0 <= t < ws.len() && r.dom().contains(v) && r[v] == st1.0[#[trigger] ws[t]];
            assert(st1.0[ws[t]] == st.0[ws[t]]);
        }
    }
}

/// Aligning slot `(r, k)` keeps the median invariant.
proof fn lemma_median_step(
    g: &Graph,
    ls: Seq<Seq<NodeIndex>>,
    upward: bool,
    pos: Map<NodeIndex, usize>,
    cv: Map<(NodeIndex, NodeIndex), ConflictType>,
    st: AlignState,
    r: int,
    k: int,
)
    requires
        proper_for_alignment(g, ls, upward),
        pos == pos_layers(ls, ls.len() as int),
        0 <= r < ls.len(),
        0 <= k < ls[r].len(),
        median_inv(g, ls, upward, pos, st.0, r, k),
    ensures
        median_inv(g, ls, upward, pos, align_node(st, g, ls[r][k], upward, pos, cv).0, r, k + 1),
{
    let x = ls[r][k];
    let ws = candidates(g, x, upward, pos);
    let root = st.0;
    let st2 = align_node(st, g, x, upward, pos, cv);
    let root2 = st2.0;
    assert forall|q: int, j: int| 0 <= q < ls.len() && 0 <= j < ls[q].len() && slot_done(r, k, q, j) implies slot_done(r, k + 1, q, j) by {}
    if ph(x) || ws.len() == 0 {
        assert(root2 == root);
        assert forall|q: int, j: int|
            0 <= q < ls.len() && 0 <= j < ls[q].len() && !ph(#[trigger] ls[q][j]) && !slot_done(r, k + 1, q, j) implies root2.dom().contains(
            ls[q][j],
        ) && root2[ls[q][j]] == ls[q][j] by {
            assert(!slot_done(r, k, q, j));
        }
        assert forall|v: NodeIndex| root2.dom().contains(v) && #[trigger] root2[v] != v implies done_node(ls, r, k + 1, v)
            && median_linked(g, upward, pos, root2, v) by {
            let (q, j) = choose|q: int, j: int| 0 <= q < ls.len() && 0 <= j < ls[q].len() && slot_done(r, k, q, j) && #[trigger] ls[q][j] == v && !ph(v);
            assert(slot_done(r, k + 1, q, j));
        }
    } else {
        lemma_candidates_positioned(g, x, upward, pos);
        let lo = (ws.len() - 1) / 2;
        let hi = (ws.len() / 2) as int;
        assert forall|t: int| lo <= t <= hi && 0 <= t < ws.len() implies #[trigger] ws[t] != x && root.dom().contains(ws[t]) by {
            assert(pos.dom().contains(ws[t]));
            assert(in_layers_before(ls, r, ws[t]));
            let (q, j) = choose|q: int, j: int| 0 <= q < r && 0 <= j < ls[q].len() && #[trigger] ls[q][j] == ws[t];
            assert(ls[r][k] != ls[q][j]);
        }
        lemma_try_range_root(st, x, ws, pos, cv, lo, hi);
        assert(st2 == try_range(st, x, ws, pos, cv, lo, hi));
        assert forall|y: NodeIndex| pos.dom().contains(y) implies #[trigger] root2.dom().contains(y) by {
            assert(root.dom().contains(y));
        }
        assert forall|q: int, j: int|
            0 <= q < ls.len() && 0 <= j < ls[q].len() && !ph(#[trigger] ls[q][j]) && !slot_done(r, k + 1, q, j) implies root2.dom().contains(
            ls[q][j],
        ) && root2[ls[q][j]] == ls[q][j] by {
            assert(!slot_done(r, k, q, j));
            assert(q != r || j != k);
            assert(ls[q][j] != ls[r][k]);
        }
        assert forall|v: NodeIndex| root2.dom().contains(v) && #[trigger] root2[v] != v implies done_node(ls, r, k + 1, v)
            && median_linked(g, upward, pos, root2, v) by {
            if v == x {
                assert(ls[r][k] == v);
                assert(slot_done(r, k + 1, r, k));
                assert(root.dom().contains(x) && root[x] == x);
                let t = choose|t: int| lo <= t <= hi && 0 <= t < ws.len() && root2.dom().contains(x) && root2[x] == root[#[trigger] ws[t]];
                assert(ws[t] != x);
                assert(median_of(ws, ws[t]));
                assert(try_range(st, x, ws, pos, cv, lo, hi).0.dom().contains(ws[t]) == root.dom().contains(ws[t]));
                assert(root2[ws[t]] == root[ws[t]]);
                assert(!ph(x));
            } else {
                assert(root.dom().contains(v) && root[v] == root2[v]);
                assert(try_range(st, x, ws, pos, cv, lo, hi).0.dom().contains(v) == root.dom().contains(v));
                let (q, j) = choose|q: int, j: int| 0 <= q < ls.len() && 0 <= j < ls[q].len() && slot_done(r, k, q, j) && #[trigger] ls[q][j] == v && !ph(v);
                assert(slot_done(r, k + 1, q, j));
                let w = choose|w: NodeIndex| #[trigger] median_of(candidates(g, v, upward, pos), w) && root.dom().contains(w) && root[w] == root[v];
                let cs = candidates(g, v, upward, pos);
                let ti: int = if w == cs[(cs.len() - 1) / 2] { (cs.len() - 1) / 2 } else { (cs.len() / 2) as int };
                assert(cs[ti] == w);
                assert(in_layers_before(ls, q, cs[ti]));
                let (q2, j2) = choose|q2: int, j2: int| 0 <= q2 < q && 0 <= j2 < ls[q2].len() && #[trigger] ls[q2][j2] == w;
                assert(ls[r][k] != ls[q2][j2]);
                assert(w != x);
                assert(try_range(st, x, ws, pos, cv, lo, hi).0.dom().contains(w) == root.dom().contains(w));
                assert(root2.dom().contains(w) && root2[w] == root[w]);
            }
        }
    }
}

proof fn lemma_median_layer(
    g: &Graph,
    ls: Seq<Seq<NodeIndex>>,
    upward: bool,
    pos: Map<NodeIndex, usize>,
    cv: Map<(NodeIndex, NodeIndex), ConflictType>,
    st: AlignState,
    r: int,
    k: int,
)
    requires
        proper_for_alignment(g, ls, upward),
        pos == pos_layers(ls, ls.len() as int),
        0 <= r < ls.len(),
        0 <= k <= ls[r].len(),
        median_inv(g, ls, upward, pos, st.0, r, k),
    ensures
        median_inv(g, ls, upward, pos, align_layer(st, g, ls[r], k, upward, pos, cv).0, r, ls[r].len() as int),
    decreases ls[r].len() - k,
{
    if k < ls[r].len() {
        lemma_median_step(g, ls, upward, pos, cv, st, r, k);
        lemma_median_layer(g, ls, upward, pos, cv, align_node(st, g, ls[r][k], upward, pos, cv), r, k + 1);
    }
}

proof fn lemma_median_layers(
    g: &Graph,
    ls: Seq<Seq<NodeIndex>>,
    upward: bool,
    pos: Map<NodeIndex, usize>,
    cv: Map<(NodeIndex, NodeIndex), ConflictType>,
    root: Map<NodeIndex, NodeIndex>,
    align: Map<NodeIndex, NodeIndex>,
    r: int,
)
    requires
        proper_for_alignment(g, ls, upward),
        pos == pos_layers(ls, ls.len() as int),
        0 <= r <= ls.len(),
        median_inv(g, ls, upward, pos, root, r, 0),
    ensures
        aligned_by_median(g, upward, pos, align_layers(root, align, g, ls, r, upward, pos, cv).0),
    decreases ls.len() - r,
{
    if r < ls.len() {
        let st = align_layer((root, align, -1i32), g, ls[r], 0, upward, pos, cv);
        lemma_median_layer(g, ls, upward, pos, cv, (root, align, -1i32), r, 0);
        let m = st.0;
        assert forall|q: int, j: int| 0 <= q < ls.len() && 0 <= j < ls[q].len() implies slot_done(r, ls[r].len() as int, q, j)
            == slot_done(r + 1, 0, q, j) by {}
        assert forall|v: NodeIndex| m.dom().contains(v) && #[trigger] m[v] != v implies done_node(ls, r + 1, 0, v)
            && median_linked(g, upward, pos, m, v) by {
            let (q, j) = choose|q: int, j: int|
                0 <= q < ls.len() && 0 <= j < ls[q].len() && slot_done(r, ls[r].len() as int, q, j) && #[trigger] ls[q][j] == v && !ph(v);
            assert(slot_done(r + 1, 0, q, j));
        }
        assert(median_inv(g, ls, upward, pos, m, r + 1, 0));
        lemma_median_layers(g, ls, upward, pos, cv, st.0, st.1, r + 1);
    } else {
        assert forall|v: NodeIndex| root.dom().contains(v) && root[v] != v implies #[trigger] median_linked(g, upward, pos, root, v) by {
            assert(root[v] != v);
        }
    }
}

/// In the alignment of a layering where no real node stands twice and
/// every neighbour lies in an earlier layer, a node that is not the root
/// of its block has the root of one of its median neighbours.
pub proof fn lemma_alignment_by_medians(
    g: &Graph,
    ls: Seq<Seq<NodeIndex>>,
    upward: bool,
    cv: Map<(NodeIndex, NodeIndex), ConflictType>,
)
    requires
        proper_for_alignment(g, ls, upward),
    ensures
        aligned_by_median(g, upward, pos_layers(ls, ls.len() as int), vertical_alignment_spec(g, ls, upward, cv).0),
{
    let pos = pos_layers(ls, ls.len() as int);
    let root = identity_on(pos);
    lemma_pos_layers_cover(ls, ls.len() as int);
    assert forall|v: NodeIndex| root.dom().contains(v) && #[trigger] root[v] != v implies done_node(ls, 0, 0, v)
        && median_linked(g, upward, pos, root, v) by {}
    assert(median_inv(g, ls, upward, pos, root, 0, 0));
    lemma_median_layers(g, ls, upward, pos, cv, root, identity_on(pos), 0);
}

/// The keys of the entries `s`, in order.
pub open spec fn keys_of(s: Seq<(NodeIndex, NodeIndex)>) -> Seq<NodeIndex> {
    s.map_values(|e: (NodeIndex, NodeIndex)| e.0)
}

/// `ks` with `v` appended unless it is there already.
pub open spec fn with_key(ks: Seq<NodeIndex>, v: NodeIndex) -> Seq<NodeIndex> {
    if ks.contains(v) {
        ks
    } else {
        ks.push(v)
    }
}

/// `ks` followed by the real nodes of `l[0..k]` met for the first time.
pub open spec fn layer_keys(ks: Seq<NodeIndex>, l: Seq<NodeIndex>, k: int) -> Seq<NodeIndex>
    decreases k,
{
    if k <= 0 {
        ks
    } else {
        let p = layer_keys(ks, l, k - 1);
        if ph(l[k - 1]) {
            p
        } else {
            with_key(p, l[k - 1])
        }
    }
}

/// The real nodes of the first `r` layers of `ls`, each once, in the order
/// they are first met.
pub open spec fn layers_keys(ls: Seq<Seq<NodeIndex>>, r: int) -> Seq<NodeIndex>
    decreases r,
{
    if r <= 0 {
        Seq::empty()
    } else {
        layer_keys(layers_keys(ls, r - 1), ls[r - 1], ls[r - 1].len() as int)
    }
}

proof fn lemma_has_key_keys(s: Seq<(NodeIndex, NodeIndex)>, k: NodeIndex)
    ensures
        has_key(s, k) == keys_of(s).contains(k),
{
    if has_key(s, k) {
        let i = choose|i: int| 0 <= i < s.len() && #[trigger] s[i].0 == k;
        assert(keys_of(s)[i] == k);
    }
    if keys_of(s).contains(k) {
        let i = choose|i: int| 0 <= i < keys_of(s).len() && keys_of(s)[i] == k;
        assert(s[i].0 == k);
    }
}

proof fn lemma_inserted_keys(s: Seq<(NodeIndex, NodeIndex)>, k: NodeIndex, v: NodeIndex)
    ensures
        keys_of(inserted(s, k, v)) == with_key(keys_of(s), k),
{
    lemma_has_key_keys(s, k);
    if has_key(s, k) {
        let p = key_pos(s, k);
        assert(keys_of(inserted(s, k, v)) =~= keys_of(s));
    } else {
        assert(keys_of(inserted(s, k, v)) =~= keys_of(s).push(k));
    }
}

/// Computes `vertical_alignment_spec` for `layering`, with the conflicts
/// recorded in `conflicts`.
pub(crate) fn align_vertically(
    graph: &Graph,
    conflicts: &IndexMap<(NodeIndex, NodeIndex), ConflictType>,
    layering: &[Vec<NodeIndex>],
    upward: bool,
) -> (r: Alignment)
    requires
        graph.wf(),
        keys_unique(conflict_entries(*conflicts)),
        layering_of_graph(graph, layer_seqs(layering@)),
    ensures
        keys_unique(node_pair_entries(r.root)),
        keys_unique(node_pair_entries(r.align)),
        (r.root_view(), r.align_view()) == vertical_alignment_spec(
            graph,
            layer_seqs(layering@),
            upward,
            entry_map(conflict_entries(*conflicts)),
        ),
        r.root_keys() == layers_keys(layer_seqs(layering@), layering@.len() as int),
        r.align_keys() == layers_keys(layer_seqs(layering@), layering@.len() as int),
        proper_for_alignment(graph, layer_seqs(layering@), upward) ==> aligned_by_median(
            graph,
            upward,
            pos_layers(layer_seqs(layering@), layering@.len() as int),
            r.root_view(),
        ),
{
    let ghost ls = layer_seqs(layering@);
    let ghost cv = entry_map(conflict_entries(*conflicts));
    let mut root = node_map_new();
    let mut align = node_map_new();
    let mut pos = pos_map_new();
    proof {
        assert(entry_map(node_pos_entries(pos)) =~= pos_layers(ls, 0));
        assert(entry_map(node_pair_entries(root)) =~= identity_on(pos_layers(ls, 0)));
        assert(entry_map(node_pair_entries(align)) =~= identity_on(pos_layers(ls, 0)));
        assert(keys_of(node_pair_entries(root)) =~= layers_keys(ls, 0));
        assert(keys_of(node_pair_entries(align)) =~= layers_keys(ls, 0));
    }
    let nl = layering.len();
    let mut r: usize = 0;
    while r < nl
        invariant
            nl == layering@.len(),
            ls == layer_seqs(layering@),
            r <= nl,
            keys_unique(node_pos_entries(pos)),
            keys_unique(node_pair_entries(root)),
            keys_unique(node_pair_entries(align)),
            entry_map(node_pos_entries(pos)) == pos_layers(ls, r as int),
            entry_map(node_pair_entries(root)) == identity_on(pos_layers(ls, r as int)),
            entry_map(node_pair_entries(align)) == identity_on(pos_layers(ls, r as int)),
            keys_of(node_pair_entries(root)) == layers_keys(ls, r as int),
            keys_of(node_pair_entries(align)) == layers_keys(ls, r as int),
        decreases nl - r,
    {
        let layer = &layering[r];
        proof {
            assert(ls[r as int] == layer@);
        }
        let mut k: usize = 0;
        while k < layer.len()
            invariant
                nl == layering@.len(),
                ls == layer_seqs(layering@),
                r < nl,
                ls[r as int] == layer@,
                k <= layer@.len(),
                keys_unique(node_pos_entries(pos)),
                keys_unique(node_pair_entries(root)),
                keys_unique(node_pair_entries(align)),
                entry_map(node_pos_entries(pos)) == pos_layer(pos_layers(ls, r as int), ls[r as int], k as int),
                entry_map(node_pair_entries(root)) == identity_on(pos_layer(pos_layers(ls, r as int), ls[r as int], k as int)),
                entry_map(node_pair_entries(align)) == identity_on(pos_layer(pos_layers(ls, r as int), ls[r as int], k as int)),
                keys_of(node_pair_entries(root)) == layer_keys(layers_keys(ls, r as int), ls[r as int], k as int),
                keys_of(node_pair_entries(align)) == layer_keys(layers_keys(ls, r as int), ls[r as int], k as int),
            decreases layer@.len() - k,
        {
            let v = layer[k];
            if !is_placeholder(v) {
                let ghost pm = entry_map(node_pos_entries(pos));
                proof {
                    lemma_inserted(node_pos_entries(pos), v, k);
                    lemma_inserted(node_pair_entries(root), v, v);
                    lemma_inserted(node_pair_entries(align), v, v);
                    lemma_inserted_keys(node_pair_entries(root), v, v);
                    lemma_inserted_keys(node_pair_entries(align), v, v);
                    assert(identity_on(pm).insert(v, v) =~= identity_on(pm.insert(v, k)));
                }
                pos_map_insert(&mut pos, v, k);
                node_map_insert(&mut root, v, v);
                node_map_insert(&mut align, v, v);
            }
            k += 1;
        }
        r += 1;
    }
    let ghost pm = entry_map(node_pos_entries(pos));
    let ghost fin = vertical_alignment_spec(graph, ls, upward, cv);
    let ghost keys = layers_keys(ls, nl as int);
    proof {
        assert(pm == pos_layers(ls, ls.len() as int));
        assert forall|x: NodeIndex| pm.dom().contains(x) implies keys.contains(x) by {
            assert(entry_map(node_pair_entries(root)).dom().contains(x));
            lemma_has_key_keys(node_pair_entries(root), x);
        }
    }
    let mut r: usize = 0;
    while r < nl
        invariant
            graph.wf(),
            nl == layering@.len(),
            ls == layer_seqs(layering@),
            layering_of_graph(graph, ls),
            r <= nl,
            cv == entry_map(conflict_entries(*conflicts)),
            keys_unique(conflict_entries(*conflicts)),
            keys_unique(node_pos_entries(pos)),
            keys_unique(node_pair_entries(root)),
            keys_unique(node_pair_entries(align)),
            pm == entry_map(node_pos_entries(pos)),
            keys_of(node_pair_entries(root)) == keys,
            keys_of(node_pair_entries(align)) == keys,
            forall|x: NodeIndex| pm.dom().contains(x) ==> keys.contains(x),
            align_layers(entry_map(node_pair_entries(root)), entry_map(node_pair_entries(align)), graph, ls, r as int, upward, pm, cv) == fin,
        decreases nl - r,
    {
        let layer = &layering[r];
        proof {
            assert(ls[r as int] == layer@);
        }
        let mut prev_idx: i32 = -1;
        let mut k: usize = 0;
        while k < layer.len()
            invariant
                graph.wf(),
                nl == layering@.len(),
                ls == layer_seqs(layering@),
                layering_of_graph(graph, ls),
                r < nl,
                ls[r as int] == layer@,
                k <= layer@.len(),
                cv == entry_map(conflict_entries(*conflicts)),
                keys_unique(conflict_entries(*conflicts)),
                keys_unique(node_pos_entries(pos)),
                keys_unique(node_pair_entries(root)),
                keys_unique(node_pair_entries(align)),
                pm == entry_map(node_pos_entries(pos)),
                keys_of(node_pair_entries(root)) == keys,
                keys_of(node_pair_entries(align)) == keys,
                forall|x: NodeIndex| pm.dom().contains(x) ==> keys.contains(x),
                ({
                    let st = align_layer(
                        (entry_map(node_pair_entries(root)), entry_map(node_pair_entries(align)), prev_idx),
                        graph,
                        ls[r as int],
                        k as int,
                        upward,
                        pm,
                        cv,
                    );
                    align_layers(st.0, st.1, graph, ls, r + 1, upward, pm, cv)
                }) == fin,
            decreases layer@.len() - k,
        {
            let v = layer[k];
            let ghost st0: AlignState = (entry_map(node_pair_entries(root)), entry_map(node_pair_entries(align)), prev_idx);
            if !is_placeholder(v) {
                proof {
                    assert(ls[r as int][k as int] == v);
                }
                let nb = if upward {
                    graph.predecessors(v)
                } else {
                    graph.successors(v)
                };
                let ws0 = keep_positioned(&pos, &nb);
                let ws = sort_positioned(&pos, &ws0);
                let n = ws.len();
                if n > 0 {
                    let start = (n - 1) / 2;
                    let end = n / 2;
                    let mut i: usize = start;
                    while i <= end
                        invariant
                            n == ws@.len(),
                            n > 0,
                            start == (n - 1) / 2,
                            end == n / 2,
                            start <= i <= end + 1,
                            !ph(v),
                            cv == entry_map(conflict_entries(*conflicts)),
                            keys_unique(conflict_entries(*conflicts)),
                            keys_unique(node_pos_entries(pos)),
                            keys_unique(node_pair_entries(root)),
                            keys_unique(node_pair_entries(align)),
                            pm == entry_map(node_pos_entries(pos)),
                            keys_of(node_pair_entries(root)) == keys,
                            keys_of(node_pair_entries(align)) == keys,
                            forall|x: NodeIndex| pm.dom().contains(x) ==> keys.contains(x),
                            forall|t: int| 0 <= t < ws@.len() ==> pm.dom().contains(#[trigger] ws@[t]),
                            try_range(
                                (entry_map(node_pair_entries(root)), entry_map(node_pair_entries(align)), prev_idx),
                                v,
                                ws@,
                                pm,
                                cv,
                                i as int,
                                end as int,
                            ) == try_range(st0, v, ws@, pm, cv, start as int, end as int),
                        decreases end + 1 - i,
                    {
                        let w = ws[i];
                        proof {
                            assert(pm.dom().contains(ws@[i as int]));
                        }
                        let pw: usize = match pos_map_get(&pos, &w) {
                            Some(x) => x,
                            None => 0,
                        };
                        let aligned_to_self = match node_map_get(&align, &v) {
                            Some(x) => x == v,
                            None => false,
                        };
                        let key = if v.node_index > w.node_index {
                            (w, v)
                        } else {
                            (v, w)
                        };
                        let ghost st_cur: AlignState = (entry_map(node_pair_entries(root)), entry_map(node_pair_entries(align)), prev_idx);
                        if aligned_to_self && prev_idx < pw as i32 && !conflict_map_contains_key(conflicts, &key) {
                            let rw = match node_map_get(&root, &w) {
                                Some(x) => x,
                                None => w,
                            };
                            proof {
                                lemma_inserted(node_pair_entries(align), w, v);
                                lemma_has_key_keys(node_pair_entries(align), w);
                                lemma_has_key_keys(node_pair_entries(align), v);
                                lemma_inserted_keys(node_pair_entries(align), w, v);
                            }
                            node_map_insert(&mut align, w, v);
                            proof {
                                lemma_inserted(node_pair_entries(align), v, rw);
                                lemma_inserted_keys(node_pair_entries(align), v, rw);
                                lemma_has_key_keys(node_pair_entries(root), v);
                            }
                            node_map_insert(&mut align, v, rw);
                            proof {
                                lemma_inserted(node_pair_entries(root), v, rw);
                                lemma_inserted_keys(node_pair_entries(root), v, rw);
                            }
                            node_map_insert(&mut root, v, rw);
                            prev_idx = pw as i32;
                        }
                        proof {
                            assert(key == conflict_key(v, w));
                            assert((entry_map(node_pair_entries(root)), entry_map(node_pair_entries(align)), prev_idx) == try_align(st_cur, v, w, pm, cv));
                        }
                        i += 1;
                    }
                }
                proof {
                    assert(ws@ == candidates(graph, v, upward, pm));
                    assert((entry_map(node_pair_entries(root)), entry_map(node_pair_entries(align)), prev_idx) == align_node(st0, graph, v, upward, pm, cv));
                }
            }
            k += 1;
        }
        r += 1;
    }
    proof {
        if proper_for_alignment(graph, ls, upward) {
            lemma_alignment_by_medians(graph, ls, upward, cv);
        }
    }
    Alignment { root, align }
}

/// The root of `v` in the root entries `s`: its own when it has none.
pub open spec fn root_in(s: Seq<(NodeIndex, NodeIndex)>, v: NodeIndex) -> NodeIndex {
    if has_key(s, v) {
        s[key_pos(s, v)].1
    } else {
        v
    }
}

/// The last real node among the first `k` of layer `l`.
pub open spec fn last_real(l: Seq<NodeIndex>, k: int) -> Option<NodeIndex>
    decreases k,
{
    if k <= 0 {
        None
    } else if !ph(l[k - 1]) {
        Some(l[k - 1])
    } else {
        last_real(l, k - 1)
    }
}

/// The pairs of neighbouring real nodes among the first `k` of layer `l`
/// whose blocks differ, left node first.
pub open spec fn layer_block_pairs(s: Seq<(NodeIndex, NodeIndex)>, l: Seq<NodeIndex>, k: int) -> Seq<(NodeIndex, NodeIndex)>
    decreases k,
{
    if k <= 0 {
        Seq::empty()
    } else {
        let p = layer_block_pairs(s, l, k - 1);
        let v = l[k - 1];
        if ph(v) {
            p
        } else {
            match last_real(l, k - 1) {
                None => p,
                Some(u) => if root_in(s, u) != root_in(s, v) {
                    p.push((u, v))
                } else {
                    p
                },
            }
        }
    }
}

/// The pairs of neighbouring real nodes in different blocks, layer by
/// layer over the first `r` layers: the edges of the block graph.
pub open spec fn block_pairs(s: Seq<(NodeIndex, NodeIndex)>, ls: Seq<Seq<NodeIndex>>, r: int) -> Seq<(NodeIndex, NodeIndex)>
    decreases r,
{
    if r <= 0 {
        Seq::empty()
    } else {
        block_pairs(s, ls, r - 1) + layer_block_pairs(s, ls[r - 1], ls[r - 1].len() as int)
    }
}

/// The roots of the real nodes among the first `k` of `l`, each once, in
/// the order they first come, after those of `acc`.
pub open spec fn roots_from(s: Seq<(NodeIndex, NodeIndex)>, acc: Seq<NodeIndex>, l: Seq<NodeIndex>, k: int) -> Seq<NodeIndex>
    decreases k,
{
    if k <= 0 {
        acc
    } else {
        let p = roots_from(s, acc, l, k - 1);
        let v = l[k - 1];
        if ph(v) || p.contains(root_in(s, v)) {
            p
        } else {
            p.push(root_in(s, v))
        }
    }
}

/// The blocks of the first `r` layers: the roots of their real nodes, each
/// once, in the order they first come.
pub open spec fn block_roots_spec(s: Seq<(NodeIndex, NodeIndex)>, ls: Seq<Seq<NodeIndex>>, r: int) -> Seq<NodeIndex>
    decreases r,
{
    if r <= 0 {
        Seq::empty()
    } else {
        roots_from(s, block_roots_spec(s, ls, r - 1), ls[r - 1], ls[r - 1].len() as int)
    }
}

/// The root of `v` in the alignment.
fn root_of(align: &Alignment, v: NodeIndex) -> (r: NodeIndex)
    ensures
        r == root_in(node_pair_entries(align.root), v),
{
    match node_map_get(&align.root, &v) {
        Some(x) => x,
        None => v,
    }
}

/// The edges of the block graph of `align` over `layering`: each pair of
/// neighbouring real nodes of a layer whose blocks differ, left node first,
/// layer by layer.
pub fn block_graph_edges(layering: &Vec<Vec<NodeIndex>>, align: &Alignment) -> (r: Vec<(NodeIndex, NodeIndex)>)
    ensures
        r@ == block_pairs(node_pair_entries(align.root), layer_seqs(layering@), layering@.len() as int),
{
    let ghost s = node_pair_entries(align.root);
    let ghost ls = layer_seqs(layering@);
    let mut out: Vec<(NodeIndex, NodeIndex)> = Vec::new();
    let mut i: usize = 0;
    while i < layering.len()
        invariant
            i <= layering@.len(),
            s == node_pair_entries(align.root),
            ls == layer_seqs(layering@),
            out@ == block_pairs(s, ls, i as int),
        decreases layering@.len() - i,
    {
        let layer = &layering[i];
        let ghost base = out@;
        let mut u: Option<NodeIndex> = None;
        let mut k: usize = 0;
        proof {
            assert(ls[i as int] == layer@);
        }
        while k < layer.len()
            invariant
                k <= layer@.len(),
                s == node_pair_entries(align.root),
                out@ == base + layer_block_pairs(s, layer@, k as int),
                u == last_real(layer@, k as int),
            decreases layer@.len() - k,
        {
            let v = layer[k];
            let ghost before = out@;
            if !is_placeholder(v) {
                if let Some(un) = u {
                    let ru = root_of(align, un);
                    let rv = root_of(align, v);
                    if ru != rv {
                        out.push((un, v));
                    }
                }
                u = Some(v);
            }
            proof {
                assert(out@ =~= base + layer_block_pairs(s, layer@, k + 1));
            }
            k += 1;
        }
        proof {
            assert(out@ =~= block_pairs(s, ls, i + 1));
        }
        i += 1;
    }
    out
}

/// The blocks of `align` over `layering`: the roots of the real nodes,
/// each once, in the order they first come.
pub fn block_roots(layering: &Vec<Vec<NodeIndex>>, align: &Alignment) -> (r: Vec<NodeIndex>)
    ensures
        r@ == block_roots_spec(node_pair_entries(align.root), layer_seqs(layering@), layering@.len() as int),
{
    let ghost s = node_pair_entries(align.root);
    let ghost ls = layer_seqs(layering@);
    let mut out: Vec<NodeIndex> = Vec::new();
    let mut i: usize = 0;
    while i < layering.len()
        invariant
            i <= layering@.len(),
            s == node_pair_entries(align.root),
            ls == layer_seqs(layering@),
            out@ == block_roots_spec(s, ls, i as int),
        decreases layering@.len() - i,
    {
        let layer = &layering[i];
        let ghost base = out@;
        let mut k: usize = 0;
        proof {
            assert(ls[i as int] == layer@);
        }
        while k < layer.len()
            invariant
                k <= layer@.len(),
                s == node_pair_entries(align.root),
                out@ == roots_from(s, base, layer@, k as int),
            decreases layer@.len() - k,
        {
            let v = layer[k];
            if !is_placeholder(v) {
                let rv = root_of(align, v);
                let mut seen = false;
                let mut q: usize = 0;
                while q < out.len()
                    invariant
                        q <= out@.len(),
                        seen == exists|j: int| 0 <= j < q && out@[j] == rv,
                    decreases out@.len() - q,
                {
                    if out[q] == rv {
                        seen = true;
                    }
                    q += 1;
                }
                proof {
                    if seen {
                        let j = choose|j: int| 0 <= j < q && out@[j] == rv;
                        assert(out@.contains(rv));
                    } else {
                        assert(!out@.contains(rv));
                    }
                }
                if !seen {
                    out.push(rv);
                }
            }
            k += 1;
        }
        i += 1;
    }
    out
}

} // verus!
