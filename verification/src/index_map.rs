//! The insertion-ordered maps of the `indexmap` crate, as the graph and the
//! ordering phase use them.
//!
//! An `IndexMap` is modelled by the sequence of its entries in map order.
//! Every item in this file is trusted: its contract restates what the
//! `indexmap` documentation and source promise of the method it calls.
use vstd::prelude::*;
use indexmap::IndexMap;
use crate::types::{Edge, EdgeLabel, NodeIndex};
use crate::position::bk::ConflictType;

verus! {

#[verifier::external_type_specification]
#[verifier::external_body]
#[verifier::reject_recursive_types(K)]
#[verifier::reject_recursive_types(V)]
#[verifier::reject_recursive_types(S)]
pub struct ExIndexMap<K, V, S>(IndexMap<K, V, S>);

/// No key occurs twice among the entries.
pub open spec fn keys_unique<K, V>(s: Seq<(K, V)>) -> bool {
    forall|i: int, j: int|
        #![trigger s[i], s[j]]
        0 <= i < s.len() && 0 <= j < s.len() && i != j ==> s[i].0 != s[j].0
}

/// Some entry has key `k`.
pub open spec fn has_key<K, V>(s: Seq<(K, V)>, k: K) -> bool {
    exists|i: int| 0 <= i < s.len() && #[trigger] s[i].0 == k
}

/// The position of the entry with key `k` (meaningful when `has_key(s, k)`).
pub open spec fn key_pos<K, V>(s: Seq<(K, V)>, k: K) -> int {
    choose|i: int| 0 <= i < s.len() && #[trigger] s[i].0 == k
}

/// The entries of the edge map of a graph, in map order.
pub uninterp spec fn edge_entries(m: IndexMap<Edge, EdgeLabel>) -> Seq<(Edge, EdgeLabel)>;

/// `IndexMap::new`: the new map is empty.
#[verifier::external_body]
pub(crate) fn edge_map_new() -> (m: IndexMap<Edge, EdgeLabel>)
    ensures
        edge_entries(m) == Seq::<(Edge, EdgeLabel)>::empty(),
{
    IndexMap::new()
}

/// `IndexMap::len`: the number of entries.
#[verifier::external_body]
pub(crate) fn edge_map_len(m: &IndexMap<Edge, EdgeLabel>) -> (r: usize)
    ensures
        r == edge_entries(*m).len(),
{
    m.len()
}

/// A key of the edge map with a reference to its value.
pub type EdgeEntryRef<'a> = (Edge, &'a EdgeLabel);

/// `IndexMap::get_index`: the entry at position `i`, if there is one.
#[verifier::external_body]
pub(crate) fn edge_map_get_index<'a>(m: &'a IndexMap<Edge, EdgeLabel>, i: usize) -> (r: Option<EdgeEntryRef<'a>>)
    ensures
        r is Some <==> i < edge_entries(*m).len(),
        r matches Some(p) ==> p.0 == edge_entries(*m)[i as int].0 && *p.1 == edge_entries(*m)[i as int].1,
{
    m.get_index(i).map(|(k, v)| (*k, v))
}

/// `IndexMap::get`: the value stored under key `k`, if any.
#[verifier::external_body]
pub(crate) fn edge_map_get<'a>(m: &'a IndexMap<Edge, EdgeLabel>, k: &Edge) -> (r: Option<&'a EdgeLabel>)
    ensures
        r is Some <==> has_key(edge_entries(*m), *k),
        r matches Some(v) ==> *v == edge_entries(*m)[key_pos(edge_entries(*m), *k)].1,
{
    m.get(k)
}

/// `IndexMap::get_mut`: a mutable reference to the value stored under key
/// `k`; the entry keeps its key and its position.
#[verifier::external_body]
pub(crate) fn edge_map_get_mut<'a>(m: &'a mut IndexMap<Edge, EdgeLabel>, k: &Edge) -> (r: Option<&'a mut EdgeLabel>)
    ensures
        has_key(edge_entries(*old(m)), *k) ==> (r matches Some(v)
            && *v == edge_entries(*old(m))[key_pos(edge_entries(*old(m)), *k)].1
            && edge_entries(*final(m)) == edge_entries(*old(m)).update(
                key_pos(edge_entries(*old(m)), *k),
                (*k, *final(v)),
            )),
        !has_key(edge_entries(*old(m)), *k) ==> (r is None && edge_entries(*final(m)) == edge_entries(*old(m))),
{
    m.get_mut(k)
}

/// `IndexMap::insert`: an existing key keeps its position and gets the new
/// value (the old one is returned); a new key is appended.
#[verifier::external_body]
pub(crate) fn edge_map_insert(m: &mut IndexMap<Edge, EdgeLabel>, k: Edge, v: EdgeLabel) -> (r: Option<EdgeLabel>)
    ensures
        has_key(edge_entries(*old(m)), k) ==> (r matches Some(o)
            && o == edge_entries(*old(m))[key_pos(edge_entries(*old(m)), k)].1
            && edge_entries(*final(m)) == edge_entries(*old(m)).update(
                key_pos(edge_entries(*old(m)), k),
                (k, v),
            )),
        !has_key(edge_entries(*old(m)), k) ==> (r is None && edge_entries(*final(m)) == edge_entries(
            *old(m),
        ).push((k, v))),
{
    m.insert(k, v)
}

/// `IndexMap::swap_remove`: the entry with key `k` is replaced by the last
/// entry, which is popped; its value is returned.
#[verifier::external_body]
pub(crate) fn edge_map_swap_remove(m: &mut IndexMap<Edge, EdgeLabel>, k: &Edge) -> (r: Option<EdgeLabel>)
    ensures
        has_key(edge_entries(*old(m)), *k) ==> (r matches Some(o)
            && o == edge_entries(*old(m))[key_pos(edge_entries(*old(m)), *k)].1
            && edge_entries(*final(m)) == edge_entries(*old(m)).update(
                key_pos(edge_entries(*old(m)), *k),
                edge_entries(*old(m)).last(),
            ).drop_last()),
        !has_key(edge_entries(*old(m)), *k) ==> (r is None && edge_entries(*final(m)) == edge_entries(
            *old(m),
        )),
{
    m.swap_remove(k)
}

/// The entries as a map from key to value.
pub open spec fn entry_map<K, V>(s: Seq<(K, V)>) -> Map<K, V> {
    Map::new(|k: K| has_key(s, k), |k: K| s[key_pos(s, k)].1)
}

/// What an insertion does to the entries: an existing key keeps its
/// position and takes the new value, a new key is appended.
pub open spec fn inserted<K, V>(s: Seq<(K, V)>, k: K, v: V) -> Seq<(K, V)> {
    if has_key(s, k) {
        s.update(key_pos(s, k), (k, v))
    } else {
        s.push((k, v))
    }
}

/// Inserting keeps keys unique and updates the map at `k` alone.
pub proof fn lemma_inserted<K, V>(s: Seq<(K, V)>, k: K, v: V)
    requires
        keys_unique(s),
    ensures
        keys_unique(inserted(s, k, v)),
        entry_map(inserted(s, k, v)) == entry_map(s).insert(k, v),
{
    let t = inserted(s, k, v);
    if has_key(s, k) {
        let p = key_pos(s, k);
        assert forall|i: int, j: int|
            0 <= i < t.len() && 0 <= j < t.len() && i != j implies #[trigger] t[i].0 != #[trigger] t[j].0 by {
            assert(s[i].0 != s[j].0);
        }
        assert forall|x: K| #[trigger] has_key(t, x) <==> has_key(s, x) || x == k by {
            if has_key(s, x) {
                let i = choose|i: int| 0 <= i < s.len() && #[trigger] s[i].0 == x;
                assert(t[i].0 == x);
            }
            if has_key(t, x) {
                let i = choose|i: int| 0 <= i < t.len() && #[trigger] t[i].0 == x;
                assert(i == p || s[i].0 == x);
            }
            if x == k {
                assert(t[p].0 == x);
            }
        }
        assert forall|x: K| has_key(t, x) implies #[trigger] t[key_pos(t, x)].1 == entry_map(s).insert(k, v)[x] by {
            let i = key_pos(t, x);
            if x == k {
                assert(t[p].0 == k);
            } else {
                let j = key_pos(s, x);
                assert(t[j].0 == x);
                assert(s[i].0 == x || i == p);
            }
        }
        assert(entry_map(t) =~= entry_map(s).insert(k, v));
    } else {
        assert forall|i: int, j: int|
            0 <= i < t.len() && 0 <= j < t.len() && i != j implies #[trigger] t[i].0 != #[trigger] t[j].0 by {
            if i < s.len() && j < s.len() {
                assert(s[i].0 != s[j].0);
            } else if i < s.len() {
                assert(s[i].0 == t[i].0);
            } else {
                assert(s[j].0 == t[j].0);
            }
        }
        assert forall|x: K| #[trigger] has_key(t, x) <==> has_key(s, x) || x == k by {
            if has_key(s, x) {
                let i = choose|i: int| 0 <= i < s.len() && #[trigger] s[i].0 == x;
                assert(t[i].0 == x);
            }
            if has_key(t, x) {
                let i = choose|i: int| 0 <= i < t.len() && #[trigger] t[i].0 == x;
                if i < s.len() {
                    assert(s[i].0 == x);
                }
            }
            if x == k {
                assert(t[s.len() as int].0 == x);
            }
        }
        assert forall|x: K| has_key(t, x) implies #[trigger] t[key_pos(t, x)].1 == entry_map(s).insert(k, v)[x] by {
            let i = key_pos(t, x);
            if x == k {
                if i < s.len() {
                    assert(s[i].0 == k);
                }
            } else {
                let j = key_pos(s, x);
                assert(t[j].0 == x);
                if i < s.len() {
                    assert(s[i].0 == x);
                }
            }
        }
        assert(entry_map(t) =~= entry_map(s).insert(k, v));
    }
}

/// The entries of a conflict map, in map order.
pub uninterp spec fn conflict_entries(m: IndexMap<(NodeIndex, NodeIndex), ConflictType>) -> Seq<((NodeIndex, NodeIndex), ConflictType)>;

/// `IndexMap::new`: the new map is empty.
#[verifier::external_body]
pub(crate) fn conflict_map_new() -> (m: IndexMap<(NodeIndex, NodeIndex), ConflictType>)
    ensures
        conflict_entries(m) == Seq::<((NodeIndex, NodeIndex), ConflictType)>::empty(),
{
    IndexMap::new()
}

/// `IndexMap::insert`: an existing key keeps its position and gets the new
/// value (the old one is returned); a new key is appended.
#[verifier::external_body]
pub(crate) fn conflict_map_insert(
    m: &mut IndexMap<(NodeIndex, NodeIndex), ConflictType>,
    k: (NodeIndex, NodeIndex),
    v: ConflictType,
) -> (r: Option<ConflictType>)
    ensures
        conflict_entries(*final(m)) == inserted(conflict_entries(*old(m)), k, v),
        has_key(conflict_entries(*old(m)), k) ==> r == Some(conflict_entries(*old(m))[key_pos(conflict_entries(*old(m)), k)].1),
        !has_key(conflict_entries(*old(m)), k) ==> r is None,
{
    m.insert(k, v)
}

/// `IndexMap::contains_key`: whether some entry has key `k`.
#[verifier::external_body]
pub(crate) fn conflict_map_contains_key(m: &IndexMap<(NodeIndex, NodeIndex), ConflictType>, k: &(NodeIndex, NodeIndex)) -> (r: bool)
    ensures
        r == has_key(conflict_entries(*m), *k),
{
    m.contains_key(k)
}

/// The entries of a map from nodes to nodes, in map order.
pub uninterp spec fn node_pair_entries(m: IndexMap<NodeIndex, NodeIndex>) -> Seq<(NodeIndex, NodeIndex)>;

/// `IndexMap::new`: the new map is empty.
#[verifier::external_body]
pub(crate) fn node_map_new() -> (m: IndexMap<NodeIndex, NodeIndex>)
    ensures
        node_pair_entries(m) == Seq::<(NodeIndex, NodeIndex)>::empty(),
{
    IndexMap::new()
}

/// `IndexMap::insert`: an existing key keeps its position and gets the new
/// value (the old one is returned); a new key is appended.
#[verifier::external_body]
pub(crate) fn node_map_insert(m: &mut IndexMap<NodeIndex, NodeIndex>, k: NodeIndex, v: NodeIndex) -> (r: Option<NodeIndex>)
    ensures
        node_pair_entries(*final(m)) == inserted(node_pair_entries(*old(m)), k, v),
        has_key(node_pair_entries(*old(m)), k) ==> r == Some(node_pair_entries(*old(m))[key_pos(node_pair_entries(*old(m)), k)].1),
        !has_key(node_pair_entries(*old(m)), k) ==> r is None,
{
    m.insert(k, v)
}

/// `IndexMap::len`: the number of entries.
#[verifier::external_body]
pub(crate) fn node_map_len(m: &IndexMap<NodeIndex, NodeIndex>) -> (r: usize)
    ensures
        r == node_pair_entries(*m).len(),
{
    m.len()
}

/// `IndexMap::get_index`: the entry at position `i`, if there is one.
#[verifier::external_body]
pub(crate) fn node_map_get_index(m: &IndexMap<NodeIndex, NodeIndex>, i: usize) -> (r: Option<(NodeIndex, NodeIndex)>)
    ensures
        r is Some <==> i < node_pair_entries(*m).len(),
        r matches Some(p) ==> p == node_pair_entries(*m)[i as int],
{
    m.get_index(i).map(|(k, v)| (*k, *v))
}

/// `IndexMap::get`: the value stored under key `k`, if any.
#[verifier::external_body]
pub(crate) fn node_map_get(m: &IndexMap<NodeIndex, NodeIndex>, k: &NodeIndex) -> (r: Option<NodeIndex>)
    ensures
        r is Some <==> has_key(node_pair_entries(*m), *k),
        r matches Some(v) ==> v == node_pair_entries(*m)[key_pos(node_pair_entries(*m), *k)].1,
{
    m.get(k).copied()
}

/// The entries of a map from nodes to positions, in map order.
pub uninterp spec fn node_pos_entries(m: IndexMap<NodeIndex, usize>) -> Seq<(NodeIndex, usize)>;

/// `IndexMap::new`: the new map is empty.
#[verifier::external_body]
pub(crate) fn pos_map_new() -> (m: IndexMap<NodeIndex, usize>)
    ensures
        node_pos_entries(m) == Seq::<(NodeIndex, usize)>::empty(),
{
    IndexMap::new()
}

/// `IndexMap::insert`: an existing key keeps its position and gets the new
/// value (the old one is returned); a new key is appended.
#[verifier::external_body]
pub(crate) fn pos_map_insert(m: &mut IndexMap<NodeIndex, usize>, k: NodeIndex, v: usize) -> (r: Option<usize>)
    ensures
        node_pos_entries(*final(m)) == inserted(node_pos_entries(*old(m)), k, v),
        has_key(node_pos_entries(*old(m)), k) ==> r == Some(node_pos_entries(*old(m))[key_pos(node_pos_entries(*old(m)), k)].1),
        !has_key(node_pos_entries(*old(m)), k) ==> r is None,
{
    m.insert(k, v)
}

/// `IndexMap::get`: the value stored under key `k`, if any.
#[verifier::external_body]
pub(crate) fn pos_map_get(m: &IndexMap<NodeIndex, usize>, k: &NodeIndex) -> (r: Option<usize>)
    ensures
        r is Some <==> has_key(node_pos_entries(*m), *k),
        r matches Some(v) ==> v == node_pos_entries(*m)[key_pos(node_pos_entries(*m), *k)].1,
{
    m.get(k).copied()
}

/// The entries of a constraint map (node to the nodes it must precede),
/// in map order.
pub uninterp spec fn constraint_entries(m: IndexMap<NodeIndex, Vec<NodeIndex>>) -> Seq<(NodeIndex, Seq<NodeIndex>)>;

/// The value stored under `k`, the empty sequence when none.
pub open spec fn targets_of(s: Seq<(NodeIndex, Seq<NodeIndex>)>, k: NodeIndex) -> Seq<NodeIndex> {
    if has_key(s, k) {
        s[key_pos(s, k)].1
    } else {
        Seq::empty()
    }
}

/// `IndexMap::new`: the new map is empty.
#[verifier::external_body]
pub(crate) fn constraint_map_new() -> (m: IndexMap<NodeIndex, Vec<NodeIndex>>)
    ensures
        constraint_entries(m) == Seq::<(NodeIndex, Seq<NodeIndex>)>::empty(),
{
    IndexMap::new()
}

/// `IndexMap::entry(k).or_insert_with(Vec::new)`: a mutable reference to
/// the vector stored under `k`, which is created empty (and appended to the
/// map) when `k` is new; what the caller leaves in it is what the map holds
/// under `k`, at the same place.
#[verifier::external_body]
pub(crate) fn constraint_map_entry<'a>(m: &'a mut IndexMap<NodeIndex, Vec<NodeIndex>>, k: NodeIndex) -> (r: &'a mut Vec<NodeIndex>)
    ensures
        r@ == targets_of(constraint_entries(*old(m)), k),
        constraint_entries(*final(m)) == inserted(constraint_entries(*old(m)), k, final(r)@),
{
    m.entry(k).or_insert_with(Vec::new)
}

/// `IndexMap::get`: the vector stored under `k`, if any.
#[verifier::external_body]
pub(crate) fn constraint_map_get<'a>(m: &'a IndexMap<NodeIndex, Vec<NodeIndex>>, k: &NodeIndex) -> (r: Option<&'a Vec<NodeIndex>>)
    ensures
        r is Some <==> has_key(constraint_entries(*m), *k),
        r matches Some(v) ==> v@ == constraint_entries(*m)[key_pos(constraint_entries(*m), *k)].1,
{
    m.get(k)
}

/// `IndexMap::clear`: the map becomes empty.
#[verifier::external_body]
pub(crate) fn constraint_map_clear(m: &mut IndexMap<NodeIndex, Vec<NodeIndex>>)
    ensures
        constraint_entries(*final(m)) == Seq::<(NodeIndex, Seq<NodeIndex>)>::empty(),
{
    m.clear()
}

/// `IndexMap::is_empty`: whether the map has no entry.
#[verifier::external_body]
pub(crate) fn constraint_map_is_empty(m: &IndexMap<NodeIndex, Vec<NodeIndex>>) -> (r: bool)
    ensures
        r == (constraint_entries(*m).len() == 0),
{
    m.is_empty()
}

} // verus!
