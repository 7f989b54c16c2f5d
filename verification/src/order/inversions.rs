//! Counting crossings between two layers by counting inversions with a
//! merge sort: once the edges are sorted by their upper end, two edges
//! cross exactly when their lower ends are out of order.
use vstd::prelude::*;
use vstd::multiset::Multiset;
use vstd::seq_lib::{lemma_multiset_commutative, to_multiset_build, to_multiset_contains, to_multiset_len, to_multiset_remove};
use crate::graph::Graph;
use crate::types::{Edge, NodeIndex};

verus! {

/// How many elements of `t` are greater than `x`.
pub open spec fn greater_count(t: Seq<usize>, x: usize) -> int
    decreases t.len(),
{
    if t.len() == 0 {
        0
    } else {
        greater_count(t.drop_last(), x) + if t.last() > x { 1int } else { 0int }
    }
}

/// The number of pairs of positions `i < j` of `s` with `s[i] > s[j]`.
pub open spec fn inversions(s: Seq<usize>) -> int
    decreases s.len(),
{
    if s.len() == 0 {
        0
    } else {
        inversions(s.drop_last()) + greater_count(s.drop_last(), s.last())
    }
}

/// The number of pairs of an element of `a` and a later element of `b`
/// (all of `b` coming after all of `a`) that are out of order.
pub open spec fn cross_inversions(a: Seq<usize>, b: Seq<usize>) -> int
    decreases b.len(),
{
    if b.len() == 0 {
        0
    } else {
        cross_inversions(a, b.drop_last()) + greater_count(a, b.last())
    }
}

/// `s` is in ascending order.
pub open spec fn ascending(s: Seq<usize>) -> bool {
    forall|i: int, j: int| 0 <= i <= j < s.len() ==> s[i] <= s[j]
}

proof fn lemma_greater_count_concat(a: Seq<usize>, b: Seq<usize>, x: usize)
    ensures
        greater_count(a + b, x) == greater_count(a, x) + greater_count(b, x),
    decreases b.len(),
{
    if b.len() == 0 {
        assert(a + b =~= a);
    } else {
        assert((a + b).drop_last() =~= a + b.drop_last());
        lemma_greater_count_concat(a, b.drop_last(), x);
    }
}

proof fn lemma_greater_count_bounds(a: Seq<usize>, x: usize)
    ensures
        0 <= greater_count(a, x) <= a.len(),
    decreases a.len(),
{
    if a.len() > 0 {
        lemma_greater_count_bounds(a.drop_last(), x);
    }
}

/// The inversions of a concatenation: those of each part and those
/// across.
proof fn lemma_inversions_concat(a: Seq<usize>, b: Seq<usize>)
    ensures
        inversions(a + b) == inversions(a) + inversions(b) + cross_inversions(a, b),
    decreases b.len(),
{
    if b.len() == 0 {
        assert(a + b =~= a);
    } else {
        let b1 = b.drop_last();
        assert((a + b).drop_last() =~= a + b1);
        assert((a + b).last() == b.last());
        lemma_inversions_concat(a, b1);
        lemma_greater_count_concat(a, b1, b.last());
    }
}

proof fn lemma_greater_count_remove(t: Seq<usize>, k: int, x: usize)
    requires
        0 <= k < t.len(),
    ensures
        greater_count(t, x) == greater_count(t.remove(k), x) + if t[k] > x { 1int } else { 0int },
{
    assert(t =~= t.subrange(0, k) + seq![t[k]] + t.subrange(k + 1, t.len() as int));
    assert(t.remove(k) =~= t.subrange(0, k) + t.subrange(k + 1, t.len() as int));
    lemma_greater_count_concat(t.subrange(0, k) + seq![t[k]], t.subrange(k + 1, t.len() as int), x);
    lemma_greater_count_concat(t.subrange(0, k), seq![t[k]], x);
    lemma_greater_count_concat(t.subrange(0, k), t.subrange(k + 1, t.len() as int), x);
    assert(seq![t[k]].drop_last() =~= Seq::<usize>::empty());
    assert(seq![t[k]].last() == t[k]);
    assert(greater_count(Seq::<usize>::empty(), x) == 0);
    assert(greater_count(seq![t[k]], x) == if t[k] > x { 1int } else { 0int });
}

/// Counting greater elements sees only the multiset of elements.
proof fn lemma_greater_count_perm(t: Seq<usize>, u: Seq<usize>, x: usize)
    requires
        t.to_multiset() == u.to_multiset(),
    ensures
        greater_count(t, x) == greater_count(u, x),
    decreases t.len(),
{
    broadcast use vstd::multiset::group_multiset_axioms;
    to_multiset_len(t);
    to_multiset_len(u);
    if t.len() > 0 {
        let y = t.last();
        let t1 = t.drop_last();
        assert(t =~= t1.push(y));
        to_multiset_build(t1, y);
        to_multiset_contains(u, y);
        assert(u.to_multiset().count(y) > 0);
        assert(u.contains(y));
        let k = choose|k: int| 0 <= k < u.len() && u[k] == y;
        to_multiset_remove(u, k);
        assert(u.remove(k).to_multiset() =~= t1.to_multiset());
        lemma_greater_count_perm(t1, u.remove(k), x);
        lemma_greater_count_remove(u, k, x);
    }
}

proof fn lemma_cross_perm_left(a: Seq<usize>, a2: Seq<usize>, b: Seq<usize>)
    requires
        a.to_multiset() == a2.to_multiset(),
    ensures
        cross_inversions(a, b) == cross_inversions(a2, b),
    decreases b.len(),
{
    if b.len() > 0 {
        lemma_cross_perm_left(a, a2, b.drop_last());
        lemma_greater_count_perm(a, a2, b.last());
    }
}

proof fn lemma_cross_remove(a: Seq<usize>, b: Seq<usize>, k: int)
    requires
        0 <= k < b.len(),
    ensures
        cross_inversions(a, b) == cross_inversions(a, b.remove(k)) + greater_count(a, b[k]),
    decreases b.len(),
{
    if k == b.len() - 1 {
        assert(b.remove(k) =~= b.drop_last());
    } else {
        lemma_cross_remove(a, b.drop_last(), k);
        assert(b.remove(k).drop_last() =~= b.drop_last().remove(k));
        assert(b.remove(k).last() == b.last());
    }
}

proof fn lemma_cross_perm_right(a: Seq<usize>, b: Seq<usize>, b2: Seq<usize>)
    requires
        b.to_multiset() == b2.to_multiset(),
    ensures
        cross_inversions(a, b) == cross_inversions(a, b2),
    decreases b.len(),
{
    broadcast use vstd::multiset::group_multiset_axioms;
    to_multiset_len(b);
    to_multiset_len(b2);
    if b.len() > 0 {
        let y = b.last();
        let b1 = b.drop_last();
        assert(b =~= b1.push(y));
        to_multiset_build(b1, y);
        to_multiset_contains(b2, y);
        assert(b2.to_multiset().count(y) > 0);
        assert(b2.contains(y));
        let k = choose|k: int| 0 <= k < b2.len() && b2[k] == y;
        to_multiset_remove(b2, k);
        assert(b2.remove(k).to_multiset() =~= b1.to_multiset());
        lemma_cross_perm_right(a, b1, b2.remove(k));
        lemma_cross_remove(a, b2, k);
    }
}

proof fn lemma_inversions_bound(s: Seq<usize>)
    ensures
        0 <= inversions(s) <= s.len() * s.len(),
    decreases s.len(),
{
    if s.len() > 0 {
        lemma_inversions_bound(s.drop_last());
        lemma_greater_count_bounds(s.drop_last(), s.last());
        assert((s.len() - 1) * (s.len() - 1) + (s.len() - 1) <= s.len() * s.len()) by (nonlinear_arith)
            requires
                s.len() >= 1,
        ;
    }
}

/// When every element of an ascending `a` from position `i` on exceeds
/// `y` and none before does, `i` elements are not greater than `y`.
proof fn lemma_greater_count_split(a: Seq<usize>, i: int, y: usize)
    requires
        0 <= i <= a.len(),
        forall|k: int| 0 <= k < i ==> a[k] <= y,
        forall|k: int| i <= k < a.len() ==> a[k] > y,
    ensures
        greater_count(a, y) == a.len() - i,
    decreases a.len(),
{
    if a.len() > 0 {
        if i == a.len() {
            lemma_greater_count_split(a.drop_last(), i - 1, y);
        } else {
            lemma_greater_count_split(a.drop_last(), i, y);
        }
    }
}

/// Merges the ascending runs `arr[lo..mid]` and `arr[mid..hi]` into an
/// ascending run and returns how many pairs of a left and a right element
/// were out of order.
fn merge_and_count_inversions(arr: &mut Vec<usize>, lo: usize, mid: usize, hi: usize) -> (r: usize)
    requires
        lo <= mid <= hi <= old(arr)@.len(),
        ascending(old(arr)@.subrange(lo as int, mid as int)),
        ascending(old(arr)@.subrange(mid as int, hi as int)),
        (hi - lo) * (hi - lo) <= usize::MAX,
    ensures
        final(arr)@.len() == old(arr)@.len(),
        r == cross_inversions(old(arr)@.subrange(lo as int, mid as int), old(arr)@.subrange(mid as int, hi as int)),
        ascending(final(arr)@.subrange(lo as int, hi as int)),
        final(arr)@.subrange(lo as int, hi as int).to_multiset() == old(arr)@.subrange(lo as int, hi as int).to_multiset(),
        forall|k: int| 0 <= k < old(arr)@.len() && !(lo <= k < hi) ==> final(arr)@[k] == old(arr)@[k],
{
    broadcast use vstd::multiset::group_multiset_axioms;
    let ghost a0 = arr@;
    let mut left: Vec<usize> = Vec::new();
    let mut right: Vec<usize> = Vec::new();
    let mut x: usize = lo;
    while x < mid
        invariant
            lo <= x <= mid,
            arr@ == a0,
            mid <= a0.len(),
            left@ == a0.subrange(lo as int, x as int),
        decreases mid - x,
    {
        left.push(arr[x]);
        proof {
            assert(a0.subrange(lo as int, x + 1) =~= a0.subrange(lo as int, x as int).push(a0[x as int]));
        }
        x += 1;
    }
    let mut x: usize = mid;
    while x < hi
        invariant
            mid <= x <= hi,
            arr@ == a0,
            hi <= a0.len(),
            right@ == a0.subrange(mid as int, x as int),
        decreases hi - x,
    {
        right.push(arr[x]);
        proof {
            assert(a0.subrange(mid as int, x + 1) =~= a0.subrange(mid as int, x as int).push(a0[x as int]));
        }
        x += 1;
    }
    let ghost lv = left@;
    let ghost rv = right@;
    let mut i: usize = 0;
    let mut j: usize = 0;
    let mut k: usize = lo;
    let mut inv: usize = 0;
    proof {
        lemma_greater_count_bounds(lv, 0);
        assert(rv.take(0) =~= Seq::<usize>::empty());
        assert(lv.take(0) + rv.take(0) =~= Seq::<usize>::empty());
        assert(arr@.subrange(lo as int, lo as int) =~= Seq::<usize>::empty());
    }
    while i < left.len() || j < right.len()
        invariant
            left@ == lv,
            right@ == rv,
            lv == a0.subrange(lo as int, mid as int),
            rv == a0.subrange(mid as int, hi as int),
            ascending(lv),
            ascending(rv),
            lo <= mid <= hi <= a0.len(),
            (hi - lo) * (hi - lo) <= usize::MAX,
            i <= lv.len(),
            j <= rv.len(),
            k == lo + i + j,
            arr@.len() == a0.len(),
            forall|q: int| 0 <= q < a0.len() && !(lo <= q < k) ==> arr@[q] == a0[q],
            arr@.subrange(lo as int, k as int).to_multiset() == (lv.take(i as int) + rv.take(j as int)).to_multiset(),
            ascending(arr@.subrange(lo as int, k as int)),
            k > lo ==> (i < lv.len() ==> arr@[k - 1] <= lv[i as int]) && (j < rv.len() ==> arr@[k - 1] <= rv[j as int]),
            forall|q: int| 0 <= q < i ==> j < rv.len() ==> #[trigger] lv[q] <= rv[j as int],
            inv == cross_inversions(lv, rv.take(j as int)),
            inv <= lv.len() * j,
        decreases lv.len() + rv.len() - i - j,
    {
        let ghost before = arr@;
        let take_left = j >= right.len() || (i < left.len() && left[i] <= right[j]);
        if take_left {
            arr.set(k, left[i]);
            proof {
                assert(arr@.subrange(lo as int, k + 1) =~= before.subrange(lo as int, k as int).push(lv[i as int]));
                let s1 = before.subrange(lo as int, k as int);
                let s2 = arr@.subrange(lo as int, k + 1);
                assert forall|a: int, b: int| 0 <= a <= b < s2.len() implies s2[a] <= s2[b] by {
                    if b == s1.len() && a < b {
                        assert(s1[a] <= s1[s1.len() - 1]);
                        assert(s1[s1.len() - 1] == before[k - 1]);
                    } else if b < s1.len() {
                        assert(s2[a] == s1[a] && s2[b] == s1[b]);
                    }
                }
                assert(lv.take(i + 1) =~= lv.take(i as int).push(lv[i as int]));
                lemma_multiset_commutative(lv.take(i as int).push(lv[i as int]), rv.take(j as int));
                lemma_multiset_commutative(lv.take(i as int), rv.take(j as int));
                to_multiset_build(lv.take(i as int), lv[i as int]);
                to_multiset_build(before.subrange(lo as int, k as int), lv[i as int]);
                assert(arr@.subrange(lo as int, k + 1).to_multiset() =~= (lv.take(i + 1) + rv.take(j as int)).to_multiset());
            }
            i += 1;
        } else {
            arr.set(k, right[j]);
            proof {
                assert(arr@.subrange(lo as int, k + 1) =~= before.subrange(lo as int, k as int).push(rv[j as int]));
                let s1 = before.subrange(lo as int, k as int);
                let s2 = arr@.subrange(lo as int, k + 1);
                assert forall|a: int, b: int| 0 <= a <= b < s2.len() implies s2[a] <= s2[b] by {
                    if b == s1.len() && a < b {
                        assert(s1[a] <= s1[s1.len() - 1]);
                        assert(s1[s1.len() - 1] == before[k - 1]);
                    } else if b < s1.len() {
                        assert(s2[a] == s1[a] && s2[b] == s1[b]);
                    }
                }
                assert(rv.take(j + 1) =~= rv.take(j as int).push(rv[j as int]));
                assert(rv.take(j + 1).drop_last() =~= rv.take(j as int));
                lemma_multiset_commutative(lv.take(i as int), rv.take(j as int).push(rv[j as int]));
                lemma_multiset_commutative(lv.take(i as int), rv.take(j as int));
                to_multiset_build(rv.take(j as int), rv[j as int]);
                to_multiset_build(before.subrange(lo as int, k as int), rv[j as int]);
                assert(arr@.subrange(lo as int, k + 1).to_multiset() =~= (lv.take(i as int) + rv.take(j + 1)).to_multiset());
                lemma_greater_count_split(lv, i as int, rv[j as int]);
                assert(inv + (lv.len() - i) <= lv.len() * (j + 1)) by (nonlinear_arith)
                    requires
                        inv <= lv.len() * j,
                        i <= lv.len(),
                ;
                assert(lv.len() * (j + 1) <= (hi - lo) * (hi - lo)) by (nonlinear_arith)
                    requires
                        lv.len() <= hi - lo,
                        j + 1 <= hi - lo,
                ;
            }
            inv = inv + (left.len() - i);
            j += 1;
        }
        k += 1;
    }
    proof {
        assert(lv.take(lv.len() as int) =~= lv);
        assert(rv.take(rv.len() as int) =~= rv);
        assert(a0.subrange(lo as int, hi as int) =~= lv + rv);
    }
    inv
}

/// Sorts `arr[lo..hi]` ascending and returns its number of inversions.
fn count_inversions(arr: &mut Vec<usize>, lo: usize, hi: usize) -> (r: usize)
    requires
        lo <= hi <= old(arr)@.len(),
        (hi - lo) * (hi - lo) <= usize::MAX,
    ensures
        final(arr)@.len() == old(arr)@.len(),
        r == inversions(old(arr)@.subrange(lo as int, hi as int)),
        ascending(final(arr)@.subrange(lo as int, hi as int)),
        final(arr)@.subrange(lo as int, hi as int).to_multiset() == old(arr)@.subrange(lo as int, hi as int).to_multiset(),
        forall|k: int| 0 <= k < old(arr)@.len() && !(lo <= k < hi) ==> final(arr)@[k] == old(arr)@[k],
    decreases hi - lo,
{
    let ghost a0 = arr@;
    if hi - lo <= 1 {
        proof {
            let s = a0.subrange(lo as int, hi as int);
            if s.len() == 1 {
                assert(s.drop_last() =~= Seq::<usize>::empty());
                assert(greater_count(Seq::<usize>::empty(), s.last()) == 0);
                assert(inversions(Seq::<usize>::empty()) == 0);
            }
        }
        return 0;
    }
    let mid = lo + (hi - lo) / 2;
    proof {
        assert((mid - lo) * (mid - lo) <= (hi - lo) * (hi - lo)) by (nonlinear_arith)
            requires
                lo <= mid <= hi,
        ;
        assert((hi - mid) * (hi - mid) <= (hi - lo) * (hi - lo)) by (nonlinear_arith)
            requires
                lo <= mid <= hi,
        ;
    }
    let left = count_inversions(arr, lo, mid);
    let ghost a1 = arr@;
    let right = count_inversions(arr, mid, hi);
    let ghost a2 = arr@;
    proof {
        assert(a2.subrange(lo as int, mid as int) =~= a1.subrange(lo as int, mid as int));
        assert(a1.subrange(mid as int, hi as int) =~= a0.subrange(mid as int, hi as int));
    }
    let across = merge_and_count_inversions(arr, lo, mid, hi);
    proof {
        let l0 = a0.subrange(lo as int, mid as int);
        let r0 = a0.subrange(mid as int, hi as int);
        let l1 = a2.subrange(lo as int, mid as int);
        let r1 = a2.subrange(mid as int, hi as int);
        assert(a0.subrange(lo as int, hi as int) =~= l0 + r0);
        assert(a2.subrange(lo as int, hi as int) =~= l1 + r1);
        lemma_inversions_concat(l0, r0);
        lemma_cross_perm_left(l1, l0, r1);
        lemma_cross_perm_right(l0, r1, r0);
        lemma_multiset_commutative(l0, r0);
        lemma_multiset_commutative(l1, r1);
        lemma_inversions_bound(a0.subrange(lo as int, hi as int));
        lemma_inversions_bound(l0);
        lemma_inversions_bound(r0);
        assert forall|k: int| 0 <= k < a0.len() && !(lo <= k < hi) implies arr@[k] == a0[k] by {
            assert(a2[k] == a1[k]);
        }
    }
    left + right + across
}

/// The lower ends of the edges, taken in the order of the edges sorted
/// stably by their upper end.
pub open spec fn lowers_by_upper(edges: Seq<(usize, usize)>) -> Seq<usize> {
    crate::order::layer_sort::stable_sorted(
        edges.map_values(|e: (usize, usize)| (e.0 as u128, e.1)),
        edges.len() as int,
    ).map_values(|p: (u128, usize)| p.1)
}

/// The number of crossings among the edges between two layers, each given
/// by the positions of its ends: after sorting them stably by upper end,
/// the number of inversions of their lower ends.
pub fn count_crossings_by_sorting(edges: &Vec<(usize, usize)>) -> (r: usize)
    requires
        edges@.len() * edges@.len() <= usize::MAX,
    ensures
        r == inversions(lowers_by_upper(edges@)),
{
    if edges.len() <= 1 {
        proof {
            crate::order::layer_sort::lemma_stable_sorted_len(
                edges@.map_values(|e: (usize, usize)| (e.0 as u128, e.1)),
                edges@.len() as int,
            );
            let s = lowers_by_upper(edges@);
            if s.len() == 1 {
                assert(s.drop_last() =~= Seq::<usize>::empty());
                assert(greater_count(Seq::<usize>::empty(), s.last()) == 0);
                assert(inversions(Seq::<usize>::empty()) == 0);
            }
        }
        return 0;
    }
    let mut keyed: Vec<(u128, usize)> = Vec::new();
    let mut i: usize = 0;
    while i < edges.len()
        invariant
            i <= edges@.len(),
            keyed@ == edges@.take(i as int).map_values(|e: (usize, usize)| (e.0 as u128, e.1)),
        decreases edges@.len() - i,
    {
        let e = edges[i];
        keyed.push((e.0 as u128, e.1));
        proof {
            assert(edges@.take(i + 1).map_values(|e: (usize, usize)| (e.0 as u128, e.1)) =~= edges@.take(i as int).map_values(
                |e: (usize, usize)| (e.0 as u128, e.1),
            ).push((e.0 as u128, e.1)));
        }
        i += 1;
    }
    proof {
        assert(edges@.take(edges@.len() as int) =~= edges@);
    }
    let sorted = crate::order::layer_sort::sort_keyed(&keyed);
    proof {
        crate::order::layer_sort::lemma_stable_sorted_len(keyed@, keyed@.len() as int);
    }
    let mut lower_positions: Vec<usize> = Vec::new();
    let mut j: usize = 0;
    while j < sorted.len()
        invariant
            j <= sorted@.len(),
            lower_positions@ == sorted@.take(j as int).map_values(|p: (u128, usize)| p.1),
        decreases sorted@.len() - j,
    {
        lower_positions.push(sorted[j].1);
        proof {
            assert(sorted@.take(j + 1).map_values(|p: (u128, usize)| p.1) =~= sorted@.take(j as int).map_values(
                |p: (u128, usize)| p.1,
            ).push(sorted@[j as int].1));
        }
        j += 1;
    }
    proof {
        assert(sorted@.take(sorted@.len() as int) =~= sorted@);
        assert(lower_positions@.subrange(0, lower_positions@.len() as int) =~= lower_positions@);
    }
    let n = lower_positions.len();
    count_inversions(&mut lower_positions, 0, n)
}

/// The positions `(i, k)` of the edges from `upper[i]` to `lower[k]`,
/// `k < j`, in order of `k`.
pub open spec fn row_pairs(g: &Graph, upper: Seq<NodeIndex>, lower: Seq<NodeIndex>, i: int, j: int) -> Seq<(usize, usize)>
    decreases j,
{
    if j <= 0 {
        Seq::empty()
    } else {
        let prev = row_pairs(g, upper, lower, i, j - 1);
        if g.has_edge_spec(Edge { source: upper[i], target: lower[j - 1] }) {
            prev.push((i as usize, (j - 1) as usize))
        } else {
            prev
        }
    }
}

/// The positions of the edges from the first `i` nodes of `upper` to
/// `lower`, row by row.
pub open spec fn grid_pairs(g: &Graph, upper: Seq<NodeIndex>, lower: Seq<NodeIndex>, i: int) -> Seq<(usize, usize)>
    decreases i,
{
    if i <= 0 {
        Seq::empty()
    } else {
        grid_pairs(g, upper, lower, i - 1) + row_pairs(g, upper, lower, i - 1, lower.len() as int)
    }
}

/// The crossings between `upper` and `lower` counted by sorting.
pub open spec fn sorted_crossings(g: &Graph, upper: Seq<NodeIndex>, lower: Seq<NodeIndex>) -> int {
    inversions(lowers_by_upper(grid_pairs(g, upper, lower, upper.len() as int)))
}

/// The edges between the two layers are few enough that their pairs can
/// be counted in a `usize`.
pub open spec fn pairs_countable(g: &Graph, upper: Seq<NodeIndex>, lower: Seq<NodeIndex>) -> bool {
    let n = grid_pairs(g, upper, lower, upper.len() as int).len();
    n * n <= usize::MAX
}

/// The crossings between the two layers: the edges from `upper` to
/// `lower`, listed by their positions row by row, counted by sorting.
pub fn count_crossings_efficient(graph: &Graph, upper_layer: &Vec<NodeIndex>, lower_layer: &Vec<NodeIndex>) -> (r: usize)
    requires
        pairs_countable(graph, upper_layer@, lower_layer@),
    ensures
        r == sorted_crossings(graph, upper_layer@, lower_layer@),
{
    let ghost up = upper_layer@;
    let ghost lo = lower_layer@;
    let mut edges: Vec<(usize, usize)> = Vec::new();
    let mut i: usize = 0;
    while i < upper_layer.len()
        invariant
            up == upper_layer@,
            lo == lower_layer@,
            i <= up.len(),
            edges@ == grid_pairs(graph, up, lo, i as int),
        decreases up.len() - i,
    {
        let ghost base = edges@;
        let mut j: usize = 0;
        while j < lower_layer.len()
            invariant
                up == upper_layer@,
                lo == lower_layer@,
                i < up.len(),
                j <= lo.len(),
                edges@ == base + row_pairs(graph, up, lo, i as int, j as int),
            decreases lo.len() - j,
        {
            if graph.has_edge(&Edge::new(upper_layer[i], lower_layer[j])) {
                edges.push((i, j));
                proof {
                    assert(base + row_pairs(graph, up, lo, i as int, j + 1) =~= (base + row_pairs(graph, up, lo, i as int, j as int)).push(
                        (i, j),
                    ));
                }
            } else {
                proof {
                    assert(row_pairs(graph, up, lo, i as int, j + 1) == row_pairs(graph, up, lo, i as int, j as int));
                }
            }
            j += 1;
        }
        i += 1;
    }
    count_crossings_by_sorting(&edges)
}

/// The crossings counted by sorting over the first `k` adjacent layer
/// pairs.
pub open spec fn sorted_total(g: &Graph, layers: Seq<Seq<NodeIndex>>, k: int) -> int
    decreases k,
{
    if k <= 0 {
        0
    } else {
        sorted_total(g, layers, k - 1) + sorted_crossings(g, layers[k - 1], layers[k])
    }
}

proof fn lemma_sorted_total_mono(g: &Graph, layers: Seq<Seq<NodeIndex>>, k: int, n: int)
    requires
        0 <= k <= n,
    ensures
        sorted_total(g, layers, k) <= sorted_total(g, layers, n),
    decreases n - k,
{
    if k < n {
        lemma_sorted_total_mono(g, layers, k + 1, n);
        lemma_inversions_bound(lowers_by_upper(grid_pairs(g, layers[k], layers[k + 1], layers[k].len() as int)));
    }
}

/// The crossings of the whole layering, each adjacent pair of layers
/// counted by sorting.
pub fn cross_count_efficient(graph: &Graph, layering: &Vec<Vec<NodeIndex>>) -> (r: usize)
    requires
        forall|k: int| 0 <= k < layering@.len() - 1 ==> pairs_countable(graph, #[trigger] layering@[k]@, layering@[k + 1]@),
        sorted_total(graph, crate::order::cross_count::layers_view(layering@), crate::order::cross_count::pair_count(layering@.len() as int)) <= usize::MAX,
    ensures
        r == sorted_total(graph, crate::order::cross_count::layers_view(layering@), crate::order::cross_count::pair_count(layering@.len() as int)),
{
    let ghost lv = crate::order::cross_count::layers_view(layering@);
    let ghost pairs = crate::order::cross_count::pair_count(layering@.len() as int);
    let mut total_crossings: usize = 0;
    let mut rank: usize = 0;
    while rank < layering.len()
        invariant
            lv == crate::order::cross_count::layers_view(layering@),
            pairs == crate::order::cross_count::pair_count(layering@.len() as int),
            forall|k: int| 0 <= k < layering@.len() - 1 ==> pairs_countable(graph, #[trigger] layering@[k]@, layering@[k + 1]@),
            sorted_total(graph, lv, pairs) <= usize::MAX,
            rank <= layering@.len(),
            total_crossings == sorted_total(graph, lv, if rank < pairs { rank as int } else { pairs }),
        decreases layering@.len() - rank,
    {
        if rank + 1 < layering.len() {
            proof {
                assert(lv[rank as int] == layering@[rank as int]@);
                assert(lv[rank + 1] == layering@[rank + 1]@);
                assert(pairs_countable(graph, layering@[rank as int]@, layering@[rank + 1]@));
                lemma_sorted_total_mono(graph, lv, rank + 1, pairs);
            }
            let c = count_crossings_efficient(graph, &layering[rank], &layering[rank + 1]);
            total_crossings = total_crossings + c;
        }
        rank += 1;
    }
    total_crossings
}

} // verus!
