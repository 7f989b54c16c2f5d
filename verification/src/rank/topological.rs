//! A topological order by repeatedly taking a node all of whose
//! predecessors were taken.
use vstd::prelude::*;
use crate::graph::{Graph, incident, lemma_incident_contains, lemma_incident_index};
use crate::index_map::keys_unique;
use crate::order::init_order::{unseen, lemma_unseen_set};
use crate::types::{Edge, EdgeLabel, NodeIndex};

verus! {

/// `r` lists nodes of `g`, each once, and every edge into a listed node
/// comes from a node listed before it.
pub open spec fn topologically_listed(g: &Graph, r: Seq<NodeIndex>) -> bool {
    &&& forall|i: int| 0 <= i < r.len() ==> g.contains_node(#[trigger] r[i])
    &&& forall|a: int, b: int| 0 <= a < b < r.len() ==> #[trigger] r[a] != #[trigger] r[b]
    &&& forall|j: int, e: Edge|
        0 <= j < r.len() && #[trigger] g.in_edges_spec(r[j]).contains(e) ==> exists|i: int|
            0 <= i < j && #[trigger] r[i] == e.source
}

/// How many of the edges `es` are not in `done`.
pub open spec fn pending(es: Seq<Edge>, done: Set<Edge>) -> nat
    decreases es.len(),
{
    if es.len() == 0 {
        0
    } else {
        pending(es.drop_last(), done) + if done.contains(es.last()) { 0nat } else { 1nat }
    }
}

/// `s` holds no edge twice.
pub open spec fn no_repeats(s: Seq<Edge>) -> bool {
    forall|a: int, b: int| 0 <= a < b < s.len() ==> s[a] != s[b]
}

proof fn lemma_incident_no_repeats(s: Seq<(Edge, EdgeLabel)>, v: NodeIndex, out: bool)
    requires
        keys_unique(s),
    ensures
        no_repeats(incident(s, v, out)),
    decreases s.len(),
{
    if s.len() > 0 {
        let t = s.drop_first();
        assert(keys_unique(t)) by {
            assert forall|i: int, j: int| 0 <= i < t.len() && 0 <= j < t.len() && i != j implies t[i].0 != t[j].0 by {
                assert(t[i] == s[i + 1] && t[j] == s[j + 1]);
            }
        }
        lemma_incident_no_repeats(t, v, out);
        let e = s[0].0;
        let rest = incident(t, v, out);
        if (out && e.source == v) || (!out && e.target == v) {
            assert(!rest.contains(e)) by {
                lemma_incident_contains(t, v, out, e);
                if rest.contains(e) {
                    let i = choose|i: int| 0 <= i < t.len() && #[trigger] t[i].0 == e;
                    assert(s[i + 1].0 == s[0].0);
                }
            }
            assert forall|a: int, b: int| 0 <= a < b < rest.push(e).len() implies rest.push(e)[a] != rest.push(e)[b] by {
                if b == rest.len() {
                    assert(rest.push(e)[a] == rest[a]);
                }
            }
        }
    }
}

proof fn lemma_pending_insert(es: Seq<Edge>, done: Set<Edge>, e: Edge)
    requires
        no_repeats(es),
    ensures
        es.contains(e) && !done.contains(e) ==> pending(es, done.insert(e)) + 1 == pending(es, done),
        !es.contains(e) || done.contains(e) ==> pending(es, done.insert(e)) == pending(es, done),
    decreases es.len(),
{
    if es.len() > 0 {
        let t = es.drop_last();
        assert(no_repeats(t));
        lemma_pending_insert(t, done, e);
        if es.last() == e {
            assert(!t.contains(e)) by {
                if t.contains(e) {
                    let i = choose|i: int| 0 <= i < t.len() && t[i] == e;
                    assert(es[i] == es[es.len() - 1]);
                }
            }
        } else {
            assert(es.contains(e) == t.contains(e)) by {
                if es.contains(e) {
                    let i = choose|i: int| 0 <= i < es.len() && es[i] == e;
                    assert(t[i] == e);
                }
                if t.contains(e) {
                    let i = choose|i: int| 0 <= i < t.len() && t[i] == e;
                    assert(es[i] == e);
                }
            }
        }
    }
}

proof fn lemma_pending_zero(es: Seq<Edge>, done: Set<Edge>)
    requires
        pending(es, done) == 0,
    ensures
        forall|e: Edge| es.contains(e) ==> done.contains(e),
    decreases es.len(),
{
    if es.len() > 0 {
        lemma_pending_zero(es.drop_last(), done);
        assert forall|e: Edge| es.contains(e) implies done.contains(e) by {
            let i = choose|i: int| 0 <= i < es.len() && es[i] == e;
            if i < es.len() - 1 {
                assert(es.drop_last()[i] == e);
            }
        }
    }
}

proof fn lemma_pending_pos(es: Seq<Edge>, done: Set<Edge>)
    requires
        pending(es, done) > 0,
    ensures
        exists|e: Edge| es.contains(e) && !done.contains(e),
    decreases es.len(),
{
    if es.len() > 0 {
        let t = es.drop_last();
        if done.contains(es.last()) {
            lemma_pending_pos(t, done);
            let e = choose|e: Edge| t.contains(e) && !done.contains(e);
            let i = choose|i: int| 0 <= i < t.len() && t[i] == e;
            assert(es[i] == e);
        } else {
            assert(es[es.len() - 1] == es.last());
        }
    }
}

proof fn lemma_pending_empty(es: Seq<Edge>)
    ensures
        pending(es, Set::empty()) == es.len(),
    decreases es.len(),
{
    if es.len() > 0 {
        lemma_pending_empty(es.drop_last());
    }
}

/// The edges of `g` leaving a node of `vs`.
pub open spec fn edges_from(g: &Graph, vs: Seq<NodeIndex>) -> Set<Edge> {
    Set::new(|e: Edge| g.has_edge_spec(e) && vs.contains(e.source))
}

/// The nodes taken in turn: first those without in-edges, in node order,
/// then each node as soon as every edge into it comes from a node taken
/// before, in the order the edges out of the taken nodes reach them. Nodes
/// on or behind a cycle are never taken: a node is left out exactly when
/// an edge into it comes from a node left out.
pub fn topological_sort(graph: &Graph) -> (r: Vec<NodeIndex>)
    requires
        graph.wf(),
    ensures
        topologically_listed(graph, r@),
        forall|x: int|
            0 <= x < graph.n() && !r@.contains(#[trigger] graph.node_at(x)) ==> exists|e: Edge|
                graph.in_edges_spec(graph.node_at(x)).contains(e) && !r@.contains(e.source),
{
    let n = graph.node_count();
    let nodes = graph.node_indices();
    let mut in_degree: Vec<usize> = Vec::new();
    let mut queue: Vec<NodeIndex> = Vec::new();
    let ghost mut done: Set<Edge> = Set::empty();
    let ghost mut pushed: Seq<bool> = Seq::empty();
    let mut i: usize = 0;
    while i < n
        invariant
            graph.wf(),
            pushed.len() == i,
            forall|x: int| 0 <= x < i ==> #[trigger] pushed[x] == (in_degree@[x] == 0),
            queue@.len() + unseen(pushed) == i,
            n == graph.n(),
            nodes@.len() == n,
            forall|k: int| 0 <= k < n ==> #[trigger] nodes@[k] == graph.node_at(k),
            i <= n,
            in_degree@.len() == i,
            done == Set::<Edge>::empty(),
            forall|x: int| 0 <= x < i ==> #[trigger] in_degree@[x] == pending(graph.in_edges_spec(graph.node_at(x)), done),
            forall|k: int| 0 <= k < queue@.len() ==> graph.contains_node(#[trigger] queue@[k]) && queue@[k].node_index < i,
            forall|x: int| 0 <= x < i ==> (queue@.contains(graph.node_at(x)) <==> #[trigger] in_degree@[x] == 0),
            forall|a: int, b: int| 0 <= a < b < queue@.len() ==> #[trigger] queue@[a] != #[trigger] queue@[b],
            forall|q: int| 0 <= q < queue@.len() ==> graph.in_edges_spec(#[trigger] queue@[q]).len() == 0,
        decreases n - i,
    {
        let v = nodes[i];
        let d = graph.in_edges(v).len();
        proof {
            lemma_pending_empty(graph.in_edges_spec(v));
        }
        in_degree.push(d);
        let ghost q0 = queue@;
        if d == 0 {
            proof {
                assert forall|a: int, b: int| 0 <= a < b < queue@.push(v).len() implies #[trigger] queue@.push(v)[a]
                    != #[trigger] queue@.push(v)[b] by {
                    if b == queue@.len() {
                        assert(queue@.push(v)[a] == queue@[a]);
                    } else {
                        assert(queue@.push(v)[a] == queue@[a] && queue@.push(v)[b] == queue@[b]);
                    }
                }
            }
            queue.push(v);
        }
        proof {
            let p0 = pushed;
            pushed = pushed.push(d == 0);
            assert(pushed.drop_last() =~= p0);
            assert(queue@ == if d == 0 { q0.push(v) } else { q0 });
            assert forall|x: int| 0 <= x < i + 1 implies (queue@.contains(graph.node_at(x)) <==> #[trigger] in_degree@[x] == 0) by {
                let y = graph.node_at(x);
                if x == i {
                    assert(y == v);
                    if d == 0 {
                        assert(queue@[q0.len() as int] == v);
                    } else if queue@.contains(y) {
                        let k = choose|k: int| 0 <= k < queue@.len() && queue@[k] == y;
                        assert(q0[k].node_index < i);
                    }
                } else {
                    assert(y != v);
                    if d == 0 {
                        if queue@.contains(y) {
                            let k = choose|k: int| 0 <= k < queue@.len() && queue@[k] == y;
                            assert(k < q0.len());
                            assert(q0[k] == y);
                        }
                        if q0.contains(y) {
                            let k = choose|k: int| 0 <= k < q0.len() && q0[k] == y;
                            assert(queue@[k] == y);
                        }
                    }
                }
            }
            assert forall|k: int| 0 <= k < queue@.len() implies graph.contains_node(#[trigger] queue@[k]) && queue@[k].node_index < i + 1 by {
                if k < q0.len() {
                    assert(queue@[k] == q0[k]);
                }
            }
        }
        i += 1;
    }
    let mut head: usize = 0;
    while head < queue.len()
        invariant
            graph.wf(),
            n == graph.n(),
            in_degree@.len() == n,
            head <= queue@.len(),
            pushed.len() == n,
            forall|x: int| 0 <= x < n ==> #[trigger] pushed[x] == (in_degree@[x] == 0),
            queue@.len() + unseen(pushed) == n,
            done == edges_from(graph, queue@.take(head as int)),
            forall|x: int| 0 <= x < n ==> #[trigger] in_degree@[x] == pending(graph.in_edges_spec(graph.node_at(x)), done),
            forall|k: int| 0 <= k < queue@.len() ==> graph.contains_node(#[trigger] queue@[k]),
            forall|x: int| 0 <= x < n ==> (queue@.contains(graph.node_at(x)) <==> #[trigger] in_degree@[x] == 0),
            forall|a: int, b: int| 0 <= a < b < queue@.len() ==> #[trigger] queue@[a] != #[trigger] queue@[b],
            forall|q: int, e: Edge|
                0 <= q < queue@.len() && #[trigger] graph.in_edges_spec(queue@[q]).contains(e) ==> exists|i: int|
                    0 <= i < q && #[trigger] queue@[i] == e.source,
        decreases n - head,
    {
        let u = queue[head];
        let ghost before = queue@.take(head as int);
        head += 1;
        let outs = graph.out_edges(u);
        proof {
            lemma_incident_no_repeats(graph.entries(), u, true);
            crate::rank::network_simplex::lemma_incident_facts(graph, u);
        }
        let mut j: usize = 0;
        while j < outs.len()
            invariant
                graph.wf(),
                n == graph.n(),
                in_degree@.len() == n,
                outs@ == graph.out_edges_spec(u),
                no_repeats(outs@),
                forall|k: int| 0 <= k < outs@.len() ==> graph.has_edge_spec(#[trigger] outs@[k]) && outs@[k].source == u,
                1 <= head <= queue@.len(),
                pushed.len() == n,
                forall|x: int| 0 <= x < n ==> #[trigger] pushed[x] == (in_degree@[x] == 0),
                queue@.len() + unseen(pushed) == n,
                u == queue@[head - 1],
                before == queue@.take(head - 1),
                !before.contains(u),
                done == edges_from(graph, before) + outs@.take(j as int).to_set(),
                j <= outs@.len(),
                forall|x: int| 0 <= x < n ==> #[trigger] in_degree@[x] == pending(graph.in_edges_spec(graph.node_at(x)), done),
                forall|k: int| 0 <= k < queue@.len() ==> graph.contains_node(#[trigger] queue@[k]),
                forall|x: int| 0 <= x < n ==> (queue@.contains(graph.node_at(x)) <==> #[trigger] in_degree@[x] == 0),
                forall|a: int, b: int| 0 <= a < b < queue@.len() ==> #[trigger] queue@[a] != #[trigger] queue@[b],
                forall|q: int, e: Edge|
                    0 <= q < queue@.len() && #[trigger] graph.in_edges_spec(queue@[q]).contains(e) ==> exists|i: int|
                        0 <= i < q && #[trigger] queue@[i] == e.source,
            decreases outs@.len() - j,
        {
            let e = outs[j];
            let s = e.target;
            proof {
                let k = choose|k: int| 0 <= k < graph.entries().len() && #[trigger] graph.entries()[k].0 == e;
                assert(graph.contains_node(graph.entries()[k].0.source));
                assert(graph.contains_node(graph.entries()[k].0.target));
                lemma_incident_no_repeats(graph.entries(), s, false);
                lemma_incident_contains(graph.entries(), s, false, e);
                assert(graph.in_edges_spec(s).contains(e));
                assert(!done.contains(e)) by {
                    if edges_from(graph, before).contains(e) {
                        assert(before.contains(u));
                    }
                    if outs@.take(j as int).to_set().contains(e) {
                        let a = choose|a: int| 0 <= a < outs@.take(j as int).len() && #[trigger] outs@.take(j as int)[a] == e;
                        assert(outs@[a] == outs@[j as int]);
                    }
                }
                lemma_pending_insert(graph.in_edges_spec(s), done, e);
                assert forall|x: int| 0 <= x < n && graph.node_at(x) != s implies pending(graph.in_edges_spec(graph.node_at(x)), done.insert(e))
                    == pending(graph.in_edges_spec(graph.node_at(x)), done) by {
                    lemma_incident_no_repeats(graph.entries(), graph.node_at(x), false);
                    lemma_incident_contains(graph.entries(), graph.node_at(x), false, e);
                    lemma_pending_insert(graph.in_edges_spec(graph.node_at(x)), done, e);
                }
                assert(graph.node_at(s.node_index as int) == s);
            }
            let d = in_degree[s.node_index] - 1;
            in_degree.set(s.node_index, d);
            proof {
                done = done.insert(e);
                assert(outs@.take(j + 1).to_set() =~= outs@.take(j as int).to_set().insert(e)) by {
                    let t0 = outs@.take(j as int);
                    let t1 = outs@.take(j + 1);
                    assert(t1 =~= t0.push(e));
                    assert forall|x: Edge| t1.contains(x) <==> (t0.contains(x) || x == e) by {
                        if t1.contains(x) {
                            let a = choose|a: int| 0 <= a < t1.len() && t1[a] == x;
                            if a < t0.len() {
                                assert(t0[a] == x);
                            }
                        }
                        if t0.contains(x) {
                            let a = choose|a: int| 0 <= a < t0.len() && t0[a] == x;
                            assert(t1[a] == x);
                        }
                        if x == e {
                            assert(t1[j as int] == e);
                        }
                    }
                }
                assert(done =~= edges_from(graph, before) + outs@.take(j + 1).to_set());
            }
            let ghost q0 = queue@;
            if d == 0 {
                proof {
                    lemma_pending_zero(graph.in_edges_spec(s), done);
                    assert(!queue@.contains(s));
                    assert forall|e2: Edge| #[trigger] graph.in_edges_spec(s).contains(e2) implies exists|i: int|
                        0 <= i < queue@.len() && #[trigger] queue@[i] == e2.source by {
                        assert(done.contains(e2));
                        if edges_from(graph, before).contains(e2) {
                            let i = choose|i: int| 0 <= i < before.len() && before[i] == e2.source;
                            assert(queue@[i] == e2.source);
                        } else {
                            assert(outs@.take(j + 1).to_set().contains(e2));
                            assert(outs@.take(j + 1).contains(e2));
                            let a = choose|a: int| 0 <= a < outs@.take(j + 1).len() && #[trigger] outs@.take(j + 1)[a] == e2;
                            assert(outs@[a].source == u);
                            assert(queue@[head - 1] == e2.source);
                        }
                    }
                    assert(!pushed[s.node_index as int]);
                    lemma_unseen_set(pushed, s.node_index as int);
                    assert forall|a: int, b: int| 0 <= a < b < queue@.push(s).len() implies #[trigger] queue@.push(s)[a]
                        != #[trigger] queue@.push(s)[b] by {
                        if b == queue@.len() {
                            assert(queue@.push(s)[a] == queue@[a]);
                        } else {
                            assert(queue@.push(s)[a] == queue@[a] && queue@.push(s)[b] == queue@[b]);
                        }
                    }
                }
                queue.push(s);
                proof {
                    pushed = pushed.update(s.node_index as int, true);
                    assert forall|q: int, e2: Edge|
                        0 <= q < queue@.len() && #[trigger] graph.in_edges_spec(queue@[q]).contains(e2) implies exists|i: int|
                            0 <= i < q && #[trigger] queue@[i] == e2.source by {
                        if q < q0.len() {
                            assert(queue@[q] == q0[q]);
                            assert(graph.in_edges_spec(q0[q]).contains(e2));
                            let i = choose|i: int| 0 <= i < q && #[trigger] q0[i] == e2.source;
                            assert(queue@[i] == q0[i]);
                        } else {
                            assert(queue@[q] == s);
                            assert(exists|i: int| 0 <= i < q0.len() && #[trigger] q0[i] == e2.source);
                            let i = choose|i: int| 0 <= i < q0.len() && #[trigger] q0[i] == e2.source;
                            assert(queue@[i] == q0[i]);
                        }
                    }
                }
            }
            proof {
                assert forall|x: int| 0 <= x < n implies #[trigger] in_degree@[x] == pending(graph.in_edges_spec(graph.node_at(x)), done) by {
                    if graph.node_at(x) == s {
                        assert(x == s.node_index);
                    }
                }
                assert(queue@ == if d == 0 { q0.push(s) } else { q0 });
                assert forall|x: int| 0 <= x < n implies (queue@.contains(graph.node_at(x)) <==> #[trigger] in_degree@[x] == 0) by {
                    let y = graph.node_at(x);
                    if x == s.node_index {
                        assert(y == s);
                        if d == 0 {
                            assert(queue@[q0.len() as int] == s);
                        }
                    } else {
                        assert(y != s);
                        if d == 0 {
                            if queue@.contains(y) {
                                let k = choose|k: int| 0 <= k < queue@.len() && queue@[k] == y;
                                assert(k < q0.len());
                                assert(q0[k] == y);
                            }
                            if q0.contains(y) {
                                let k = choose|k: int| 0 <= k < q0.len() && q0[k] == y;
                                assert(queue@[k] == y);
                            }
                        }
                    }
                }
            }
            j += 1;
        }
        proof {
            assert(outs@.take(outs@.len() as int) =~= outs@);
            assert(done =~= edges_from(graph, queue@.take(head as int))) by {
                assert(queue@.take(head as int) =~= before.push(u));
                assert forall|e: Edge| done.contains(e) <==> edges_from(graph, queue@.take(head as int)).contains(e) by {
                    lemma_incident_contains(graph.entries(), u, true, e);
                    let bp = before.push(u);
                    assert(bp.contains(e.source) <==> (before.contains(e.source) || e.source == u)) by {
                        if bp.contains(e.source) {
                            let a = choose|a: int| 0 <= a < bp.len() && bp[a] == e.source;
                            if a < before.len() {
                                assert(before[a] == e.source);
                            }
                        }
                        if before.contains(e.source) {
                            let a = choose|a: int| 0 <= a < before.len() && before[a] == e.source;
                            assert(bp[a] == e.source);
                        }
                        if e.source == u {
                            assert(bp[before.len() as int] == u);
                        }
                    }
                    if outs@.contains(e) {
                        let a = choose|a: int| 0 <= a < outs@.len() && outs@[a] == e;
                        assert(graph.has_edge_spec(outs@[a]));
                    }
                }
            }
        }
    }
    proof {
        assert(queue@.take(head as int) =~= queue@);
        assert forall|x: int|
            0 <= x < graph.n() && !queue@.contains(#[trigger] graph.node_at(x)) implies exists|e: Edge|
                graph.in_edges_spec(graph.node_at(x)).contains(e) && !queue@.contains(e.source) by {
            let v = graph.node_at(x);
            assert(in_degree@[x] != 0);
            lemma_pending_pos(graph.in_edges_spec(v), done);
            let e = choose|e: Edge| graph.in_edges_spec(v).contains(e) && !done.contains(e);
            lemma_incident_contains(graph.entries(), v, false, e);
            assert(graph.has_edge_spec(e));
            assert(!queue@.contains(e.source));
        }
    }
    queue
}

} // verus!
