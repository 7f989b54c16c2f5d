//! Cycle detection and cycle breaking by reversing edges.
use vstd::prelude::*;
use vstd::string::StringExecFns;
use crate::graph::{Graph, incident, lemma_incident_contains, lemma_incident_index, last_pos};
use crate::types::{Acyclicer, Edge, EdgeLabel, NodeIndex};

verus! {

/// `ord` increases along every edge of `g`.
pub open spec fn acyclic_by(g: &Graph, ord: spec_fn(int) -> int) -> bool {
    forall|k: int|
        0 <= k < g.entries().len() ==> ord((#[trigger] g.entries()[k]).0.source.node_index as int) < ord(
            g.entries()[k].0.target.node_index as int,
        )
}

/// `g` has no cycle: some numbering of its nodes increases along every edge.
pub open spec fn is_dag(g: &Graph) -> bool {
    exists|ord: spec_fn(int) -> int| acyclic_by(g, ord)
}

/// The number of `false` entries.
pub open spec fn unvisited(s: Seq<bool>) -> nat
    decreases s.len(),
{
    if s.len() == 0 {
        0
    } else {
        unvisited(s.drop_last()) + if s.last() { 0nat } else { 1nat }
    }
}

proof fn lemma_unvisited_set(s: Seq<bool>, i: int)
    requires
        0 <= i < s.len(),
        !s[i],
    ensures
        unvisited(s.update(i, true)) + 1 == unvisited(s),
    decreases s.len(),
{
    if i < s.len() - 1 {
        assert(s.update(i, true).drop_last() =~= s.drop_last().update(i, true));
        lemma_unvisited_set(s.drop_last(), i);
    } else {
        assert(s.update(i, true).drop_last() =~= s.drop_last());
    }
}

proof fn lemma_unvisited_mono(s: Seq<bool>, t: Seq<bool>)
    requires
        s.len() == t.len(),
        forall|i: int| 0 <= i < s.len() && s[i] ==> t[i],
    ensures
        unvisited(t) <= unvisited(s),
    decreases s.len(),
{
    if s.len() > 0 {
        lemma_unvisited_mono(s.drop_last(), t.drop_last());
    }
}

/// The state of a depth-first search: `vis` marks visited nodes, `stk` the
/// nodes whose search is running, `fin` numbers the finished nodes in the
/// order they finished, below `cnt`. Every edge out of a finished node
/// that is not in `back` leads to a node that finished earlier; every edge
/// in `back` leaves a finished node for a node still running, for itself,
/// or for one that finished later.
pub open spec fn search_inv(
    g: &Graph,
    vis: Seq<bool>,
    stk: Seq<bool>,
    fin: Seq<int>,
    cnt: int,
    back: Seq<Edge>,
) -> bool {
    &&& g.wf()
    &&& vis.len() == g.n() && stk.len() == g.n() && fin.len() == g.n()
    &&& 0 <= cnt
    &&& forall|x: int| 0 <= x < g.n() && stk[x] ==> vis[x]
    &&& forall|x: int| 0 <= x < g.n() && vis[x] && !stk[x] ==> 0 <= fin[x] < cnt
    &&& forall|k: int|
        0 <= k < g.entries().len() ==> {
            let u = (#[trigger] g.entries()[k]).0.source.node_index as int;
            let w = g.entries()[k].0.target.node_index as int;
            vis[u] && !stk[u] ==> if back.contains(g.entries()[k].0) {
                w == u || stk[w] || (vis[w] && fin[w] > fin[u])
            } else {
                vis[w] && !stk[w] && fin[w] < fin[u]
            }
        }
    &&& forall|i: int|
        0 <= i < back.len() ==> {
            let u = (#[trigger] back[i]).source.node_index as int;
            &&& 0 <= u < g.n()
            &&& vis[u]
            &&& exists|k: int| 0 <= k < g.entries().len() && g.entries()[k].0 == back[i]
        }
}

/// Under every numbering that increases along the edges, the running
/// nodes come before `v`.
pub open spec fn stack_below(g: &Graph, stk: Seq<bool>, v: int, strict: bool) -> bool {
    forall|ord: spec_fn(int) -> int|
        #[trigger] acyclic_by(g, ord) ==> forall|x: int|
            0 <= x < g.n() && stk[x] ==> if strict { ord(x) < ord(v) } else { ord(x) <= ord(v) }
}

/// What a finished search below `v` guarantees to its caller.
pub open spec fn search_done(
    g: &Graph,
    vis0: Seq<bool>,
    stk0: Seq<bool>,
    fin0: Seq<int>,
    cnt0: int,
    vis: Seq<bool>,
    stk: Seq<bool>,
    fin: Seq<int>,
    cnt: int,
    v: int,
) -> bool {
    &&& vis.len() == vis0.len()
    &&& stk == stk0
    &&& vis[v]
    &&& !stk[v]
    &&& cnt >= cnt0
    &&& unvisited(vis) <= unvisited(vis0)
    &&& forall|x: int| 0 <= x < vis0.len() && vis0[x] ==> vis[x]
    &&& forall|x: int| 0 <= x < vis0.len() && vis0[x] && !stk0[x] ==> fin[x] == fin0[x]
}

/// Searches from the unvisited node `v`; `true` when it meets an edge into
/// a running node, which closes a cycle.
fn has_cycle(
    graph: &Graph,
    v: NodeIndex,
    visited: &mut Vec<bool>,
    stack: &mut Vec<bool>,
    Ghost(fin): Ghost<Seq<int>>,
    Ghost(cnt): Ghost<int>,
) -> (r: (bool, Ghost<Seq<int>>, Ghost<int>))
    requires
        search_inv(graph, old(visited)@, old(stack)@, fin, cnt, Seq::empty()),
        graph.contains_node(v),
        !old(visited)@[v.node_index as int],
        stack_below(graph, old(stack)@, v.node_index as int, true),
    ensures
        r.0 ==> !is_dag(graph),
        !r.0 ==> search_inv(graph, final(visited)@, final(stack)@, r.1@, r.2@, Seq::empty()),
        !r.0 ==> search_done(graph, old(visited)@, old(stack)@, fin, cnt, final(visited)@, final(stack)@, r.1@, r.2@, v.node_index as int),
        final(visited)@.len() == old(visited)@.len(),
    decreases unvisited(old(visited)@),
{
    let vi = v.node_index;
    let ghost vis0 = visited@;
    let ghost stk0 = stack@;
    visited.set(vi, true);
    stack.set(vi, true);
    proof {
        lemma_unvisited_set(vis0, vi as int);
        assert forall|ord: spec_fn(int) -> int| #[trigger] acyclic_by(graph, ord) implies forall|x: int|
            0 <= x < graph.n() && stack@[x] ==> ord(x) <= ord(vi as int) by {
            assert forall|x: int| 0 <= x < graph.n() && stack@[x] implies ord(x) <= ord(vi as int) by {
                if x != vi {
                    assert(stk0[x]);
                }
            }
        }
    }
    let es = graph.out_edges(v);
    let ghost mut f = fin;
    let ghost mut c = cnt;
    let mut j: usize = 0;
    while j < es.len()
        invariant
            graph.contains_node(v),
            v.node_index == vi,
            es@ == graph.out_edges_spec(v),
            j <= es@.len(),
            search_inv(graph, visited@, stack@, f, c, Seq::empty()),
            stack@ == stk0.update(vi as int, true),
            visited@[vi as int],
            c >= cnt,
            unvisited(visited@) < unvisited(vis0),
            vis0 == old(visited)@,
            stk0 == old(stack)@,
            vis0.len() == graph.n(),
            stk0.len() == graph.n(),
            !vis0[vi as int],
            forall|x: int| 0 <= x < vis0.len() && vis0[x] ==> visited@[x],
            forall|x: int| 0 <= x < vis0.len() && vis0[x] && !stk0[x] ==> f[x] == fin[x],
            forall|jj: int|
                0 <= jj < j ==> {
                    let w = (#[trigger] es@[jj]).target.node_index as int;
                    visited@[w] && !stack@[w] && f[w] < c
                },
            stack_below(graph, stack@, vi as int, false),
        decreases es@.len() - j,
    {
        let edge = es[j];
        let w = edge.target;
        proof {
            lemma_incident_index(graph.entries(), v, true, j as int);
            let k = choose|k: int| 0 <= k < graph.entries().len() && #[trigger] graph.entries()[k].0 == es@[j as int];
            assert(graph.contains_node(graph.entries()[k].0.target));
        }
        if !visited[w.node_index] {
            let ghost vis_pre = visited@;
            let ghost stk_pre = stack@;
            let ghost f_pre = f;
            proof {
                lemma_unvisited_mono(vis0, visited@);
                let k = choose|k: int| 0 <= k < graph.entries().len() && #[trigger] graph.entries()[k].0 == es@[j as int];
                assert forall|ord: spec_fn(int) -> int| #[trigger] acyclic_by(graph, ord) implies forall|x: int|
                    0 <= x < graph.n() && stack@[x] ==> ord(x) < ord(w.node_index as int) by {
                    assert(ord(vi as int) < ord(w.node_index as int));
                }
            }
            let (found, Ghost(f2), Ghost(c2)) = has_cycle(graph, w, visited, stack, Ghost(f), Ghost(c));
            if found {
                return (true, Ghost(f2), Ghost(c2));
            }
            proof {
                assert forall|x: int| 0 <= x < vis0.len() && vis0[x] && !stk0[x] implies f2[x] == fin[x] by {
                    assert(vis_pre[x]);
                    assert(x != vi);
                    assert(stack@ == stk_pre);
                    assert(stk_pre[x] == stk0[x]);
                }
                f = f2;
                c = c2;
                assert forall|jj: int| 0 <= jj < j + 1 implies {
                    let w = (#[trigger] es@[jj]).target.node_index as int;
                    visited@[w] && !stack@[w] && f[w] < c
                } by {
                    lemma_incident_index(graph.entries(), v, true, jj);
                    let k = choose|k: int| 0 <= k < graph.entries().len() && #[trigger] graph.entries()[k].0 == es@[jj];
                    assert(graph.contains_node(graph.entries()[k].0.target));
                    if jj < j {
                        assert(vis_pre[es@[jj].target.node_index as int]);
                    }
                }
            }
        } else if stack[w.node_index] {
            proof {
                let k = choose|k: int| 0 <= k < graph.entries().len() && #[trigger] graph.entries()[k].0 == es@[j as int];
                assert forall|ord: spec_fn(int) -> int| !acyclic_by(graph, ord) by {
                    if acyclic_by(graph, ord) {
                        assert(ord(vi as int) < ord(w.node_index as int));
                        assert(ord(w.node_index as int) <= ord(vi as int));
                    }
                }
            }
            return (true, Ghost(f), Ghost(c));
        }
        j += 1;
    }
    stack.set(vi, false);
    let ghost f_end = f.update(vi as int, c);
    proof {
        assert(stack@ =~= stk0);
        assert forall|x: int| 0 <= x < graph.n() && visited@[x] && !stack@[x] implies 0 <= f_end[x] < c + 1 by {
            if x != vi {
                assert(stk0.update(vi as int, true)[x] == stk0[x]);
            }
        }
        assert forall|k: int| 0 <= k < graph.entries().len() implies {
            let u = (#[trigger] graph.entries()[k]).0.source.node_index as int;
            let w = graph.entries()[k].0.target.node_index as int;
            visited@[u] && !stack@[u] ==> if Seq::<Edge>::empty().contains(graph.entries()[k].0) {
                w == u || stack@[w] || (visited@[w] && f_end[w] > f_end[u])
            } else {
                visited@[w] && !stack@[w] && f_end[w] < f_end[u]
            }
        } by {
            let e = graph.entries()[k].0;
            let u = e.source.node_index as int;
            assert(graph.contains_node(e.source));
            assert(graph.contains_node(e.target));
            if u == vi {
                assert(e.source == v);
                lemma_incident_contains(graph.entries(), v, true, e);
                let jj = choose|jj: int| 0 <= jj < es@.len() && es@[jj] == e;
                assert(visited@[es@[jj].target.node_index as int]);
            }
        }
    }
    (false, Ghost(f_end), Ghost(c + 1))
}

/// `vis` marks a set of nodes of `g` that every edge out of it leaves for
/// a node of the set with a lower number `f`: no cycle passes through it.
pub open spec fn closed_ordered(g: &Graph, vis: Seq<bool>, f: Seq<int>) -> bool {
    &&& vis.len() == g.n()
    &&& f.len() == g.n()
    &&& forall|k: int|
        0 <= k < g.entries().len() ==> {
            let u = (#[trigger] g.entries()[k]).0.source.node_index as int;
            let w = g.entries()[k].0.target.node_index as int;
            vis[u] ==> vis[w] && f[w] < f[u]
        }
}

/// No cycle can be reached from `root` along the edges of `g`.
pub open spec fn no_cycle_from(g: &Graph, root: NodeIndex) -> bool {
    exists|vis: Seq<bool>, f: Seq<int>| #[trigger] closed_ordered(g, vis, f) && vis[root.node_index as int]
}

/// Whether the search from `root` along the edges meets an edge back into
/// a node whose search is running, which closes a cycle. When it does not,
/// the nodes it reached, numbered in the order their search finished, show
/// that no cycle can be reached from `root`.
pub(crate) fn cycle_reached_from(graph: &Graph, root: NodeIndex) -> (r: bool)
    requires
        graph.wf(),
        graph.contains_node(root),
    ensures
        r ==> !is_dag(graph),
        !r ==> no_cycle_from(graph, root),
{
    let n = graph.node_count();
    let mut visited: Vec<bool> = Vec::new();
    let mut stack: Vec<bool> = Vec::new();
    let mut i: usize = 0;
    while i < n
        invariant
            i <= n,
            visited@.len() == i,
            stack@.len() == i,
            forall|x: int| 0 <= x < i ==> !visited@[x] && !stack@[x],
        decreases n - i,
    {
        visited.push(false);
        stack.push(false);
        i += 1;
    }
    let ghost fin: Seq<int> = Seq::new(n as nat, |x: int| 0);
    let ghost stk0 = stack@;
    let (found, Ghost(f2), Ghost(c2)) = has_cycle(graph, root, &mut visited, &mut stack, Ghost(fin), Ghost(0));
    proof {
        if !found {
            assert(stack@ == stk0);
            assert forall|k: int| 0 <= k < graph.entries().len() implies {
                let u = (#[trigger] graph.entries()[k]).0.source.node_index as int;
                let w = graph.entries()[k].0.target.node_index as int;
                visited@[u] ==> visited@[w] && f2[w] < f2[u]
            } by {
                assert(graph.contains_node(graph.entries()[k].0.source));
                assert(!Seq::<Edge>::empty().contains(graph.entries()[k].0));
            }
            assert(closed_ordered(graph, visited@, f2));
        }
    }
    found
}

/// Whether `graph` has no cycle: searches depth first from every node not
/// reached yet, in node order.
pub fn is_acyclic(graph: &Graph) -> (r: bool)
    requires
        graph.wf(),
    ensures
        r == is_dag(graph),
{
    let n = graph.node_count();
    let id = graph.graph_id();
    let mut visited: Vec<bool> = Vec::new();
    let mut stack: Vec<bool> = Vec::new();
    let mut i: usize = 0;
    while i < n
        invariant
            i <= n,
            visited@.len() == i,
            stack@.len() == i,
            forall|x: int| 0 <= x < i ==> !visited@[x] && !stack@[x],
        decreases n - i,
    {
        visited.push(false);
        stack.push(false);
        i += 1;
    }
    let ghost mut fin: Seq<int> = Seq::new(n as nat, |x: int| 0);
    let ghost mut cnt: int = 0;
    let mut i: usize = 0;
    while i < n
        invariant
            n == graph.n(),
            id == graph.id(),
            i <= n,
            search_inv(graph, visited@, stack@, fin, cnt, Seq::empty()),
            forall|x: int| 0 <= x < n ==> !stack@[x],
            forall|x: int| 0 <= x < i ==> visited@[x],
        decreases n - i,
    {
        let v = NodeIndex { node_index: i, which_graph: id };
        if !visited[i] {
            let (found, Ghost(f2), Ghost(c2)) = has_cycle(graph, v, &mut visited, &mut stack, Ghost(fin), Ghost(cnt));
            if found {
                return false;
            }
            proof {
                fin = f2;
                cnt = c2;
            }
        }
        i += 1;
    }
    proof {
        let ord = |x: int| -fin[x];
        assert forall|k: int| 0 <= k < graph.entries().len() implies ord(
            (#[trigger] graph.entries()[k]).0.source.node_index as int,
        ) < ord(graph.entries()[k].0.target.node_index as int) by {
            assert(graph.contains_node(graph.entries()[k].0.source));
            assert(graph.contains_node(graph.entries()[k].0.target));
        }
        assert(acyclic_by(graph, ord));
    }
    true
}


/// Breaks cycles by reversing a set of edges.
pub struct Acyclic;

pub proof fn lemma_contains_push(s: Seq<Edge>, e: Edge, x: Edge)
    ensures
        s.push(e).contains(x) <==> s.contains(x) || x == e,
{
    if s.push(e).contains(x) {
        let i = choose|i: int| 0 <= i < s.push(e).len() && s.push(e)[i] == x;
        if i < s.len() {
            assert(s[i] == x);
        }
    }
    if s.contains(x) {
        let i = choose|i: int| 0 <= i < s.len() && s[i] == x;
        assert(s.push(e)[i] == x);
    }
    if x == e {
        assert(s.push(e)[s.len() as int] == x);
    }
}

proof fn lemma_grown_contains(pre: Seq<Edge>, post: Seq<Edge>, x: Edge, vis: Seq<bool>)
    requires
        post.len() >= pre.len(),
        post.take(pre.len() as int) == pre,
        new_sources(post, pre.len() as int, vis),
        0 <= x.source.node_index < vis.len(),
        vis[x.source.node_index as int],
    ensures
        post.contains(x) <==> pre.contains(x),
{
    if post.contains(x) {
        let i = choose|i: int| 0 <= i < post.len() && post[i] == x;
        if i >= pre.len() {
            assert(!vis[post[i].source.node_index as int]);
        } else {
            assert(post.take(pre.len() as int)[i] == x);
        }
    }
    if pre.contains(x) {
        let i = choose|i: int| 0 <= i < pre.len() && pre[i] == x;
        assert(post.take(pre.len() as int)[i] == x);
    }
}

/// The incident edges of a node are distinct.
proof fn lemma_incident_distinct(s: Seq<(Edge, EdgeLabel)>, v: NodeIndex, out: bool, a: int, b: int)
    requires
        crate::index_map::keys_unique(s),
        0 <= a < incident(s, v, out).len(),
        0 <= b < incident(s, v, out).len(),
        a != b,
    ensures
        incident(s, v, out)[a] != incident(s, v, out)[b],
    decreases s.len(),
{
    let rest = incident(s.drop_first(), v, out);
    let e = s[0].0;
    assert(crate::index_map::keys_unique(s.drop_first())) by {
        assert forall|i: int, j: int|
            #![trigger s.drop_first()[i], s.drop_first()[j]]
            0 <= i < s.drop_first().len() && 0 <= j < s.drop_first().len() && i != j implies s.drop_first()[i].0
            != s.drop_first()[j].0 by {
            assert(s[i + 1].0 != s[j + 1].0);
        }
    }
    if (out && e.source == v) || (!out && e.target == v) {
        if a < rest.len() && b < rest.len() {
            lemma_incident_distinct(s.drop_first(), v, out, a, b);
        } else {
            let o = if a < rest.len() { a } else { b };
            assert(rest.contains(rest[o]));
            lemma_incident_contains(s.drop_first(), v, out, rest[o]);
            if rest[o] == e {
                let i = choose|i: int| 0 <= i < s.drop_first().len() && #[trigger] s.drop_first()[i].0 == rest[o];
                assert(s[i + 1].0 == s[0].0);
            }
        }
    } else {
        lemma_incident_distinct(s.drop_first(), v, out, a, b);
    }
}

proof fn lemma_out_edges_distinct(g: &Graph, v: NodeIndex, es: Seq<Edge>, a: int, b: int)
    requires
        g.wf(),
        es == g.out_edges_spec(v),
        0 <= a < es.len(),
        0 <= b < es.len(),
        a != b,
    ensures
        es[a] != es[b],
{
    lemma_incident_distinct(g.entries(), v, true, a, b);
}

/// Recording an edge out of a running node into a running node keeps the
/// search state.
proof fn lemma_push_keeps_inv(
    g: &Graph,
    vis: Seq<bool>,
    stk: Seq<bool>,
    f: Seq<int>,
    c: int,
    fas: Seq<Edge>,
    e: Edge,
    v: int,
)
    requires
        search_inv(g, vis, stk, f, c, fas),
        e.source.node_index == v,
        0 <= v < g.n(),
        stk[v],
        g.has_edge_spec(e),
    ensures
        search_inv(g, vis, stk, f, c, fas.push(e)),
{
    assert forall|k: int| 0 <= k < g.entries().len() implies {
        let u = (#[trigger] g.entries()[k]).0.source.node_index as int;
        let w = g.entries()[k].0.target.node_index as int;
        vis[u] && !stk[u] ==> if fas.push(e).contains(g.entries()[k].0) {
            w == u || stk[w] || (vis[w] && f[w] > f[u])
        } else {
            vis[w] && !stk[w] && f[w] < f[u]
        }
    } by {
        lemma_contains_push(fas, e, g.entries()[k].0);
        assert(g.contains_node(g.entries()[k].0.source));
    }
    assert forall|i: int| 0 <= i < fas.push(e).len() implies {
        let u = (#[trigger] fas.push(e)[i]).source.node_index as int;
        &&& 0 <= u < g.n()
        &&& vis[u]
        &&& exists|k: int| 0 <= k < g.entries().len() && g.entries()[k].0 == fas.push(e)[i]
    } by {
        if i == fas.len() {
            let k = crate::index_map::key_pos(g.entries(), e);
            assert(g.entries()[k].0 == e);
        } else {
            assert(fas.push(e)[i] == fas[i]);
        }
    }
}

/// Finishing node `v` after all its out-edges were handled keeps the
/// search state, `v` numbered `c`.
proof fn lemma_finish_keeps_inv(
    g: &Graph,
    vis: Seq<bool>,
    stk0: Seq<bool>,
    f: Seq<int>,
    c: int,
    fas: Seq<Edge>,
    v: NodeIndex,
    es: Seq<Edge>,
)
    requires
        search_inv(g, vis, stk0.update(v.node_index as int, true), f, c, fas),
        stk0.len() == g.n(),
        g.contains_node(v),
        vis[v.node_index as int],
        !stk0[v.node_index as int],
        es == g.out_edges_spec(v),
        forall|jj: int|
            0 <= jj < es.len() ==> {
                let w = (#[trigger] es[jj]).target.node_index as int;
                if fas.contains(es[jj]) {
                    w == v.node_index || stk0.update(v.node_index as int, true)[w]
                } else {
                    vis[w] && !stk0.update(v.node_index as int, true)[w] && f[w] < c
                }
            },
    ensures
        search_inv(g, vis, stk0, f.update(v.node_index as int, c), c + 1, fas),
{
    let vi = v.node_index as int;
    let stk = stk0.update(vi, true);
    let fe = f.update(vi, c);
    assert forall|x: int| 0 <= x < g.n() && vis[x] && !stk0[x] implies 0 <= fe[x] < c + 1 by {
        if x != vi {
            assert(stk[x] == stk0[x]);
        }
    }
    assert forall|x: int| 0 <= x < g.n() && stk0[x] implies vis[x] by {
        assert(stk[x]);
    }
    assert forall|k: int| 0 <= k < g.entries().len() implies {
        let u = (#[trigger] g.entries()[k]).0.source.node_index as int;
        let w = g.entries()[k].0.target.node_index as int;
        vis[u] && !stk0[u] ==> if fas.contains(g.entries()[k].0) {
            w == u || stk0[w] || (vis[w] && fe[w] > fe[u])
        } else {
            vis[w] && !stk0[w] && fe[w] < fe[u]
        }
    } by {
        let e = g.entries()[k].0;
        let u = e.source.node_index as int;
        let w = e.target.node_index as int;
        assert(g.contains_node(e.source));
        assert(g.contains_node(e.target));
        if u == vi {
            assert(e.source == v);
            lemma_incident_contains(g.entries(), v, true, e);
            let jj = choose|jj: int| 0 <= jj < es.len() && es[jj] == e;
            assert(es[jj] == e);
        } else if vis[u] && !stk0[u] {
            assert(stk[u] == stk0[u]);
            if w != vi {
                assert(stk[w] == stk0[w]);
            }
        }
    }
}

/// `fin` numbers the nodes so that every edge in `fas` climbs (or is a
/// loop) and every other edge descends.
pub open spec fn fas_ordered(g: &Graph, fas: Seq<Edge>, fin: Seq<int>) -> bool {
    &&& fin.len() == g.n()
    &&& forall|k: int|
        0 <= k < g.entries().len() ==> {
            let e = (#[trigger] g.entries()[k]).0;
            let u = e.source.node_index as int;
            let w = e.target.node_index as int;
            if fas.contains(e) {
                w == u || fin[w] > fin[u]
            } else {
                fin[w] < fin[u]
            }
        }
    &&& forall|i: int| 0 <= i < fas.len() ==> g.has_edge_spec(#[trigger] fas[i])
}

/// Every entry of `s` past position `from` leaves a node unmarked in `vis`.
pub open spec fn new_sources(s: Seq<Edge>, from: int, vis: Seq<bool>) -> bool {
    forall|i: int| from <= i < s.len() ==> !vis[(#[trigger] s[i]).source.node_index as int]
}

impl Acyclic {
    /// Depth-first search from `v` unless it was visited: an edge into a
    /// node whose search is running joins `fas`, any other edge is followed.
    fn dfs_visit(
        graph: &Graph,
        v: NodeIndex,
        visited: &mut Vec<bool>,
        stack: &mut Vec<bool>,
        fas: &mut Vec<Edge>,
        Ghost(fin): Ghost<Seq<int>>,
        Ghost(cnt): Ghost<int>,
    ) -> (r: (Ghost<Seq<int>>, Ghost<int>))
        requires
            search_inv(graph, old(visited)@, old(stack)@, fin, cnt, old(fas)@),
            graph.contains_node(v),
            !old(stack)@[v.node_index as int],
            stack_below(graph, old(stack)@, v.node_index as int, true),
        ensures
            search_inv(graph, final(visited)@, final(stack)@, r.0@, r.1@, final(fas)@),
            is_dag(graph) ==> final(fas)@ == old(fas)@,
            search_done(graph, old(visited)@, old(stack)@, fin, cnt, final(visited)@, final(stack)@, r.0@, r.1@, v.node_index as int),
            final(fas)@.len() >= old(fas)@.len(),
            final(fas)@.take(old(fas)@.len() as int) == old(fas)@,
            new_sources(final(fas)@, old(fas)@.len() as int, old(visited)@),
        decreases unvisited(old(visited)@),
    {
        let vi = v.node_index;
        if visited[vi] {
            proof {
                assert(fas@.take(fas@.len() as int) =~= fas@);
            }
            return (Ghost(fin), Ghost(cnt));
        }
        let ghost vis0 = visited@;
        let ghost stk0 = stack@;
        let ghost fas0 = fas@;
        visited.set(vi, true);
        stack.set(vi, true);
        proof {
            lemma_unvisited_set(vis0, vi as int);
            assert forall|k: int| 0 <= k < graph.entries().len() implies {
                let u = (#[trigger] graph.entries()[k]).0.source.node_index as int;
                let w = graph.entries()[k].0.target.node_index as int;
                visited@[u] && !stack@[u] ==> if fas@.contains(graph.entries()[k].0) {
                    w == u || stack@[w] || (visited@[w] && fin[w] > fin[u])
                } else {
                    visited@[w] && !stack@[w] && fin[w] < fin[u]
                }
            } by {
                assert(graph.contains_node(graph.entries()[k].0.source));
                assert(graph.contains_node(graph.entries()[k].0.target));
            }
        }
        let es = graph.out_edges(v);
        proof {
            assert forall|jj: int| 0 <= jj < es@.len() implies !fas@.contains(#[trigger] es@[jj]) by {
                lemma_incident_index(graph.entries(), v, true, jj);
                if fas@.contains(es@[jj]) {
                    let i = choose|i: int| 0 <= i < fas@.len() && fas@[i] == es@[jj];
                    assert(vis0[fas@[i].source.node_index as int]);
                }
            }
        }
        let ghost mut f = fin;
        let ghost mut c = cnt;
        let mut j: usize = 0;
        while j < es.len()
            invariant
                graph.contains_node(v),
                v.node_index == vi,
                es@ == graph.out_edges_spec(v),
                j <= es@.len(),
                search_inv(graph, visited@, stack@, f, c, fas@),
                stack@ == stk0.update(vi as int, true),
                visited@[vi as int],
                c >= cnt,
                unvisited(visited@) < unvisited(vis0),
                vis0 == old(visited)@,
                stk0 == old(stack)@,
                fas0 == old(fas)@,
                vis0.len() == graph.n(),
                stk0.len() == graph.n(),
                !vis0[vi as int],
                forall|x: int| 0 <= x < vis0.len() && vis0[x] ==> visited@[x],
                forall|x: int| 0 <= x < vis0.len() && vis0[x] && !stk0[x] ==> f[x] == fin[x],
                fas@.len() >= fas0.len(),
                fas@.take(fas0.len() as int) == fas0,
                new_sources(fas@, fas0.len() as int, vis0),
                forall|jj: int|
                    0 <= jj < j ==> {
                        let w = (#[trigger] es@[jj]).target.node_index as int;
                        if fas@.contains(es@[jj]) {
                            w == vi || stack@[w]
                        } else {
                            visited@[w] && !stack@[w] && f[w] < c
                        }
                    },
                forall|jj: int| j <= jj < es@.len() ==> !fas@.contains(#[trigger] es@[jj]),
                stack_below(graph, stk0, vi as int, true),
                is_dag(graph) ==> fas@ == fas0,
            decreases es@.len() - j,
        {
            let edge = es[j];
            let w = edge.target;
            proof {
                lemma_incident_index(graph.entries(), v, true, j as int);
                let k = choose|k: int| 0 <= k < graph.entries().len() && #[trigger] graph.entries()[k].0 == es@[j as int];
                assert(graph.contains_node(graph.entries()[k].0.target));
            }
            let ghost fas_pre = fas@;
            let ghost vis_pre = visited@;
            let ghost stk_pre = stack@;
            proof {
                lemma_incident_index(graph.entries(), v, true, j as int);
                let k = choose|k: int| 0 <= k < graph.entries().len() && #[trigger] graph.entries()[k].0 == es@[j as int];
                assert forall|ord: spec_fn(int) -> int| #[trigger] acyclic_by(graph, ord) implies forall|x: int|
                    0 <= x < graph.n() && stack@[x] ==> ord(x) < ord(w.node_index as int) by {
                    assert(ord(vi as int) < ord(w.node_index as int));
                    assert forall|x: int| 0 <= x < graph.n() && stack@[x] implies ord(x) < ord(w.node_index as int) by {
                        if x != vi {
                            assert(stk0[x]);
                        }
                    }
                }
            }
            if stack[w.node_index] {
                proof {
                    assert forall|ord: spec_fn(int) -> int| !acyclic_by(graph, ord) by {
                        if acyclic_by(graph, ord) {
                            assert(ord(w.node_index as int) < ord(w.node_index as int));
                        }
                    }
                }
                fas.push(edge);
                proof {
                    lemma_push_keeps_inv(graph, visited@, stack@, f, c, fas_pre, edge, vi as int);
                    assert(fas@.take(fas0.len() as int) =~= fas_pre.take(fas0.len() as int));
                    assert forall|jj: int| j + 1 <= jj < es@.len() implies !fas@.contains(#[trigger] es@[jj]) by {
                        lemma_out_edges_distinct(graph, v, es@, j as int, jj);
                        if fas@.contains(es@[jj]) {
                            let i = choose|i: int| 0 <= i < fas@.len() && fas@[i] == es@[jj];
                            if i < fas_pre.len() {
                                assert(fas_pre[i] == es@[jj]);
                            }
                        }
                    }
                    assert forall|jj: int| 0 <= jj < j + 1 implies {
                        let w = (#[trigger] es@[jj]).target.node_index as int;
                        if fas@.contains(es@[jj]) {
                            w == vi || stack@[w]
                        } else {
                            visited@[w] && !stack@[w] && f[w] < c
                        }
                    } by {
                        if jj < j {
                            lemma_contains_push(fas_pre, edge, es@[jj]);
                            lemma_out_edges_distinct(graph, v, es@, jj, j as int);
                        } else {
                            assert(fas@[fas@.len() - 1] == es@[jj]);
                        }
                    }
                }
            } else {
                proof {
                    lemma_unvisited_mono(vis0, visited@);
                }
                let (Ghost(f2), Ghost(c2)) = Self::dfs_visit(graph, w, visited, stack, fas, Ghost(f), Ghost(c));
                proof {
                    assert forall|x: int| 0 <= x < vis0.len() && vis0[x] && !stk0[x] implies f2[x] == fin[x] by {
                        assert(vis_pre[x]);
                        assert(x != vi);
                        assert(stk_pre[x] == stk0[x]);
                    }
                    assert(fas@.take(fas0.len() as int) =~= fas@.take(fas_pre.len() as int).take(fas0.len() as int));
                    assert forall|i: int| fas0.len() <= i < fas@.len() implies !vis0[(#[trigger] fas@[i]).source.node_index as int] by {
                        if i < fas_pre.len() {
                            assert(fas@.take(fas_pre.len() as int)[i] == fas_pre[i]);
                        } else {
                            assert(!vis_pre[fas@[i].source.node_index as int]);
                        }
                    }
                    f = f2;
                    c = c2;
                    assert forall|jj: int| 0 <= jj < j + 1 implies {
                        let w = (#[trigger] es@[jj]).target.node_index as int;
                        if fas@.contains(es@[jj]) {
                            w == vi || stack@[w]
                        } else {
                            visited@[w] && !stack@[w] && f[w] < c
                        }
                    } by {
                        lemma_incident_index(graph.entries(), v, true, jj);
                        let k = choose|k: int| 0 <= k < graph.entries().len() && #[trigger] graph.entries()[k].0 == es@[jj];
                        assert(graph.contains_node(graph.entries()[k].0.target));
                        assert(vis_pre.len() == graph.n());
                        lemma_grown_contains(fas_pre, fas@, es@[jj], vis_pre);
                        if jj < j {
                            assert(vis_pre[es@[jj].target.node_index as int]);
                        } else {
                            assert(!fas_pre.contains(es@[jj]));
                        }
                    }
                    assert forall|jj: int| j + 1 <= jj < es@.len() implies !fas@.contains(#[trigger] es@[jj]) by {
                        lemma_incident_index(graph.entries(), v, true, jj);
                        assert(vis_pre.len() == graph.n());
                        lemma_grown_contains(fas_pre, fas@, es@[jj], vis_pre);
                    }
                }
            }
            j += 1;
        }
        stack.set(vi, false);
        let ghost f_end = f.update(vi as int, c);
        proof {
            assert(stack@ =~= stk0);
            lemma_finish_keeps_inv(graph, visited@, stk0, f, c, fas@, v, es@);
        }
        (Ghost(f_end), Ghost(c + 1))
    }
}

/// An edge of `g` leaves node `x` for a node not marked in `rm`.
pub open spec fn live_out(g: &Graph, rm: Seq<bool>, x: int) -> bool {
    exists|k: int|
        0 <= k < g.entries().len() && (#[trigger] g.entries()[k]).0.source.node_index == x
            && !rm[g.entries()[k].0.target.node_index as int]
}

/// An edge of `g` enters node `x` from a node not marked in `rm`.
pub open spec fn live_in(g: &Graph, rm: Seq<bool>, x: int) -> bool {
    exists|k: int|
        0 <= k < g.entries().len() && (#[trigger] g.entries()[k]).0.target.node_index == x
            && !rm[g.entries()[k].0.source.node_index as int]
}

/// The weight of the first `k` edges of `g` that leave (`out`) or enter
/// node `x` with their other end not marked in `rm`.
pub open spec fn live_weight(g: &Graph, rm: Seq<bool>, x: int, out: bool, k: int) -> int
    decreases k,
{
    if k <= 0 {
        0
    } else {
        let e = g.entries()[k - 1].0;
        let (here, there) = if out { (e.source, e.target) } else { (e.target, e.source) };
        live_weight(g, rm, x, out, k - 1) + if here.node_index == x && !rm[there.node_index as int] {
            g.entries()[k - 1].1.weight as int
        } else {
            0
        }
    }
}

/// The weight balance of node `x` among the nodes not marked in `rm`: the
/// weight of its edges out minus the weight of its edges in.
pub open spec fn live_balance(g: &Graph, rm: Seq<bool>, x: int) -> int {
    live_weight(g, rm, x, true, g.entries().len() as int) - live_weight(g, rm, x, false, g.entries().len() as int)
}

/// The first node from `j` on that is still in and has no edge to a node
/// still in (`out`), or no edge from one (`!out`); `n` when there is none.
pub open spec fn first_end(g: &Graph, rm: Seq<bool>, out: bool, j: int) -> int
    decreases g.n() - j,
{
    if j >= g.n() {
        g.n() as int
    } else if !rm[j] && !(if out { live_out(g, rm, j) } else { live_in(g, rm, j) }) {
        j
    } else {
        first_end(g, rm, out, j + 1)
    }
}

/// Scanning from `j` with `pick` so far: the first node still in of
/// greatest weight balance.
pub open spec fn first_greatest(g: &Graph, rm: Seq<bool>, j: int, pick: int) -> int
    decreases g.n() - j,
{
    if j >= g.n() {
        pick
    } else if !rm[j] && (pick == g.n() || live_balance(g, rm, j) > live_balance(g, rm, pick)) {
        first_greatest(g, rm, j + 1, j)
    } else {
        first_greatest(g, rm, j + 1, pick)
    }
}

/// The node the greedy order takes out next: the first node without edges
/// to nodes still in, else the first without edges from them, else the
/// first of greatest weight balance.
pub open spec fn greedy_pick(g: &Graph, rm: Seq<bool>) -> int {
    let n = g.n() as int;
    if first_end(g, rm, true, 0) < n {
        first_end(g, rm, true, 0)
    } else if first_end(g, rm, false, 0) < n {
        first_end(g, rm, false, 0)
    } else {
        first_greatest(g, rm, 0, n)
    }
}

/// The first `k` edges, in edge order, that enter node `p` from a node
/// still in.
pub open spec fn live_in_edges(g: &Graph, rm: Seq<bool>, p: int, k: int) -> Seq<Edge>
    decreases k,
{
    if k <= 0 {
        Seq::empty()
    } else {
        let e = g.entries()[k - 1].0;
        live_in_edges(g, rm, p, k - 1) + if e.target.node_index == p && !rm[e.source.node_index as int] {
            seq![e]
        } else {
            Seq::empty()
        }
    }
}

/// The edges the greedy order adds when it takes out `p`: those entering it
/// from nodes still in, when `p` was taken for its weight balance.
pub open spec fn greedy_step_edges(g: &Graph, rm: Seq<bool>) -> Seq<Edge> {
    let n = g.n() as int;
    if first_end(g, rm, true, 0) < n || first_end(g, rm, false, 0) < n {
        Seq::empty()
    } else {
        live_in_edges(g, rm, greedy_pick(g, rm), g.entries().len() as int)
    }
}

/// The edges the greedy order adds over `steps` more rounds from `rm`.
pub open spec fn greedy_fas_from(g: &Graph, rm: Seq<bool>, steps: nat) -> Seq<Edge>
    decreases steps,
{
    if steps == 0 {
        Seq::empty()
    } else {
        greedy_step_edges(g, rm) + greedy_fas_from(g, rm.update(greedy_pick(g, rm), true), (steps - 1) as nat)
    }
}

/// The feedback arc set of the greedy heuristic: nodes are taken out one by
/// one, as `greedy_pick` chooses, and each node taken for its weight
/// balance brings the edges into it from nodes still in.
pub open spec fn greedy_fas_spec(g: &Graph) -> Seq<Edge> {
    greedy_fas_from(g, Seq::new(g.n(), |i: int| false), g.n())
}

/// The state of the greedy order: the removed nodes carry keys, those at
/// the front below `nf`, those at the back above `n - nb`; every edge not
/// in `fas` leads forward, or from the front to a node still in, or from a
/// node still in to the back; every edge of `fas` enters a front node from
/// itself, from a node still in, or from a later node.
pub open spec fn greedy_inv(g: &Graph, rm: Seq<bool>, fas: Seq<Edge>, key: Seq<int>, nf: int, nb: int) -> bool {
    let n = g.n() as int;
    &&& forall|x: int| 0 <= x < n && #[trigger] rm[x] ==> (0 <= key[x] < nf) || (n - nb < key[x] <= n)
    &&& forall|k: int|
        0 <= k < g.entries().len() ==> {
            let e = (#[trigger] g.entries()[k]).0;
            let u = e.source.node_index as int;
            let w = e.target.node_index as int;
            !fas.contains(e) ==> {
                &&& rm[u] && rm[w] ==> key[u] < key[w]
                &&& rm[u] && !rm[w] ==> key[u] < nf
                &&& !rm[u] && rm[w] ==> key[w] > n - nb
            }
        }
    &&& forall|i: int|
        0 <= i < fas.len() ==> {
            let e = #[trigger] fas[i];
            let u = e.source.node_index as int;
            let v = e.target.node_index as int;
            &&& g.has_edge_spec(e)
            &&& 0 <= v < n
            &&& rm[v]
            &&& key[v] < nf
            &&& (u == v || !rm[u] || key[u] > key[v])
        }
}

/// Taking node `p` out keeps the state of the greedy order: to the back
/// when it has no edge to a node still in (`sink`), else to the front,
/// with the edges into it from nodes still in added to `fas` when it has
/// such edges (`greatest`).
proof fn greedy_step(
    g: &Graph,
    rm0: Seq<bool>,
    rm1: Seq<bool>,
    fas0: Seq<Edge>,
    fas1: Seq<Edge>,
    key: Seq<int>,
    nf: int,
    nb: int,
    p: int,
    sink: bool,
    greatest: bool,
)
    requires
        g.wf(),
        rm0.len() == g.n(),
        key.len() == g.n(),
        0 <= p < g.n(),
        !rm0[p],
        rm1 == rm0.update(p, true),
        nf >= 0,
        nb >= 0,
        nf + nb < g.n(),
        greedy_inv(g, rm0, fas0, key, nf, nb),
        sink ==> !greatest,
        sink ==> !live_out(g, rm0, p),
        !sink && !greatest ==> !live_in(g, rm0, p),
        !greatest ==> fas1 == fas0,
        fas1.len() >= fas0.len(),
        fas1.take(fas0.len() as int) == fas0,
        forall|i: int|
            fas0.len() <= i < fas1.len() ==> {
                let e = #[trigger] fas1[i];
                &&& g.has_edge_spec(e)
                &&& e.target.node_index == p
                &&& !rm0[e.source.node_index as int]
            },
        greatest ==> forall|q: int|
            0 <= q < g.entries().len() && (#[trigger] g.entries()[q]).0.target.node_index == p
                && !rm0[g.entries()[q].0.source.node_index as int] ==> fas1.contains(g.entries()[q].0),
    ensures
        greedy_inv(
            g,
            rm1,
            fas1,
            if sink { key.update(p, g.n() - nb) } else { key.update(p, nf) },
            if sink { nf } else { nf + 1 },
            if sink { nb + 1 } else { nb },
        ),
{
    let n = g.n() as int;
    let key1 = if sink { key.update(p, n - nb) } else { key.update(p, nf) };
    let nf1 = if sink { nf } else { nf + 1 };
    let nb1 = if sink { nb + 1 } else { nb };
    assert forall|i: int| 0 <= i < fas0.len() implies fas1[i] == fas0[i] by {
        assert(fas1.take(fas0.len() as int)[i] == fas0[i]);
    }
    assert forall|x: int| 0 <= x < n && #[trigger] rm1[x] implies (0 <= key1[x] < nf1) || (n - nb1 < key1[x] <= n) by {
        if x != p {
            assert(rm0[x]);
        }
    }
    assert forall|k: int| 0 <= k < g.entries().len() implies {
        let e = (#[trigger] g.entries()[k]).0;
        let u = e.source.node_index as int;
        let w = e.target.node_index as int;
        !fas1.contains(e) ==> {
            &&& rm1[u] && rm1[w] ==> key1[u] < key1[w]
            &&& rm1[u] && !rm1[w] ==> key1[u] < nf1
            &&& !rm1[u] && rm1[w] ==> key1[w] > n - nb1
        }
    } by {
        let e = g.entries()[k].0;
        let u = e.source.node_index as int;
        let w = e.target.node_index as int;
        assert(g.contains_node(g.entries()[k].0.source));
        assert(g.contains_node(g.entries()[k].0.target));
        if !fas1.contains(e) {
            assert(!fas0.contains(e)) by {
                if fas0.contains(e) {
                    let i = choose|i: int| 0 <= i < fas0.len() && fas0[i] == e;
                    assert(fas1[i] == e);
                }
            }
            if u == p && !rm0[w] {
                assert(live_out(g, rm0, p));
            }
            if w == p && !rm0[u] {
                assert(live_in(g, rm0, p));
            }
        }
    }
    assert forall|i: int| 0 <= i < fas1.len() implies {
        let e = #[trigger] fas1[i];
        let u = e.source.node_index as int;
        let v = e.target.node_index as int;
        &&& g.has_edge_spec(e)
        &&& 0 <= v < n
        &&& rm1[v]
        &&& key1[v] < nf1
        &&& (u == v || !rm1[u] || key1[u] > key1[v])
    } by {
        if i < fas0.len() {
            assert(fas1[i] == fas0[i]);
        }
    }
}

/// Among the first `j` positions some unmarked one has the greatest `ord`
/// of the unmarked ones, when any is unmarked.
proof fn lemma_argmax(ord: spec_fn(int) -> int, rm: Seq<bool>, j: int)
    requires
        0 <= j <= rm.len(),
        exists|x: int| 0 <= x < j && !rm[x],
    ensures
        exists|m: int| 0 <= m < j && !rm[m] && forall|x: int| 0 <= x < j && !rm[x] ==> ord(x) <= #[trigger] ord(m),
    decreases j,
{
    if exists|x: int| 0 <= x < j - 1 && !rm[x] {
        lemma_argmax(ord, rm, j - 1);
        let m = choose|m: int| 0 <= m < j - 1 && !rm[m] && forall|x: int| 0 <= x < j - 1 && !rm[x] ==> ord(x) <= #[trigger] ord(m);
        if !rm[j - 1] && ord(j - 1) > ord(m) {
            assert(forall|x: int| 0 <= x < j && !rm[x] ==> ord(x) <= #[trigger] ord(j - 1));
        } else {
            assert(forall|x: int| 0 <= x < j && !rm[x] ==> ord(x) <= #[trigger] ord(m));
        }
    } else {
        assert(!rm[j - 1]);
        assert(forall|x: int| 0 <= x < j && !rm[x] ==> ord(x) <= #[trigger] ord(j - 1));
    }
}

/// When every node still in has an edge to a node still in, there is a
/// cycle.
proof fn lemma_no_sink_cycle(g: &Graph, rm: Seq<bool>)
    requires
        g.wf(),
        rm.len() == g.n(),
        exists|x: int| 0 <= x < g.n() && !rm[x],
        forall|x: int| 0 <= x < g.n() && !rm[x] ==> #[trigger] live_out(g, rm, x),
    ensures
        !is_dag(g),
{
    assert forall|ord: spec_fn(int) -> int| !acyclic_by(g, ord) by {
        if acyclic_by(g, ord) {
            lemma_argmax(ord, rm, g.n() as int);
            let m = choose|m: int| 0 <= m < g.n() && !rm[m] && forall|x: int| 0 <= x < g.n() && !rm[x] ==> ord(x) <= #[trigger] ord(m);
            assert(live_out(g, rm, m));
            let k = choose|k: int|
                0 <= k < g.entries().len() && (#[trigger] g.entries()[k]).0.source.node_index == m
                    && !rm[g.entries()[k].0.target.node_index as int];
            assert(g.contains_node(g.entries()[k].0.target));
            let w = g.entries()[k].0.target.node_index as int;
            assert(ord(m) < ord(w));
            assert(ord(w) <= ord(m));
        }
    }
}

proof fn lemma_unseen_all_false(s: Seq<bool>)
    requires
        forall|i: int| 0 <= i < s.len() ==> !s[i],
    ensures
        crate::order::init_order::unseen(s) == s.len(),
    decreases s.len(),
{
    if s.len() > 0 {
        lemma_unseen_all_false(s.drop_last());
    }
}

proof fn lemma_unseen_some_false(s: Seq<bool>)
    requires
        crate::order::init_order::unseen(s) > 0,
    ensures
        exists|i: int| 0 <= i < s.len() && !s[i],
    decreases s.len(),
{
    if s.last() {
        lemma_unseen_some_false(s.drop_last());
        let i = choose|i: int| 0 <= i < s.drop_last().len() && !s.drop_last()[i];
        assert(!s[i]);
    } else {
        assert(!s[s.len() - 1]);
    }
}

proof fn lemma_unseen_zero(s: Seq<bool>)
    requires
        crate::order::init_order::unseen(s) == 0,
    ensures
        forall|i: int| 0 <= i < s.len() ==> s[i],
    decreases s.len(),
{
    if s.len() > 0 {
        lemma_unseen_zero(s.drop_last());
        assert forall|i: int| 0 <= i < s.len() implies s[i] by {
            if i < s.len() - 1 {
                assert(s.drop_last()[i] == s[i]);
            }
        }
    }
}

/// Whether an edge leaves node `x` for a node not removed.
fn has_live_out(graph: &Graph, removed: &Vec<bool>, x: usize) -> (r: bool)
    requires
        graph.wf(),
        removed@.len() == graph.n(),
    ensures
        r == live_out(graph, removed@, x as int),
{
    let edges = graph.edges();
    let mut k: usize = 0;
    while k < edges.len()
        invariant
            graph.wf(),
            removed@.len() == graph.n(),
            edges@ == graph.edge_seq(),
            k <= edges@.len(),
            forall|q: int|
                0 <= q < k ==> !((#[trigger] graph.entries()[q]).0.source.node_index == x
                    && !removed@[graph.entries()[q].0.target.node_index as int]),
        decreases edges@.len() - k,
    {
        let e = edges[k];
        proof {
            assert(e == graph.entries()[k as int].0);
            assert(graph.contains_node(graph.entries()[k as int].0.source));
            assert(graph.contains_node(graph.entries()[k as int].0.target));
        }
        if e.source.node_index == x && !removed[e.target.node_index] {
            return true;
        }
        k += 1;
    }
    false
}

/// Whether an edge enters node `x` from a node not removed.
fn has_live_in(graph: &Graph, removed: &Vec<bool>, x: usize) -> (r: bool)
    requires
        graph.wf(),
        removed@.len() == graph.n(),
    ensures
        r == live_in(graph, removed@, x as int),
{
    let edges = graph.edges();
    let mut k: usize = 0;
    while k < edges.len()
        invariant
            graph.wf(),
            removed@.len() == graph.n(),
            edges@ == graph.edge_seq(),
            k <= edges@.len(),
            forall|q: int|
                0 <= q < k ==> !((#[trigger] graph.entries()[q]).0.target.node_index == x
                    && !removed@[graph.entries()[q].0.source.node_index as int]),
        decreases edges@.len() - k,
    {
        let e = edges[k];
        proof {
            assert(e == graph.entries()[k as int].0);
            assert(graph.contains_node(graph.entries()[k as int].0.source));
        }
        if e.target.node_index == x && !removed[e.source.node_index] {
            return true;
        }
        k += 1;
    }
    false
}

/// The weight of the edges from node `x` to nodes not removed, less the
/// weight of the edges into `x` from nodes not removed.
fn live_delta(graph: &Graph, removed: &Vec<bool>, x: usize) -> (r: i128)
    requires
        graph.wf(),
        removed@.len() == graph.n(),
    ensures
        r == live_weight(graph, removed@, x as int, true, graph.entries().len() as int) - live_weight(
            graph,
            removed@,
            x as int,
            false,
            graph.entries().len() as int,
        ),
{
    let edges = graph.edges();
    let len = edges.len();
    let mut out_w: u128 = 0;
    let mut in_w: u128 = 0;
    let mut k: usize = 0;
    while k < len
        invariant
            graph.wf(),
            removed@.len() == graph.n(),
            edges@ == graph.edge_seq(),
            len == graph.entries().len(),
            k <= len,
            out_w == live_weight(graph, removed@, x as int, true, k as int),
            in_w == live_weight(graph, removed@, x as int, false, k as int),
            out_w <= k * 4294967296,
            in_w <= k * 4294967296,
        decreases len - k,
    {
        let e = edges[k];
        proof {
            assert(e == graph.entries()[k as int].0);
            assert(graph.contains_node(graph.entries()[k as int].0.source));
            assert(graph.contains_node(graph.entries()[k as int].0.target));
            crate::graph::lemma_key_pos_unique(graph.entries(), e, k as int);
        }
        let w = match graph.edge_label(&e) {
            Some(l) => l.weight,
            None => 0,
        };
        proof {
            assert(w == graph.entries()[k as int].1.weight);
        }
        if e.source.node_index == x && !removed[e.target.node_index] {
            out_w = out_w + w as u128;
        }
        if e.target.node_index == x && !removed[e.source.node_index] {
            in_w = in_w + w as u128;
        }
        k += 1;
    }
    proof {
        assert(len * 4294967296 <= 0x1_0000_0000_0000_0000_0000_0000) by (nonlinear_arith)
            requires
                len <= 0xffff_ffff_ffff_ffff;
    }
    out_w as i128 - in_w as i128
}

/// The character of decimal digit `d`.
pub open spec fn digit_char(d: int) -> char {
    (d + 48) as char
}

/// The decimal digits of `n`.
pub open spec fn decimal(n: nat) -> Seq<char>
    decreases n,
{
    if n < 10 {
        seq![digit_char(n as int)]
    } else {
        decimal(n / 10).push(digit_char((n % 10) as int))
    }
}

/// The name a reversed edge records of its original source `i`: `rev_`
/// followed by `i` in decimal.
pub open spec fn rev_name_spec(i: nat) -> Seq<char> {
    seq!['r', 'e', 'v', '_'] + decimal(i)
}

/// The numeral of the digit `d`.
fn digit_str(d: usize) -> (r: &'static str)
    requires
        d < 10,
    ensures
        r@ == seq![digit_char(d as int)],
{
    proof {
        reveal_strlit("0");
        reveal_strlit("1");
        reveal_strlit("2");
        reveal_strlit("3");
        reveal_strlit("4");
        reveal_strlit("5");
        reveal_strlit("6");
        reveal_strlit("7");
        reveal_strlit("8");
        reveal_strlit("9");
    }
    match d {
        0 => "0",
        1 => "1",
        2 => "2",
        3 => "3",
        4 => "4",
        5 => "5",
        6 => "6",
        7 => "7",
        8 => "8",
        _ => "9",
    }
}

/// `i` written in decimal, without sign or leading zeros.
pub(crate) fn decimal_string(i: usize) -> (r: String)
    ensures
        r@ == decimal(i as nat),
    decreases i,
{
    if i < 10 {
        String::from_str(digit_str(i))
    } else {
        let mut s = decimal_string(i / 10);
        s.append(digit_str(i % 10));
        s
    }
}

/// The name a reversed edge records of its original source `i`.
fn rev_name(i: usize) -> (r: String)
    ensures
        r@ == rev_name_spec(i as nat),
{
    let digits = decimal_string(i);
    let mut name = String::from_str("rev_");
    proof {
        reveal_strlit("rev_");
    }
    name.append(digits.as_str());
    name
}

/// `l` is marked as the label of a reversed edge whose original source was
/// node `src`.
pub open spec fn marked_reversed(l: EdgeLabel, src: nat) -> bool {
    &&& l.reversed == Some(true)
    &&& l.forward_name matches Some(nm) && nm@ == rev_name_spec(src)
}

/// The edge with the end points of `e` swapped.
pub open spec fn rev(e: Edge) -> Edge {
    Edge { source: e.target, target: e.source }
}

/// No edge of `g` joins a node to itself.
pub open spec fn no_self_loops(g: &Graph) -> bool {
    forall|k: int| 0 <= k < g.entries().len() ==> (#[trigger] g.entries()[k]).0.source != g.entries()[k].0.target
}

/// `g` has an edge joining a node to itself.
pub open spec fn is_loop(e: Edge) -> bool {
    e.source == e.target
}

/// What reversing edges turned `g0` into `g`: only edges changed; each edge
/// of `g` is an edge of `g0` with its label, or the reversal of one marked
/// as reversed with the name of its source; and no edge of `g0` is lost
/// without its reversal standing in its place.
pub open spec fn reversal_of(g: &Graph, g0: &Graph) -> bool {
    &&& g.wf()
    &&& g.node_seq() == g0.node_seq()
    &&& g.id() == g0.id()
    &&& g.config_spec() == g0.config_spec()
    &&& forall|x: Edge| #[trigger] g.has_edge_spec(x) ==> g0.has_edge_spec(x) || g0.has_edge_spec(rev(x))
    &&& forall|x: Edge|
        #[trigger] g.has_edge_spec(x) && !g0.has_edge_spec(x) ==> marked_reversed(g.edge_label_spec(x), x.target.node_index as nat)
    &&& forall|x: Edge| #[trigger] g0.has_edge_spec(x) ==> g.has_edge_spec(x) || g.has_edge_spec(rev(x))
}

/// `l` is `l0` marked as reversed, named after node `src`: only the mark
/// and the name differ.
pub open spec fn reversed_label_of(l: EdgeLabel, l0: EdgeLabel, src: nat) -> bool {
    &&& l == EdgeLabel { reversed: Some(true), forward_name: l.forward_name, ..l0 }
    &&& marked_reversed(l, src)
}

/// Each edge of `g` is an edge of `g0` with its label, or the reversal of
/// one with its label marked as reversed and named after its source.
pub open spec fn labels_from(g: &Graph, g0: &Graph) -> bool {
    forall|x: Edge| #[trigger] g.has_edge_spec(x) ==> (g0.has_edge_spec(x) && g.edge_label_spec(x) == g0.edge_label_spec(x))
        || (g0.has_edge_spec(rev(x)) && reversed_label_of(
        g.edge_label_spec(x),
        g0.edge_label_spec(rev(x)),
        x.target.node_index as nat,
    ))
}

/// The parallel edges of `g` are those of `g0` followed by edges of `g0`
/// with their labels in `g0`.
pub open spec fn parallel_grown(g: &Graph, g0: &Graph) -> bool {
    let p0 = g0.parallel_edges();
    let p = g.parallel_edges();
    &&& p0.len() <= p.len()
    &&& p.take(p0.len() as int) == p0
    &&& forall|k: int| p0.len() <= k < p.len() ==> g0.has_edge_spec((#[trigger] p[k]).0) && p[k].1 == g0.edge_label_spec(p[k].0)
}

/// Some edge among the first `j` of `fas` is the reversal of `x`.
pub open spec fn touched(fas: Seq<Edge>, j: int, x: Edge) -> bool {
    exists|i: int| 0 <= i < j && rev(#[trigger] fas[i]) == x
}

/// An edge of an ordered feedback set whose reversal is in the set too is
/// a loop.
proof fn lemma_fas_pair_loop(g0: &Graph, fas: Seq<Edge>, fin: Seq<int>, i: int, j: int)
    requires
        g0.wf(),
        fas_ordered(g0, fas, fin),
        0 <= i < fas.len(),
        0 <= j < fas.len(),
        fas[i] == rev(fas[j]),
    ensures
        is_loop(fas[j]),
{
    let e = fas[j];
    let f = fas[i];
    assert(g0.has_edge_spec(e));
    assert(g0.has_edge_spec(f));
    let ke = crate::index_map::key_pos(g0.entries(), e);
    let kf = crate::index_map::key_pos(g0.entries(), f);
    assert(g0.entries()[ke].0 == e);
    assert(g0.entries()[kf].0 == f);
    assert(fas.contains(e));
    assert(fas.contains(f));
}

/// One reversal step keeps what `Acyclic::run` states of labels and of
/// parallel edges.
proof fn lemma_reverse_labels(
    g0: &Graph,
    gb: &Graph,
    gm: &Graph,
    g: &Graph,
    fas: Seq<Edge>,
    fin: Seq<int>,
    j: int,
    edge: Edge,
    lb: EdgeLabel,
    new_label: EdgeLabel,
)
    requires
        0 <= j < fas.len(),
        edge == fas[j],
        g0.wf(),
        gb.wf(),
        gm.wf(),
        g.wf(),
        fas_ordered(g0, fas, fin),
        gb.has_edge_spec(edge),
        lb == gb.edge_label_spec(edge),
        gm.entries() == gb.entries().update(crate::index_map::key_pos(gb.entries(), edge), gb.entries().last()).drop_last(),
        !gm.has_edge_spec(edge),
        gm.parallel_edges() == gb.parallel_edges(),
        gm.has_edge_spec(rev(edge)) ==> g.entries() == gm.entries().update(
            crate::index_map::key_pos(gm.entries(), rev(edge)),
            (rev(edge), new_label),
        ),
        !gm.has_edge_spec(rev(edge)) ==> g.entries() == gm.entries().push((rev(edge), new_label)),
        g.parallel_edges() == if gm.has_edge_spec(rev(edge)) {
            gm.parallel_edges().push((rev(edge), gm.edge_label_spec(rev(edge))))
        } else {
            gm.parallel_edges()
        },
        g.has_edge_spec(rev(edge)),
        g.edge_label_spec(rev(edge)) == new_label,
        new_label == (EdgeLabel { reversed: Some(true), forward_name: new_label.forward_name, ..lb }),
        marked_reversed(new_label, edge.source.node_index as nat),
        forall|x: Edge| #[trigger] gb.has_edge_spec(x) ==> if touched(fas, j, x) {
            g0.has_edge_spec(rev(x)) && reversed_label_of(gb.edge_label_spec(x), g0.edge_label_spec(rev(x)), x.target.node_index as nat)
        } else {
            g0.has_edge_spec(x) && gb.edge_label_spec(x) == g0.edge_label_spec(x)
        },
        forall|i: int| 0 <= i < j && gb.has_edge_spec(#[trigger] fas[i]) ==> touched(fas, j, fas[i]),
        parallel_grown(gb, g0),
    ensures
        forall|x: Edge| #[trigger] g.has_edge_spec(x) ==> if touched(fas, j + 1, x) {
            g0.has_edge_spec(rev(x)) && reversed_label_of(g.edge_label_spec(x), g0.edge_label_spec(rev(x)), x.target.node_index as nat)
        } else {
            g0.has_edge_spec(x) && g.edge_label_spec(x) == g0.edge_label_spec(x)
        },
        forall|i: int| 0 <= i < j + 1 && g.has_edge_spec(#[trigger] fas[i]) ==> touched(fas, j + 1, fas[i]),
        parallel_grown(g, g0),
{
    let re = rev(edge);
    assert(rev(re) == edge);
    assert(g0.has_edge_spec(fas[j]));
    assert(rev(fas[j]) == re);
    assert forall|x: Edge| x != edge && x != re implies (g.has_edge_spec(x) == gb.has_edge_spec(x)) && (gb.has_edge_spec(
        x,
    ) ==> g.edge_label_spec(x) == gb.edge_label_spec(x)) by {
        crate::graph::lemma_remove_keeps_others(gb, gm, edge, x);
        crate::graph::lemma_add_keeps_others(gm, g, re, new_label, x);
    }
    if edge != re {
        crate::graph::lemma_add_keeps_others(gm, g, re, new_label, edge);
    }
    assert forall|x: Edge| x != re implies touched(fas, j + 1, x) == touched(fas, j, x) by {
        if touched(fas, j + 1, x) {
            let i = choose|i: int| 0 <= i < j + 1 && rev(#[trigger] fas[i]) == x;
            assert(i != j);
        }
    }
    // the label of the reversed edge
    if touched(fas, j, edge) {
        let i = choose|i: int| 0 <= i < j && rev(#[trigger] fas[i]) == edge;
        assert(rev(rev(fas[i])) == fas[i]);
        lemma_fas_pair_loop(g0, fas, fin, i, j);
    }
    assert(touched(fas, j + 1, re));
    assert forall|x: Edge| #[trigger] g.has_edge_spec(x) implies if touched(fas, j + 1, x) {
        g0.has_edge_spec(rev(x)) && reversed_label_of(g.edge_label_spec(x), g0.edge_label_spec(rev(x)), x.target.node_index as nat)
    } else {
        g0.has_edge_spec(x) && g.edge_label_spec(x) == g0.edge_label_spec(x)
    } by {
        if x != edge && x != re {
            assert(gb.has_edge_spec(x));
        }
    }
    assert forall|i: int| 0 <= i < j + 1 && g.has_edge_spec(#[trigger] fas[i]) implies touched(fas, j + 1, fas[i]) by {
        if fas[i] != edge && fas[i] != re {
            assert(gb.has_edge_spec(fas[i]));
            assert(touched(fas, j, fas[i]));
        } else if fas[i] == re {
        } else {
            assert(g.has_edge_spec(edge));
            assert(edge == re);
        }
    }
    // the parallel edges
    let p0 = g0.parallel_edges();
    if gm.has_edge_spec(re) {
        assert(re != edge);
        assert(gb.has_edge_spec(re));
        assert(gm.edge_label_spec(re) == gb.edge_label_spec(re)) by {
            crate::graph::lemma_remove_keeps_others(gb, gm, edge, re);
        }
        if touched(fas, j, re) {
            let i = choose|i: int| 0 <= i < j && rev(#[trigger] fas[i]) == re;
            assert(fas[i] == edge) by {
                assert(rev(rev(fas[i])) == fas[i]);
            }
            assert(touched(fas, j, fas[i]));
            let i2 = choose|i2: int| 0 <= i2 < j && rev(#[trigger] fas[i2]) == edge;
            assert(fas[i2] == rev(fas[j])) by {
                assert(rev(rev(fas[i2])) == fas[i2]);
            }
            lemma_fas_pair_loop(g0, fas, fin, i2, j);
        }
        let p = g.parallel_edges();
        assert(p.take(p0.len() as int) =~= gb.parallel_edges().take(p0.len() as int));
        assert forall|k: int| p0.len() <= k < p.len() implies g0.has_edge_spec((#[trigger] p[k]).0) && p[k].1 == g0.edge_label_spec(p[k].0) by {
            if k < p.len() - 1 {
                assert(p[k] == gb.parallel_edges()[k]);
            }
        }
    }
}

impl Acyclic {
    /// The edges that close cycles in a depth-first search from every node
    /// not reached yet, in node order: edges into a node whose search is
    /// still running.
    pub(crate) fn dfs_fas(graph: &Graph) -> (r: Vec<Edge>)
        requires
            graph.wf(),
        ensures
            exists|fin: Seq<int>| fas_ordered(graph, r@, fin),
            is_dag(graph) ==> r@.len() == 0,
    {
        let n = graph.node_count();
        let id = graph.graph_id();
        let mut fas: Vec<Edge> = Vec::new();
        let mut visited: Vec<bool> = Vec::new();
        let mut stack: Vec<bool> = Vec::new();
        let mut i: usize = 0;
        while i < n
            invariant
                i <= n,
                visited@.len() == i,
                stack@.len() == i,
                forall|x: int| 0 <= x < i ==> !visited@[x] && !stack@[x],
            decreases n - i,
        {
            visited.push(false);
            stack.push(false);
            i += 1;
        }
        let ghost mut fin: Seq<int> = Seq::new(n as nat, |x: int| 0);
        let ghost mut cnt: int = 0;
        let mut i: usize = 0;
        while i < n
            invariant
                n == graph.n(),
                id == graph.id(),
                i <= n,
                search_inv(graph, visited@, stack@, fin, cnt, fas@),
                forall|x: int| 0 <= x < n ==> !stack@[x],
                forall|x: int| 0 <= x < i ==> visited@[x],
                is_dag(graph) ==> fas@.len() == 0,
            decreases n - i,
        {
            let v = NodeIndex { node_index: i, which_graph: id };
            if !visited[i] {
                proof {
                    assert(stack_below(graph, stack@, i as int, true));
                }
                let (Ghost(f2), Ghost(c2)) = Self::dfs_visit(graph, v, &mut visited, &mut stack, &mut fas, Ghost(fin), Ghost(cnt));
                proof {
                    fin = f2;
                    cnt = c2;
                }
            }
            i += 1;
        }
        proof {
            assert forall|k: int| 0 <= k < graph.entries().len() implies {
                let e = (#[trigger] graph.entries()[k]).0;
                let u = e.source.node_index as int;
                let w = e.target.node_index as int;
                if fas@.contains(e) {
                    w == u || fin[w] > fin[u]
                } else {
                    fin[w] < fin[u]
                }
            } by {
                assert(graph.contains_node(graph.entries()[k].0.source));
                assert(graph.contains_node(graph.entries()[k].0.target));
            }
            assert forall|i: int| 0 <= i < fas@.len() implies graph.has_edge_spec(#[trigger] fas@[i]) by {
                let k = choose|k: int| 0 <= k < graph.entries().len() && graph.entries()[k].0 == fas@[i];
                assert(graph.entries()[k].0 == fas@[i]);
            }
            assert(fas_ordered(graph, fas@, fin));
        }
        fas
    }

    /// The greedy feedback arc set: nodes are taken out of the graph one at
    /// a time, each time the first node (in node order) with no edge to a
    /// node still in, else the first with no edge from a node still in,
    /// else the first of greatest weight out less weight in over the edges
    /// among the nodes still in; in the last case the edges into it from
    /// nodes still in (itself included) join the set. The first kind go to
    /// the end of the order, the others to its front, so that every other
    /// edge leads forward.
    fn greedy_fas(graph: &Graph) -> (r: Vec<Edge>)
        requires
            graph.wf(),
        ensures
            r@ == greedy_fas_spec(graph),
            exists|fin: Seq<int>| fas_ordered(graph, r@, fin),
            is_dag(graph) ==> r@.len() == 0,
    {
        let n = graph.node_count();
        let mut removed: Vec<bool> = vec![false; n];
        let mut fas: Vec<Edge> = Vec::new();
        let ghost mut key: Seq<int> = Seq::new(n as nat, |i: int| 0);
        let ghost mut nf: int = 0;
        let ghost mut nb: int = 0;
        let mut left: usize = n;
        proof {
            crate::rank::tree_walk::lemma_unseen_le(removed@);
            lemma_unseen_all_false(removed@);
            assert(removed@ =~= Seq::new(n as nat, |i: int| false));
            assert(fas@ + greedy_fas_from(graph, removed@, left as nat) =~= greedy_fas_spec(graph));
        }
        while left > 0
            invariant
                graph.wf(),
                n == graph.n(),
                removed@.len() == n,
                key.len() == n,
                crate::order::init_order::unseen(removed@) == left,
                nf >= 0,
                nb >= 0,
                nf + nb + left == n,
                greedy_inv(graph, removed@, fas@, key, nf, nb),
                is_dag(graph) ==> fas@.len() == 0,
                fas@ + greedy_fas_from(graph, removed@, left as nat) == greedy_fas_spec(graph),
            decreases left,
        {
            let ghost rm0 = removed@;
            let ghost fas0 = fas@;
            // a node with no edge to a node still in
            let mut pick: usize = n;
            let mut sink = true;
            let mut j: usize = 0;
            while j < n
                invariant_except_break
                    pick == n,
                invariant
                    graph.wf(),
                    n == graph.n(),
                    removed@ == rm0,
                    rm0.len() == n,
                    j <= n,
                    forall|x: int| 0 <= x < j && !rm0[x] ==> #[trigger] live_out(graph, rm0, x),
                    first_end(graph, rm0, true, 0) == first_end(graph, rm0, true, j as int),
                ensures
                    pick == n ==> forall|x: int| 0 <= x < n && !rm0[x] ==> #[trigger] live_out(graph, rm0, x),
                    pick < n ==> !rm0[pick as int] && !live_out(graph, rm0, pick as int),
                    pick <= n,
                    pick == first_end(graph, rm0, true, 0),
                decreases n - j,
            {
                if !removed[j] && !has_live_out(graph, &removed, j) {
                    pick = j;
                    break;
                }
                j += 1;
            }
            let ghost no_sink = pick == n;
            if pick == n {
                sink = false;
                let mut j: usize = 0;
                while j < n
                    invariant_except_break
                        pick == n,
                    invariant
                        graph.wf(),
                        n == graph.n(),
                        removed@ == rm0,
                        rm0.len() == n,
                        j <= n,
                        pick == n || (pick < n && !rm0[pick as int] && !live_in(graph, rm0, pick as int)),
                        first_end(graph, rm0, false, 0) == first_end(graph, rm0, false, j as int),
                    ensures
                        pick == n || (pick < n && !rm0[pick as int] && !live_in(graph, rm0, pick as int)),
                        pick == first_end(graph, rm0, false, 0),
                    decreases n - j,
                {
                    if !removed[j] && !has_live_in(graph, &removed, j) {
                        pick = j;
                        break;
                    }
                    j += 1;
                }
            }
            let mut greatest = false;
            if pick == n {
                proof {
                    lemma_unseen_some_false(rm0);
                }
                let mut best: i128 = 0;
                let mut j: usize = 0;
                while j < n
                    invariant
                        graph.wf(),
                        n == graph.n(),
                        removed@ == rm0,
                        rm0.len() == n,
                        j <= n,
                        pick == n || (pick < j && !rm0[pick as int]),
                        pick == n ==> forall|x: int| 0 <= x < j ==> rm0[x],
                        exists|x: int| 0 <= x < n && !rm0[x],
                        pick < n ==> best == live_balance(graph, rm0, pick as int),
                        first_greatest(graph, rm0, 0, n as int) == first_greatest(graph, rm0, j as int, pick as int),
                    decreases n - j,
                {
                    if !removed[j] {
                        let d = live_delta(graph, &removed, j);
                        if pick == n || d > best {
                            pick = j;
                            best = d;
                        }
                    }
                    j += 1;
                }
                greatest = true;
            }
            let v = NodeIndex { node_index: pick, which_graph: graph.graph_id() };
            if greatest {
                let edges = graph.edges();
                let mut k: usize = 0;
                while k < edges.len()
                    invariant
                        graph.wf(),
                        n == graph.n(),
                        removed@ == rm0,
                        rm0.len() == n,
                        edges@ == graph.edge_seq(),
                        k <= edges@.len(),
                        (pick as int) < n,
                        fas@.len() >= fas0.len(),
                        fas@.take(fas0.len() as int) == fas0,
                        forall|i: int| fas0.len() <= i < fas@.len() ==> {
                            let e = #[trigger] fas@[i];
                            &&& graph.has_edge_spec(e)
                            &&& e.target.node_index == pick
                            &&& !rm0[e.source.node_index as int]
                        },
                        forall|q: int| 0 <= q < k && (#[trigger] graph.entries()[q]).0.target.node_index == pick
                            && !rm0[graph.entries()[q].0.source.node_index as int] ==> fas@.contains(graph.entries()[q].0),
                        fas@ == fas0 + live_in_edges(graph, rm0, pick as int, k as int),
                    decreases edges@.len() - k,
                {
                    let e = edges[k];
                    proof {
                        assert(e == graph.entries()[k as int].0);
                        assert(graph.contains_node(graph.entries()[k as int].0.source));
                        assert(graph.contains_node(graph.entries()[k as int].0.target));
                        crate::graph::lemma_key_pos_unique(graph.entries(), e, k as int);
                    }
                    proof {
                        assert(live_in_edges(graph, rm0, pick as int, k + 1) =~= live_in_edges(graph, rm0, pick as int, k as int)
                            + if e.target.node_index == pick && !rm0[e.source.node_index as int] {
                            seq![e]
                        } else {
                            Seq::empty()
                        });
                    }
                    if e.target.node_index == pick && !removed[e.source.node_index] {
                        let ghost before = fas@;
                        fas.push(e);
                        proof {
                            assert(fas@.take(fas0.len() as int) =~= before.take(fas0.len() as int));
                            assert(fas@[before.len() as int] == e);
                            assert forall|q: int| 0 <= q < k + 1 && (#[trigger] graph.entries()[q]).0.target.node_index == pick
                                && !rm0[graph.entries()[q].0.source.node_index as int] implies fas@.contains(graph.entries()[q].0) by {
                                if q < k {
                                    let i = choose|i: int| 0 <= i < before.len() && before[i] == graph.entries()[q].0;
                                    assert(fas@[i] == before[i]);
                                }
                            }
                        }
                    }
                    k += 1;
                }
            }
            proof {
                assert(pick as int == greedy_pick(graph, rm0));
                if greatest {
                    assert(fas@ == fas0 + greedy_step_edges(graph, rm0));
                } else {
                    assert(fas@ =~= fas0 + greedy_step_edges(graph, rm0));
                }
                assert(greedy_fas_from(graph, rm0, left as nat) == greedy_step_edges(graph, rm0) + greedy_fas_from(
                    graph,
                    rm0.update(pick as int, true),
                    (left - 1) as nat,
                ));
                assert(fas@ + greedy_fas_from(graph, rm0.update(pick as int, true), (left - 1) as nat) =~= fas0
                    + greedy_fas_from(graph, rm0, left as nat));
            }
            removed.set(pick, true);
            proof {
                if !greatest {
                    assert(fas@.take(fas0.len() as int) =~= fas0);
                }
                greedy_step(graph, rm0, removed@, fas0, fas@, key, nf, nb, pick as int, sink, greatest);
                if sink {
                    key = key.update(pick as int, n - nb);
                    nb = nb + 1;
                } else {
                    key = key.update(pick as int, nf);
                    nf = nf + 1;
                }
                crate::order::init_order::lemma_unseen_set(rm0, pick as int);
                if greatest {
                    assert(no_sink);
                    lemma_no_sink_cycle(graph, rm0);
                }
            }
            left = left - 1;
        }
        proof {
            assert(fas@ + greedy_fas_from(graph, removed@, 0) =~= fas@);
            lemma_unseen_zero(removed@);
            let fin = Seq::new(n as nat, |x: int| -key[x]);
            assert(fas_ordered(graph, fas@, fin)) by {
                assert forall|k: int| 0 <= k < graph.entries().len() implies {
                    let e = (#[trigger] graph.entries()[k]).0;
                    let u = e.source.node_index as int;
                    let w = e.target.node_index as int;
                    if fas@.contains(e) {
                        w == u || fin[w] > fin[u]
                    } else {
                        fin[w] < fin[u]
                    }
                } by {
                    assert(graph.contains_node(graph.entries()[k].0.source));
                    assert(graph.contains_node(graph.entries()[k].0.target));
                    let e = graph.entries()[k].0;
                    if fas@.contains(e) {
                        let i = choose|i: int| 0 <= i < fas@.len() && fas@[i] == e;
                        assert(fas@[i] == e);
                    }
                }
            }
        }
        fas
    }

    /// Reverses a feedback arc set: each of its edges is removed and added
    /// back from target to source, marked as reversed and named after its
    /// source. With the depth-first set on a graph without loops, the result
    /// has no cycle.
    pub fn run(graph: &mut Graph)
        requires
            old(graph).wf(),
        ensures
            reversal_of(final(graph), old(graph)),
            labels_from(final(graph), old(graph)),
            parallel_grown(final(graph), old(graph)),
            old(graph).config_spec().acyclicer == Acyclicer::Greedy ==> forall|x: Edge| #[trigger] old(graph).has_edge_spec(x)
                ==> (final(graph).has_edge_spec(x) <==> !(greedy_fas_spec(old(graph)).contains(x) && !is_loop(x))),
            no_self_loops(old(graph)) ==> is_dag(final(graph)),
            is_dag(old(graph)) ==> final(graph).entries() == old(graph).entries(),
    {
        let ghost g0 = *graph;
        let fas = match graph.config().acyclicer {
            Acyclicer::Greedy => Self::greedy_fas(graph),
            Acyclicer::Dfs => Self::dfs_fas(graph),
        };
        proof {
            if g0.config_spec().acyclicer == Acyclicer::Greedy {
                assert(fas@ == greedy_fas_spec(&g0));
            }
        }
        let ghost fin: Seq<int> = choose|fin: Seq<int>| fas_ordered(&g0, fas@, fin);
        proof {
            assert(fas@.subrange(0, fas@.len() as int) =~= fas@);
            assert forall|x: Edge| #[trigger] graph.has_edge_spec(x) implies is_loop(x) || fin[x.target.node_index as int]
                < fin[x.source.node_index as int] || fas@.subrange(0, fas@.len() as int).contains(x) by {
                let k = crate::index_map::key_pos(g0.entries(), x);
                assert(g0.entries()[k].0 == x);
            }
            assert forall|x: Edge| #[trigger] g0.has_edge_spec(x) implies graph.has_edge_spec(x) || graph.has_edge_spec(rev(x)) by {}
            assert forall|x: Edge| #[trigger] graph.has_edge_spec(x) implies g0.has_edge_spec(x) || g0.has_edge_spec(rev(x)) by {}
            assert(graph.parallel_edges().take(g0.parallel_edges().len() as int) =~= g0.parallel_edges());
        }
        let mut j: usize = 0;
        while j < fas.len()
            invariant
                j <= fas@.len(),
                graph.wf(),
                graph.node_seq() == g0.node_seq(),
                graph.id() == g0.id(),
                graph.config_spec() == g0.config_spec(),
                g0.wf(),
                is_dag(&g0) ==> fas@.len() == 0,
                fas_ordered(&g0, fas@, fin),
                j == 0 ==> graph.entries() == g0.entries(),
                forall|x: Edge|
                    #[trigger] graph.has_edge_spec(x) ==> g0.has_edge_spec(x) || g0.has_edge_spec(rev(x)),
                forall|x: Edge|
                    #[trigger] graph.has_edge_spec(x) && !g0.has_edge_spec(x) ==> marked_reversed(graph.edge_label_spec(x), x.target.node_index as nat),
                forall|x: Edge| #[trigger] g0.has_edge_spec(x) ==> graph.has_edge_spec(x) || graph.has_edge_spec(rev(x)),
                forall|x: Edge| #[trigger] graph.has_edge_spec(x) && is_loop(x) ==> g0.has_edge_spec(x),
                forall|x: Edge|
                    #[trigger] graph.has_edge_spec(x) ==> is_loop(x) || fin[x.target.node_index as int]
                        < fin[x.source.node_index as int] || fas@.subrange(j as int, fas@.len() as int).contains(x),
                forall|x: Edge| #[trigger] graph.has_edge_spec(x) ==> if touched(fas@, j as int, x) {
                    g0.has_edge_spec(rev(x)) && reversed_label_of(graph.edge_label_spec(x), g0.edge_label_spec(rev(x)), x.target.node_index as nat)
                } else {
                    g0.has_edge_spec(x) && graph.edge_label_spec(x) == g0.edge_label_spec(x)
                },
                forall|i: int| 0 <= i < j && graph.has_edge_spec(#[trigger] fas@[i]) ==> touched(fas@, j as int, fas@[i]),
                forall|x: Edge| #[trigger] g0.has_edge_spec(x) && !graph.has_edge_spec(x) ==> exists|i: int| 0 <= i < j && #[trigger] fas@[i] == x,
                parallel_grown(graph, &g0),
                forall|x: Edge| #[trigger] g0.has_edge_spec(x) ==> (graph.has_edge_spec(x) <==> !(fas@.take(j as int).contains(x)
                    && !is_loop(x))),
            decreases fas@.len() - j,
        {
            let edge = fas[j];
            let ghost gb = *graph;
            proof {
                assert(g0.has_edge_spec(fas@[j as int]));
            }
            let removed = graph.remove_edge(&edge);
            if let Some(label) = removed {
                let ghost gm = *graph;
                let mut new_label = label;
                new_label.forward_name = Some(rev_name(edge.source.index()));
                new_label.reversed = Some(true);
                let reversed_edge = Edge::new(edge.target, edge.source);
                proof {
                    let k = crate::index_map::key_pos(gb.entries(), edge);
                    assert(gb.entries()[k].0 == edge);
                    assert(gb.contains_node(gb.entries()[k].0.source));
                    assert(gb.contains_node(gb.entries()[k].0.target));
                }
                graph.add_edge(reversed_edge, new_label);
                proof {
                    lemma_reverse_step(&g0, &gb, &gm, graph, fas@, fin, j as int, edge, new_label);
                    lemma_reverse_labels(&g0, &gb, &gm, graph, fas@, fin, j as int, edge, label, new_label);
                    let re = rev(edge);
                    assert(fas@.take(j + 1) =~= fas@.take(j as int).push(edge));
                    assert forall|x: Edge| #[trigger] g0.has_edge_spec(x) implies (graph.has_edge_spec(x) <==> !(fas@.take(j + 1).contains(x)
                        && !is_loop(x))) by {
                        lemma_contains_push(fas@.take(j as int), edge, x);
                        assert(rev(re) == edge);
                        if x == re && x != edge {
                            if fas@.take(j + 1).contains(x) {
                                let i = choose|i: int| 0 <= i < fas@.take(j + 1).len() && #[trigger] fas@.take(j + 1)[i] == x;
                                assert(fas@[i] == rev(fas@[j as int]));
                                lemma_fas_pair_loop(&g0, fas@, fin, i, j as int);
                            }
                        } else if x != edge {
                            crate::graph::lemma_remove_keeps_others(&gb, &gm, edge, x);
                            crate::graph::lemma_add_keeps_others(&gm, graph, re, new_label, x);
                        }
                    }
                    assert forall|x: Edge| #[trigger] g0.has_edge_spec(x) && !graph.has_edge_spec(x) implies exists|i: int|
                        0 <= i < j + 1 && #[trigger] fas@[i] == x by {
                        if x == edge {
                            assert(fas@[j as int] == x);
                        } else {
                            assert(x != re);
                            crate::graph::lemma_remove_keeps_others(&gb, &gm, edge, x);
                            crate::graph::lemma_add_keeps_others(&gm, graph, re, new_label, x);
                            let i = choose|i: int| 0 <= i < j && #[trigger] fas@[i] == x;
                            assert(fas@[i] == x);
                        }
                    }
                }
            } else {
                proof {
                    assert(!gb.has_edge_spec(edge));
                    assert(graph.entries() == gb.entries());
                    let re = rev(edge);
                    let i0 = choose|i: int| 0 <= i < j && #[trigger] fas@[i] == edge;
                    assert(fas@.take(j + 1) =~= fas@.take(j as int).push(edge));
                    assert(fas@.take(j as int)[i0] == edge);
                    assert forall|x: Edge| #[trigger] g0.has_edge_spec(x) implies (graph.has_edge_spec(x) <==> !(fas@.take(j + 1).contains(x)
                        && !is_loop(x))) by {
                        lemma_contains_push(fas@.take(j as int), edge, x);
                    }
                    assert(rev(fas@[i0]) == re);
                    assert(touched(fas@, j as int, re));
                    assert forall|x: Edge| #[trigger] graph.has_edge_spec(x) implies touched(fas@, j + 1, x) == touched(fas@, j as int, x) by {
                        if touched(fas@, j + 1, x) && x != re {
                            let i = choose|i: int| 0 <= i < j + 1 && rev(#[trigger] fas@[i]) == x;
                            assert(i != j);
                        }
                    }
                    assert forall|x: Edge| #[trigger] graph.has_edge_spec(x) implies if touched(fas@, j + 1, x) {
                        g0.has_edge_spec(rev(x)) && reversed_label_of(graph.edge_label_spec(x), g0.edge_label_spec(rev(x)), x.target.node_index as nat)
                    } else {
                        g0.has_edge_spec(x) && graph.edge_label_spec(x) == g0.edge_label_spec(x)
                    } by {
                        assert(gb.has_edge_spec(x));
                    }
                    assert forall|i: int| 0 <= i < j + 1 && graph.has_edge_spec(#[trigger] fas@[i]) implies touched(fas@, j + 1, fas@[i]) by {
                        assert(gb.has_edge_spec(fas@[i]));
                        assert(touched(fas@, j as int, fas@[i]));
                        let k = choose|k: int| 0 <= k < j && rev(#[trigger] fas@[k]) == fas@[i];
                        assert(rev(fas@[k]) == fas@[i]);
                    }
                    assert forall|x: Edge| #[trigger] g0.has_edge_spec(x) && !graph.has_edge_spec(x) implies exists|i: int|
                        0 <= i < j + 1 && #[trigger] fas@[i] == x by {
                        assert(!gb.has_edge_spec(x));
                        let i = choose|i: int| 0 <= i < j && #[trigger] fas@[i] == x;
                        assert(fas@[i] == x);
                    }
                    assert forall|x: Edge| #[trigger] graph.has_edge_spec(x) implies g0.has_edge_spec(x) || g0.has_edge_spec(rev(x)) by {
                        assert(gb.has_edge_spec(x));
                    }
                    assert forall|x: Edge| #[trigger] graph.has_edge_spec(x) && !g0.has_edge_spec(x) implies marked_reversed(
                        graph.edge_label_spec(x), x.target.node_index as nat) by {
                        assert(gb.has_edge_spec(x));
                        assert(gb.edge_label_spec(x) == graph.edge_label_spec(x));
                    }
                    assert forall|x: Edge| #[trigger] graph.has_edge_spec(x) implies (                        (is_loop(x) || fin[x.target.node_index as int] < fin[x.source.node_index as int]
                        || fas@.subrange(j + 1, fas@.len() as int).contains(x))) by {
                        assert(gb.has_edge_spec(x));
                        assert(x != fas@[j as int]);
                        if fas@.subrange(j as int, fas@.len() as int).contains(x) {
                            lemma_subrange_step(fas@, j as int, x);
                        }
                    }
                }
            }
            j += 1;
        }
        proof {
            assert(fas@.take(fas@.len() as int) =~= fas@);
            assert forall|x: Edge| #[trigger] graph.has_edge_spec(x) implies (g0.has_edge_spec(x) && graph.edge_label_spec(x)
                == g0.edge_label_spec(x)) || (g0.has_edge_spec(rev(x)) && reversed_label_of(
                graph.edge_label_spec(x),
                g0.edge_label_spec(rev(x)),
                x.target.node_index as nat,
            )) by {
                if touched(fas@, j as int, x) {
                } else {
                }
            }
            if no_self_loops(&g0) {
                let ord = |x: int| -fin[x];
                assert forall|k: int| 0 <= k < graph.entries().len() implies ord(
                    (#[trigger] graph.entries()[k]).0.source.node_index as int,
                ) < ord(graph.entries()[k].0.target.node_index as int) by {
                    let x = graph.entries()[k].0;
                    crate::graph::lemma_key_pos_unique(graph.entries(), x, k);
                    assert(graph.has_edge_spec(x));
                    if is_loop(x) {
                        assert(g0.has_edge_spec(x));
                        let k0 = crate::index_map::key_pos(g0.entries(), x);
                        assert(g0.entries()[k0].0 == x);
                    }
                    assert(fas@.subrange(fas@.len() as int, fas@.len() as int).len() == 0);
                }
                assert(acyclic_by(graph, ord));
            }
        }
    }
}

pub proof fn lemma_subrange_step(s: Seq<Edge>, j: int, x: Edge)
    requires
        0 <= j < s.len(),
        s.subrange(j, s.len() as int).contains(x),
        x != s[j],
    ensures
        s.subrange(j + 1, s.len() as int).contains(x),
{
    let i = choose|i: int| 0 <= i < s.subrange(j, s.len() as int).len() && s.subrange(j, s.len() as int)[i] == x;
    assert(i != 0);
    assert(s.subrange(j + 1, s.len() as int)[i - 1] == x);
}

/// One reversal step keeps the invariant of `Acyclic::run`.
proof fn lemma_reverse_step(
    g0: &Graph,
    gb: &Graph,
    gm: &Graph,
    g: &Graph,
    fas: Seq<Edge>,
    fin: Seq<int>,
    j: int,
    edge: Edge,
    new_label: EdgeLabel,
)
    requires
        0 <= j < fas.len(),
        edge == fas[j],
        g0.wf(),
        gb.wf(),
        gm.wf(),
        g.wf(),
        g0.has_edge_spec(edge),
        gb.has_edge_spec(edge),
        gm.entries() == gb.entries().update(crate::index_map::key_pos(gb.entries(), edge), gb.entries().last()).drop_last(),
        !gm.has_edge_spec(edge),
        gm.has_edge_spec(rev(edge)) ==> g.entries() == gm.entries().update(
            crate::index_map::key_pos(gm.entries(), rev(edge)),
            (rev(edge), new_label),
        ),
        !gm.has_edge_spec(rev(edge)) ==> g.entries() == gm.entries().push((rev(edge), new_label)),
        g.has_edge_spec(rev(edge)),
        g.edge_label_spec(rev(edge)) == new_label,
        marked_reversed(new_label, edge.source.node_index as nat),
        fas_ordered(g0, fas, fin),
        forall|x: Edge| #[trigger] gb.has_edge_spec(x) ==> g0.has_edge_spec(x) || g0.has_edge_spec(rev(x)),
        forall|x: Edge|
            #[trigger] gb.has_edge_spec(x) && !g0.has_edge_spec(x) ==> marked_reversed(gb.edge_label_spec(x), x.target.node_index as nat),
        forall|x: Edge| #[trigger] g0.has_edge_spec(x) ==> gb.has_edge_spec(x) || gb.has_edge_spec(rev(x)),
        forall|x: Edge| #[trigger] gb.has_edge_spec(x) && is_loop(x) ==> g0.has_edge_spec(x),
        forall|x: Edge|
            #[trigger] gb.has_edge_spec(x) ==> is_loop(x) || fin[x.target.node_index as int] < fin[x.source.node_index as int]
                || fas.subrange(j, fas.len() as int).contains(x),
    ensures
        forall|x: Edge| #[trigger] g.has_edge_spec(x) ==> g0.has_edge_spec(x) || g0.has_edge_spec(rev(x)),
        forall|x: Edge|
            #[trigger] g.has_edge_spec(x) && !g0.has_edge_spec(x) ==> marked_reversed(g.edge_label_spec(x), x.target.node_index as nat),
        forall|x: Edge| #[trigger] g0.has_edge_spec(x) ==> g.has_edge_spec(x) || g.has_edge_spec(rev(x)),
        forall|x: Edge| #[trigger] g.has_edge_spec(x) && is_loop(x) ==> g0.has_edge_spec(x),
        forall|x: Edge|
            #[trigger] g.has_edge_spec(x) ==> is_loop(x) || fin[x.target.node_index as int] < fin[x.source.node_index as int]
                || fas.subrange(j + 1, fas.len() as int).contains(x),
{
    let re = rev(edge);
    assert(rev(re) == edge);
    assert forall|x: Edge| x != edge && x != re implies (g.has_edge_spec(x) == gb.has_edge_spec(x)) && (gb.has_edge_spec(
        x,
    ) ==> g.edge_label_spec(x) == gb.edge_label_spec(x)) by {
        crate::graph::lemma_remove_keeps_others(gb, gm, edge, x);
        crate::graph::lemma_add_keeps_others(gm, g, re, new_label, x);
    }
    if edge != re {
        crate::graph::lemma_add_keeps_others(gm, g, re, new_label, edge);
    }
    {
        let k = crate::index_map::key_pos(g0.entries(), edge);
        assert(g0.entries()[k].0 == edge);
        assert(fas.contains(edge)) by {
            assert(fas[j] == edge);
        }
        assert forall|x: Edge| #[trigger] g.has_edge_spec(x) implies is_loop(x) || fin[x.target.node_index as int]
            < fin[x.source.node_index as int] || fas.subrange(j + 1, fas.len() as int).contains(x) by {
            if x != edge && x != re {
                assert(gb.has_edge_spec(x));
                if fas.subrange(j, fas.len() as int).contains(x) {
                    lemma_subrange_step(fas, j, x);
                }
            }
        }
    }
    assert forall|x: Edge| #[trigger] g0.has_edge_spec(x) implies g.has_edge_spec(x) || g.has_edge_spec(rev(x)) by {
        if x != edge && x != re {
            assert(gb.has_edge_spec(x) || gb.has_edge_spec(rev(x)));
            if !gb.has_edge_spec(x) {
                assert(rev(x) != edge);
                assert(rev(rev(x)) == x);
                if rev(x) == re {
                    assert(x == edge);
                }
            }
        }
    }
    assert forall|x: Edge| #[trigger] g.has_edge_spec(x) && is_loop(x) implies g0.has_edge_spec(x) by {
        if x != edge && x != re {
            assert(gb.has_edge_spec(x));
        } else if x == re {
            assert(x == edge);
        }
    }
    assert forall|x: Edge| #[trigger] g.has_edge_spec(x) implies g0.has_edge_spec(x) || g0.has_edge_spec(rev(x)) by {
        if x != edge && x != re {
            assert(gb.has_edge_spec(x));
        }
    }
}

/// What restoring reversed edges turned `g0` into `g`: only edges changed;
/// each edge of `g` is an edge of `g0` or the reversal of one, an edge
/// that is new carries neither mark nor name, and no edge of `g0` is lost
/// without its reversal standing in its place.
pub open spec fn restoration_of(g: &Graph, g0: &Graph) -> bool {
    &&& g.wf()
    &&& g.node_seq() == g0.node_seq()
    &&& g.id() == g0.id()
    &&& g.config_spec() == g0.config_spec()
    &&& forall|x: Edge| #[trigger] g.has_edge_spec(x) ==> g0.has_edge_spec(x) || g0.has_edge_spec(rev(x))
    &&& forall|x: Edge|
        #[trigger] g.has_edge_spec(x) && !g0.has_edge_spec(x) ==> g.edge_label_spec(x).reversed is None
            && g.edge_label_spec(x).forward_name is None
    &&& forall|x: Edge| #[trigger] g0.has_edge_spec(x) ==> g.has_edge_spec(x) || g.has_edge_spec(rev(x))
}

/// `l` is marked as the label of a reversed edge.
pub open spec fn is_marked(l: EdgeLabel) -> bool {
    l.reversed == Some(true)
}

/// `l` with the mark and the name of a reversed edge cleared.
pub open spec fn cleared(l: EdgeLabel) -> EdgeLabel {
    EdgeLabel { reversed: None, forward_name: None, ..l }
}

/// The reversal of `x` is an edge of `g` marked as reversed.
pub open spec fn rev_marked(g: &Graph, x: Edge) -> bool {
    g.has_edge_spec(rev(x)) && is_marked(g.edge_label_spec(rev(x)))
}

/// The label of the parallel edge kept last for the end points of `x`.
pub open spec fn last_parallel_label(s: Seq<(Edge, EdgeLabel)>, x: Edge) -> EdgeLabel {
    s[last_pos(s, x)].1
}

/// `s` and `t` keep, for the end points of `x`, a parallel edge or not
/// alike, and the last one with the same label.
pub open spec fn same_parallel_at(s: Seq<(Edge, EdgeLabel)>, t: Seq<(Edge, EdgeLabel)>, x: Edge) -> bool {
    &&& (last_pos(s, x) >= 0 <==> last_pos(t, x) >= 0)
    &&& last_pos(s, x) >= 0 ==> last_parallel_label(s, x) == last_parallel_label(t, x)
}

proof fn lemma_parallel_push(s: Seq<(Edge, EdgeLabel)>, z: Edge, l: EdgeLabel, y: Edge)
    requires
        z != y,
    ensures
        same_parallel_at(s.push((z, l)), s, y),
        last_pos(s.push((z, l)), y) == last_pos(s, y),
{
    assert(s.push((z, l)).drop_last() =~= s);
    crate::graph::lemma_last_pos(s, y, s.len() as int);
    assert(s.take(s.len() as int) =~= s);
}

proof fn lemma_parallel_remove(s: Seq<(Edge, EdgeLabel)>, z: Edge, y: Edge)
    requires
        z != y,
        last_pos(s, z) >= 0,
    ensures
        same_parallel_at(s.remove(last_pos(s, z)), s, y),
    decreases s.len(),
{
    let n = s.len() as int;
    let k = last_pos(s, z);
    assert(s.take(n) =~= s);
    crate::graph::lemma_last_pos(s, z, n);
    crate::graph::lemma_last_pos(s, y, n);
    let t = s.remove(k);
    crate::graph::lemma_last_pos(t, y, t.len() as int);
    assert(t.take(t.len() as int) =~= t);
    if k == n - 1 {
        assert(t =~= s.drop_last());
        assert(s.last().0 == z);
        crate::graph::lemma_last_pos(s.drop_last(), y, n - 1);
        assert(s.drop_last().take(n - 1) =~= s.drop_last());
        if last_pos(s, y) >= 0 {
            assert(s.drop_last()[last_pos(s, y)] == s[last_pos(s, y)]);
        }
    } else {
        assert(s.last().0 != z);
        assert(t.last() == s.last());
        assert(t.drop_last() =~= s.drop_last().remove(k));
        assert(last_pos(s.drop_last(), z) == k);
        if s.last().0 != y {
            lemma_parallel_remove(s.drop_last(), z, y);
            crate::graph::lemma_last_pos(s.drop_last(), y, n - 1);
            assert(s.drop_last().take(n - 1) =~= s.drop_last());
            crate::graph::lemma_last_pos(t.drop_last(), y, n - 2);
            assert(t.drop_last().take(n - 2) =~= t.drop_last());
            if last_pos(s, y) >= 0 {
                assert(s.drop_last()[last_pos(s, y)] == s[last_pos(s, y)]);
                assert(t.drop_last()[last_pos(t, y)] == t[last_pos(t, y)]);
            }
        }
    }
}

/// What undoing the reversals keeps and brings back, edge by edge: an edge
/// not marked as reversed, whose reversal is not a marked edge either,
/// keeps its label; a marked edge, unless its reversal is a marked edge
/// too, is replaced by its reversal with its label, mark and name cleared;
/// and where such an edge (not a loop) stood over an unmarked parallel
/// edge, that edge is back with its label.
pub open spec fn undone_labels(g: &Graph, g0: &Graph) -> bool {
    &&& forall|x: Edge| #[trigger] g0.has_edge_spec(x) && !is_marked(g0.edge_label_spec(x)) && !rev_marked(g0, x)
        ==> g.has_edge_spec(x) && g.edge_label_spec(x) == g0.edge_label_spec(x)
    &&& forall|x: Edge| #[trigger] g0.has_edge_spec(x) && is_marked(g0.edge_label_spec(x)) && !(rev_marked(g0, x) && !is_loop(x))
        ==> g.has_edge_spec(rev(x)) && g.edge_label_spec(rev(x)) == cleared(g0.edge_label_spec(x))
    &&& forall|x: Edge| #[trigger] g0.has_edge_spec(x) && is_marked(g0.edge_label_spec(x)) && !is_loop(x) && !rev_marked(g0, x)
        && last_pos(g0.parallel_edges(), x) >= 0 && !is_marked(last_parallel_label(g0.parallel_edges(), x))
        ==> g.has_edge_spec(x) && g.edge_label_spec(x) == last_parallel_label(g0.parallel_edges(), x)
}

/// The state of `Acyclic::undo` after the first `j` edges of `edges`.
pub open spec fn undo_inv(g: &Graph, g0: &Graph, edges: Seq<Edge>, j: int) -> bool {
    &&& forall|x: Edge| #[trigger] g0.has_edge_spec(x) && !is_marked(g0.edge_label_spec(x)) && !rev_marked(g0, x)
        ==> g.has_edge_spec(x) && g.edge_label_spec(x) == g0.edge_label_spec(x)
    &&& forall|i: int| 0 <= i < j && is_marked(g0.edge_label_spec(#[trigger] edges[i])) && !(rev_marked(g0, edges[i]) && !is_loop(edges[i]))
        ==> g.has_edge_spec(rev(edges[i])) && g.edge_label_spec(rev(edges[i])) == cleared(g0.edge_label_spec(edges[i]))
    &&& forall|i: int| 0 <= i < j && is_marked(g0.edge_label_spec(#[trigger] edges[i])) && !is_loop(edges[i]) && !rev_marked(g0, edges[i])
        && last_pos(g0.parallel_edges(), edges[i]) >= 0 && !is_marked(last_parallel_label(g0.parallel_edges(), edges[i]))
        ==> g.has_edge_spec(edges[i]) && g.edge_label_spec(edges[i]) == last_parallel_label(g0.parallel_edges(), edges[i])
    &&& forall|i: int| j <= i < edges.len() && is_marked(g0.edge_label_spec(#[trigger] edges[i])) && !(rev_marked(g0, edges[i]) && !is_loop(edges[i]))
        ==> g.has_edge_spec(edges[i]) && g.edge_label_spec(edges[i]) == g0.edge_label_spec(edges[i])
            && same_parallel_at(g.parallel_edges(), g0.parallel_edges(), edges[i])
    &&& forall|y: Edge| #[trigger] g.has_edge_spec(y) && is_marked(g.edge_label_spec(y)) ==> g0.has_edge_spec(y)
        && g.edge_label_spec(y) == g0.edge_label_spec(y)
}

/// One step of `Acyclic::undo` that turns the marked edge `edge` back keeps
/// its state.
proof fn lemma_undo_step(
    g0: &Graph,
    gb: &Graph,
    gm: &Graph,
    ga: &Graph,
    g: &Graph,
    edges: Seq<Edge>,
    j: int,
    edge: Edge,
    label: EdgeLabel,
    new_label: EdgeLabel,
    restored: bool,
)
    requires
        g0.wf(),
        gb.wf(),
        gm.wf(),
        ga.wf(),
        g.wf(),
        edges == g0.edge_seq(),
        0 <= j < edges.len(),
        edge == edges[j],
        forall|i: int| 0 <= i < edges.len() && i != j ==> #[trigger] edges[i] != edge,
        g0.has_edge_spec(edge),
        gb.has_edge_spec(edge),
        is_marked(gb.edge_label_spec(edge)),
        label == gb.edge_label_spec(edge),
        new_label == cleared(label),
        gb.node_seq() == g0.node_seq(),
        gb.id() == g0.id(),
        forall|x: Edge| #[trigger] gb.has_edge_spec(x) ==> g0.has_edge_spec(x) || g0.has_edge_spec(rev(x)),
        forall|x: Edge|
            #[trigger] gb.has_edge_spec(x) && !g0.has_edge_spec(x) ==> gb.edge_label_spec(x).reversed is None
                && gb.edge_label_spec(x).forward_name is None,
        forall|x: Edge| #[trigger] g0.has_edge_spec(x) ==> gb.has_edge_spec(x) || gb.has_edge_spec(rev(x)),
        forall|x: Edge|
            #[trigger] gb.has_edge_spec(x) && gb.edge_label_spec(x).reversed == Some(true) ==> edges.subrange(
                j,
                edges.len() as int,
            ).contains(x),
        undo_inv(gb, g0, edges, j),
        gm.entries() == gb.entries().update(crate::index_map::key_pos(gb.entries(), edge), gb.entries().last()).drop_last(),
        !gm.has_edge_spec(edge),
        gm.parallel_edges() == gb.parallel_edges(),
        gm.has_edge_spec(rev(edge)) ==> ga.entries() == gm.entries().update(
            crate::index_map::key_pos(gm.entries(), rev(edge)),
            (rev(edge), new_label),
        ),
        !gm.has_edge_spec(rev(edge)) ==> ga.entries() == gm.entries().push((rev(edge), new_label)),
        ga.has_edge_spec(rev(edge)),
        ga.edge_label_spec(rev(edge)) == new_label,
        ga.parallel_edges() == if gm.has_edge_spec(rev(edge)) {
            gm.parallel_edges().push((rev(edge), gm.edge_label_spec(rev(edge))))
        } else {
            gm.parallel_edges()
        },
        ga.node_seq() == gb.node_seq(),
        ga.id() == gb.id(),
        restored ==> g.entries() == ga.entries().push((edge, last_parallel_label(ga.parallel_edges(), edge)))
            && g.parallel_edges() == ga.parallel_edges().remove(last_pos(ga.parallel_edges(), edge))
            && !ga.has_edge_spec(edge) && last_pos(ga.parallel_edges(), edge) >= 0
            && !is_marked(last_parallel_label(ga.parallel_edges(), edge)),
        !restored ==> g.entries() == ga.entries() && g.parallel_edges() == ga.parallel_edges(),
        last_pos(ga.parallel_edges(), edge) >= 0 && !is_marked(last_parallel_label(ga.parallel_edges(), edge))
            && !ga.has_edge_spec(edge) && ga.contains_node(edge.source) && ga.contains_node(edge.target) ==> restored,
    ensures
        forall|x: Edge| #[trigger] g.has_edge_spec(x) ==> g0.has_edge_spec(x) || g0.has_edge_spec(rev(x)),
        forall|x: Edge|
            #[trigger] g.has_edge_spec(x) && !g0.has_edge_spec(x) ==> g.edge_label_spec(x).reversed is None
                && g.edge_label_spec(x).forward_name is None,
        forall|x: Edge| #[trigger] g0.has_edge_spec(x) ==> g.has_edge_spec(x) || g.has_edge_spec(rev(x)),
        forall|x: Edge|
            #[trigger] g.has_edge_spec(x) && g.edge_label_spec(x).reversed == Some(true) ==> edges.subrange(
                j + 1,
                edges.len() as int,
            ).contains(x),
        undo_inv(g, g0, edges, j + 1),
{
    let re = rev(edge);
    assert(rev(re) == edge);
    let pb = gb.parallel_edges();
    let pa = ga.parallel_edges();
    let pg = g.parallel_edges();
    assert(gb.edge_label_spec(edge) == g0.edge_label_spec(edge));
    assert forall|y: Edge| y != edge && y != re implies (g.has_edge_spec(y) == gb.has_edge_spec(y)) && (gb.has_edge_spec(y)
        ==> g.edge_label_spec(y) == gb.edge_label_spec(y)) && same_parallel_at(pg, pb, y) by {
        crate::graph::lemma_remove_keeps_others(gb, gm, edge, y);
        crate::graph::lemma_add_keeps_others(gm, ga, re, new_label, y);
        if restored {
            crate::graph::lemma_add_keeps_others(ga, g, edge, last_parallel_label(pa, edge), y);
            lemma_parallel_remove(pa, edge, y);
        }
        if gm.has_edge_spec(re) {
            lemma_parallel_push(gm.parallel_edges(), re, gm.edge_label_spec(re), y);
        }
    }
    if edge == re {
        assert(ga.has_edge_spec(edge));
        assert(!restored);
    } else {
        crate::graph::lemma_add_keeps_others(gm, ga, re, new_label, edge);
        assert(!ga.has_edge_spec(edge));
        if gm.has_edge_spec(re) {
            lemma_parallel_push(gm.parallel_edges(), re, gm.edge_label_spec(re), edge);
        }
        assert(same_parallel_at(pa, pb, edge));
        if restored {
            crate::graph::lemma_add_keeps_others(ga, g, edge, last_parallel_label(pa, edge), re);
            assert(g.entries()[g.entries().len() - 1].0 == edge);
            assert(g.has_edge_spec(edge));
            crate::graph::lemma_key_pos_unique(g.entries(), edge, (g.entries().len() - 1) as int);
        } else {
            assert(!g.has_edge_spec(edge));
        }
    }
    assert(g.has_edge_spec(re) && g.edge_label_spec(re) == new_label);
    assert(new_label.reversed is None);
    assert(rev_marked(g0, re)) by {
        assert(g0.has_edge_spec(rev(re)));
    }
    assert forall|x: Edge| #[trigger] g.has_edge_spec(x) implies g0.has_edge_spec(x) || g0.has_edge_spec(rev(x)) by {
        if x != edge && x != re {
            assert(gb.has_edge_spec(x));
        }
    }
    assert forall|x: Edge| #[trigger] g.has_edge_spec(x) && !g0.has_edge_spec(x) implies g.edge_label_spec(x).reversed is None
        && g.edge_label_spec(x).forward_name is None by {
        if x != edge && x != re {
            assert(gb.has_edge_spec(x));
        }
    }
    assert forall|x: Edge| #[trigger] g0.has_edge_spec(x) implies g.has_edge_spec(x) || g.has_edge_spec(rev(x)) by {
        if x != edge && x != re {
            assert(rev(rev(x)) == x);
            assert(gb.has_edge_spec(x) || gb.has_edge_spec(rev(x)));
            if !gb.has_edge_spec(x) {
                assert(rev(x) != edge && rev(x) != re);
            }
        }
    }
    assert forall|x: Edge| #[trigger] g.has_edge_spec(x) && g.edge_label_spec(x).reversed == Some(true) implies edges.subrange(
        j + 1,
        edges.len() as int,
    ).contains(x) by {
        if x != edge && x != re {
            assert(gb.has_edge_spec(x));
            lemma_subrange_step(edges, j, x);
        }
    }
    // undo_inv
    assert forall|x: Edge| #[trigger] g0.has_edge_spec(x) && !is_marked(g0.edge_label_spec(x)) && !rev_marked(g0, x)
        implies g.has_edge_spec(x) && g.edge_label_spec(x) == g0.edge_label_spec(x) by {
        if x != edge && x != re {
            assert(gb.has_edge_spec(x));
        }
    }
    assert forall|i: int| 0 <= i < j + 1 && is_marked(g0.edge_label_spec(#[trigger] edges[i])) && !(rev_marked(g0, edges[i])
        && !is_loop(edges[i])) implies g.has_edge_spec(rev(edges[i])) && g.edge_label_spec(rev(edges[i])) == cleared(
        g0.edge_label_spec(edges[i]),
    ) by {
        let y = edges[i];
        assert(rev(rev(y)) == y);
        if i < j {
            if rev(y) == edge {
                assert(y == re);
            } else if rev(y) != re {
                assert(gb.has_edge_spec(rev(y)));
            }
        }
    }
    assert forall|i: int| 0 <= i < j + 1 && is_marked(g0.edge_label_spec(#[trigger] edges[i])) && !is_loop(edges[i])
        && !rev_marked(g0, edges[i]) && last_pos(g0.parallel_edges(), edges[i]) >= 0 && !is_marked(
        last_parallel_label(g0.parallel_edges(), edges[i]),
    ) implies g.has_edge_spec(edges[i]) && g.edge_label_spec(edges[i]) == last_parallel_label(g0.parallel_edges(), edges[i]) by {
        let y = edges[i];
        if i < j {
            if y != re {
                assert(gb.has_edge_spec(y));
            }
        } else {
            assert(edge != re);
            assert(same_parallel_at(pb, g0.parallel_edges(), edge));
            assert(ga.contains_node(edge.source) && ga.contains_node(edge.target));
            assert(restored);
        }
    }
    assert forall|i: int| j + 1 <= i < edges.len() && is_marked(g0.edge_label_spec(#[trigger] edges[i])) && !(rev_marked(
        g0,
        edges[i],
    ) && !is_loop(edges[i])) implies g.has_edge_spec(edges[i]) && g.edge_label_spec(edges[i]) == g0.edge_label_spec(edges[i])
        && same_parallel_at(pg, g0.parallel_edges(), edges[i]) by {
        let y = edges[i];
        if y != re {
            assert(same_parallel_at(pb, g0.parallel_edges(), y));
        }
    }
    assert forall|y: Edge| #[trigger] g.has_edge_spec(y) && is_marked(g.edge_label_spec(y)) implies g0.has_edge_spec(y)
        && g.edge_label_spec(y) == g0.edge_label_spec(y) by {
        if y != edge && y != re {
            assert(gb.has_edge_spec(y));
        }
    }
}

impl Acyclic {
    /// Turns every edge marked as reversed back: it is removed and added
    /// from target to source with the mark and the name cleared, and where
    /// it stood over a parallel edge not marked as reversed, that edge comes
    /// back. Afterwards no edge is marked as reversed.
    pub fn undo(graph: &mut Graph)
        requires
            old(graph).wf(),
        ensures
            restoration_of(final(graph), old(graph)),
            undone_labels(final(graph), old(graph)),
            forall|x: Edge| #[trigger] final(graph).has_edge_spec(x) ==> final(graph).edge_label_spec(x).reversed != Some(true),
    {
        let ghost g0 = *graph;
        let edges = graph.edges();
        let mut j: usize = 0;
        proof {
            assert forall|x: Edge| #[trigger] graph.has_edge_spec(x) && graph.edge_label_spec(x).reversed == Some(true)
                implies edges@.subrange(0, edges@.len() as int).contains(x) by {
                let k = crate::index_map::key_pos(graph.entries(), x);
                assert(edges@[k] == x);
                assert(edges@.subrange(0, edges@.len() as int) =~= edges@);
            }
            assert forall|i: int| 0 <= i < edges@.len() && is_marked(g0.edge_label_spec(#[trigger] edges@[i])) && !(rev_marked(&g0, edges@[i]) && !is_loop(edges@[i]))
                implies graph.has_edge_spec(edges@[i]) by {
                assert(g0.entries()[i].0 == edges@[i]);
            }
        }
        while j < edges.len()
            invariant
                j <= edges@.len(),
                graph.wf(),
                graph.node_seq() == g0.node_seq(),
                graph.id() == g0.id(),
                graph.config_spec() == g0.config_spec(),
                g0.wf(),
                edges@ == g0.edge_seq(),
                forall|x: Edge|
                    #[trigger] graph.has_edge_spec(x) ==> g0.has_edge_spec(x) || g0.has_edge_spec(rev(x)),
                forall|x: Edge|
                    #[trigger] graph.has_edge_spec(x) && !g0.has_edge_spec(x) ==> graph.edge_label_spec(x).reversed is None
                        && graph.edge_label_spec(x).forward_name is None,
                forall|x: Edge| #[trigger] g0.has_edge_spec(x) ==> graph.has_edge_spec(x) || graph.has_edge_spec(rev(x)),
                forall|x: Edge|
                    #[trigger] graph.has_edge_spec(x) && graph.edge_label_spec(x).reversed == Some(true) ==> edges@.subrange(
                        j as int,
                        edges@.len() as int,
                    ).contains(x),
                undo_inv(graph, &g0, edges@, j as int),
            decreases edges@.len() - j,
        {
            let edge = edges[j];
            let ghost gb = *graph;
            let marked = match graph.edge_label(&edge) {
                Some(l) => match l.reversed {
                    Some(true) => true,
                    _ => false,
                },
                None => false,
            };
            proof {
                assert(g0.entries()[j as int].0 == edge);
                crate::graph::lemma_key_pos_unique(g0.entries(), edge, j as int);
                assert(g0.has_edge_spec(edge));
                assert(g0.contains_node(g0.entries()[j as int].0.source));
                assert(g0.contains_node(g0.entries()[j as int].0.target));
                assert forall|i: int| 0 <= i < edges@.len() && i != j implies #[trigger] edges@[i] != edge by {
                    assert(g0.entries()[i].0 == edges@[i]);
                }
            }
            if marked {
                proof {
                    let k = crate::index_map::key_pos(gb.entries(), edge);
                    assert(gb.entries()[k].0 == edge);
                }
                let removed = graph.remove_edge(&edge);
                let ghost gm = *graph;
                if let Some(label) = removed {
                    let mut new_label = label;
                    new_label.reversed = None;
                    new_label.forward_name = None;
                    let forward_edge = Edge::new(edge.target, edge.source);
                    graph.add_edge(forward_edge, new_label);
                    let ghost ga = *graph;
                    let bring_back = match graph.parallel_label(&edge) {
                        Some(l) => match l.reversed {
                            Some(true) => false,
                            _ => true,
                        },
                        None => false,
                    };
                    let mut restored = false;
                    if bring_back {
                        restored = graph.restore_parallel_edge(&edge);
                    }
                    proof {
                        lemma_undo_step(&g0, &gb, &gm, &ga, graph, edges@, j as int, edge, label, new_label, restored);
                    }
                }
            } else {
                proof {
                    assert forall|x: Edge| #[trigger] graph.has_edge_spec(x) && graph.edge_label_spec(x).reversed == Some(true)
                        implies edges@.subrange(j + 1, edges@.len() as int).contains(x) by {
                        if x == edge {
                            assert(gb.has_edge_spec(edge));
                        }
                        lemma_subrange_step(edges@, j as int, x);
                    }
                    assert(undo_inv(graph, &g0, edges@, j + 1));
                }
            }
            j += 1;
        }
        proof {
            assert forall|x: Edge| #[trigger] graph.has_edge_spec(x) implies graph.edge_label_spec(x).reversed != Some(true) by {
                if graph.edge_label_spec(x).reversed == Some(true) {
                    assert(edges@.subrange(edges@.len() as int, edges@.len() as int).len() == 0);
                }
            }
            assert forall|x: Edge| #[trigger] g0.has_edge_spec(x) && is_marked(g0.edge_label_spec(x)) && !(rev_marked(&g0, x) && !is_loop(x))
                implies graph.has_edge_spec(rev(x)) && graph.edge_label_spec(rev(x)) == cleared(g0.edge_label_spec(x)) by {
                let k = crate::index_map::key_pos(g0.entries(), x);
                assert(edges@[k] == x);
            }
            assert forall|x: Edge| #[trigger] g0.has_edge_spec(x) && is_marked(g0.edge_label_spec(x)) && !is_loop(x) && !rev_marked(&g0, x)
                && last_pos(g0.parallel_edges(), x) >= 0 && !is_marked(last_parallel_label(g0.parallel_edges(), x))
                implies graph.has_edge_spec(x) && graph.edge_label_spec(x) == last_parallel_label(g0.parallel_edges(), x) by {
                let k = crate::index_map::key_pos(g0.entries(), x);
                assert(edges@[k] == x);
            }
        }
    }
}

/// The edge from the `i`-th node of `p` to the next.
pub open spec fn step_edge(p: Seq<NodeIndex>, i: int) -> Edge {
    Edge { source: p[i], target: p[i + 1] }
}

/// `c` is a cycle of `g`: a non-empty list of nodes with an edge from each
/// to the next and from the last back to the first.
pub open spec fn is_cycle(g: &Graph, c: Seq<NodeIndex>) -> bool {
    &&& c.len() > 0
    &&& forall|i: int| 0 <= i < c.len() - 1 ==> g.has_edge_spec(#[trigger] step_edge(c, i))
    &&& g.has_edge_spec(Edge { source: c[c.len() - 1], target: c[0] })
}

/// A numbering that increases along every edge rises along a path.
proof fn lemma_path_rises(g: &Graph, c: Seq<NodeIndex>, ord: spec_fn(int) -> int, i: int)
    requires
        g.wf(),
        acyclic_by(g, ord),
        0 <= i < c.len(),
        forall|k: int| 0 <= k < c.len() - 1 ==> g.has_edge_spec(#[trigger] step_edge(c, k)),
    ensures
        ord(c[0].node_index as int) <= ord(c[i].node_index as int),
    decreases i,
{
    if i > 0 {
        lemma_path_rises(g, c, ord, i - 1);
        let e = step_edge(c, i - 1);
        assert(g.has_edge_spec(e));
        let k = crate::index_map::key_pos(g.entries(), e);
        assert(g.entries()[k].0 == e);
    }
}

/// A graph with a cycle has no numbering that increases along its edges.
pub proof fn lemma_cycle_not_dag(g: &Graph, c: Seq<NodeIndex>)
    requires
        g.wf(),
        is_cycle(g, c),
    ensures
        !is_dag(g),
{
    if is_dag(g) {
        let ord = choose|ord: spec_fn(int) -> int| acyclic_by(g, ord);
        lemma_path_rises(g, c, ord, c.len() - 1);
        let e = Edge { source: c[c.len() - 1], target: c[0] };
        let k = crate::index_map::key_pos(g.entries(), e);
        assert(g.entries()[k].0 == e);
    }
}

/// The running searches form the path `path`: distinct nodes of `g`, each
/// joined to the next by an edge, exactly the nodes marked in `stk`.
#[verifier::opaque]
pub open spec fn path_ok(g: &Graph, path: Seq<NodeIndex>, stk: Seq<bool>) -> bool {
    &&& forall|i: int| 0 <= i < path.len() ==> g.contains_node(#[trigger] path[i])
    &&& forall|i: int, j: int| 0 <= i < j < path.len() ==> #[trigger] path[i] != #[trigger] path[j]
    &&& forall|i: int| 0 <= i < path.len() - 1 ==> g.has_edge_spec(#[trigger] step_edge(path, i))
    &&& forall|x: int| 0 <= x < g.n() ==> (stk[x] <==> exists|i: int| 0 <= i < path.len() && #[trigger] path[i].node_index == x)
}

/// Every list in `cs` is a cycle of `g`.
pub open spec fn all_cycles(g: &Graph, cs: Seq<Vec<NodeIndex>>) -> bool {
    forall|i: int| 0 <= i < cs.len() ==> is_cycle(g, (#[trigger] cs[i])@)
}


#[verifier::rlimit(50)]
proof fn lemma_path_push(g: &Graph, path: Seq<NodeIndex>, stk: Seq<bool>, node: NodeIndex)
    requires
        g.wf(),
        stk.len() == g.n(),
        path_ok(g, path, stk),
        g.contains_node(node),
        !stk[node.node_index as int],
        path.len() > 0 ==> g.has_edge_spec(Edge { source: path[path.len() - 1], target: node }),
    ensures
        path_ok(g, path.push(node), stk.update(node.node_index as int, true)),
{
    reveal(path_ok);
    let p = path.push(node);
    let vi = node.node_index as int;
    let st = stk.update(vi, true);
    assert forall|i: int, j: int| 0 <= i < j < p.len() implies #[trigger] p[i] != #[trigger] p[j] by {
        if j == p.len() - 1 && p[i] == node {
            assert(path[i].node_index == vi);
            assert(stk[vi]);
        }
    }
    assert forall|x: int| 0 <= x < g.n() implies (st[x] <==> exists|i: int| 0 <= i < p.len() && #[trigger] p[i].node_index == x) by {
        if x == vi {
            assert(p[p.len() - 1].node_index == x);
        } else {
            if stk[x] {
                let i = choose|i: int| 0 <= i < path.len() && #[trigger] path[i].node_index == x;
                assert(p[i].node_index == x);
            }
            if exists|i: int| 0 <= i < p.len() && #[trigger] p[i].node_index == x {
                let i = choose|i: int| 0 <= i < p.len() && #[trigger] p[i].node_index == x;
                assert(i < path.len());
                assert(path[i].node_index == x);
            }
        }
    }
    assert forall|i: int| 0 <= i < p.len() - 1 implies g.has_edge_spec(#[trigger] step_edge(p, i)) by {
        if i < path.len() - 1 {
            assert(step_edge(p, i) == step_edge(path, i));
        } else {
            assert(p[i + 1] == node);
        }
    }
    assert forall|i: int| 0 <= i < p.len() implies g.contains_node(#[trigger] p[i]) by {
        if i < path.len() {
            assert(p[i] == path[i]);
        }
    }
}

proof fn lemma_path_find(g: &Graph, path: Seq<NodeIndex>, stk: Seq<bool>, node: NodeIndex)
    requires
        path_ok(g, path, stk),
        g.contains_node(node),
        stk[node.node_index as int],
    ensures
        exists|i: int| 0 <= i < path.len() && path[i] == node,
{
    reveal(path_ok);
    let i = choose|i: int| 0 <= i < path.len() && #[trigger] path[i].node_index == node.node_index;
    assert(g.contains_node(path[i]));
    assert(path[i] == node);
}

#[verifier::rlimit(50)]
proof fn lemma_path_cycle(g: &Graph, path: Seq<NodeIndex>, stk: Seq<bool>, node: NodeIndex, start: int)
    requires
        path_ok(g, path, stk),
        0 <= start < path.len(),
        path[start] == node,
        g.has_edge_spec(Edge { source: path[path.len() - 1], target: node }),
    ensures
        is_cycle(g, path.subrange(start, path.len() as int)),
{
    reveal(path_ok);
    let c = path.subrange(start, path.len() as int);
    assert forall|i: int| 0 <= i < c.len() - 1 implies g.has_edge_spec(#[trigger] step_edge(c, i)) by {
        assert(step_edge(c, i) == step_edge(path, start + i));
    }
    assert(c[c.len() - 1] == path[path.len() - 1]);
}

/// Node `x` lies on some list in `cycles`.
pub open spec fn on_some(cycles: Seq<Vec<NodeIndex>>, x: NodeIndex) -> bool {
    exists|c: int| 0 <= c < cycles.len() && (#[trigger] cycles[c])@.contains(x)
}

/// Every edge of `back` leads to a node of some cycle in `cycles`.
pub open spec fn reported(back: Seq<Edge>, cycles: Seq<Vec<NodeIndex>>) -> bool {
    forall|i: int| 0 <= i < back.len() ==> on_some(cycles, #[trigger] back[i].target)
}

/// Every cycle of `g` passes through a node of some list in `cycles`: no
/// cycle of the graph goes unreported.
pub open spec fn meets_every_cycle(g: &Graph, cycles: Seq<Vec<NodeIndex>>) -> bool {
    forall|c: Seq<NodeIndex>|
        #[trigger] is_cycle(g, c) ==> exists|i: int, j: int|
            0 <= i < cycles.len() && 0 <= j < c.len() && (#[trigger] cycles[i])@.contains(#[trigger] c[j])
}

proof fn lemma_reported_grow(back: Seq<Edge>, cs0: Seq<Vec<NodeIndex>>, cs: Seq<Vec<NodeIndex>>)
    requires
        reported(back, cs0),
        cs.len() >= cs0.len(),
        cs.subrange(0, cs0.len() as int) == cs0,
    ensures
        reported(back, cs),
{
    assert forall|i: int| 0 <= i < back.len() implies on_some(cs, #[trigger] back[i].target) by {
        assert(on_some(cs0, back[i].target));
        let c = choose|c: int| 0 <= c < cs0.len() && (#[trigger] cs0[c])@.contains(back[i].target);
        assert(cs[c] == cs.subrange(0, cs0.len() as int)[c]);
        assert(cs[c]@.contains(back[i].target));
    }
    assert(reported(back, cs));
}

/// A numbering that drops along every step of a path drops from its first
/// node to each later one.
proof fn lemma_fin_drops(g: &Graph, c: Seq<NodeIndex>, fin: Seq<int>, i: int)
    requires
        0 <= i < c.len(),
        forall|k: int| 0 <= k < c.len() - 1 ==> fin[c[k + 1].node_index as int] < fin[#[trigger] c[k].node_index as int],
    ensures
        fin[c[i].node_index as int] <= fin[c[0].node_index as int],
    decreases i,
{
    if i > 0 {
        lemma_fin_drops(g, c, fin, i - 1);
        assert(fin[c[i].node_index as int] < fin[c[i - 1].node_index as int]);
    }
}

/// When a search has finished every node, every cycle of the graph has an
/// edge in `back` whose target lies on it.
proof fn lemma_cycle_meets_back(g: &Graph, vis: Seq<bool>, stk: Seq<bool>, fin: Seq<int>, cnt: int, back: Seq<Edge>, c: Seq<NodeIndex>)
    requires
        search_inv(g, vis, stk, fin, cnt, back),
        forall|x: int| 0 <= x < g.n() ==> vis[x] && !stk[x],
        is_cycle(g, c),
    ensures
        exists|i: int, j: int| 0 <= i < back.len() && 0 <= j < c.len() && back[i].target == c[j],
{
    if !(exists|i: int, j: int| 0 <= i < back.len() && 0 <= j < c.len() && back[i].target == c[j]) {
        assert forall|k: int| 0 <= k < c.len() - 1 implies fin[c[k + 1].node_index as int] < fin[#[trigger] c[k].node_index as int] by {
            let e = step_edge(c, k);
            assert(g.has_edge_spec(e));
            let q = choose|q: int| 0 <= q < g.entries().len() && #[trigger] g.entries()[q].0 == e;
            assert(g.contains_node(g.entries()[q].0.source));
            assert(g.contains_node(g.entries()[q].0.target));
            if back.contains(e) {
                let i = choose|i: int| 0 <= i < back.len() && back[i] == e;
                assert(back[i].target == c[k + 1]);
            }
        }
        let e = Edge { source: c[c.len() - 1], target: c[0] };
        let q = choose|q: int| 0 <= q < g.entries().len() && #[trigger] g.entries()[q].0 == e;
        assert(g.contains_node(g.entries()[q].0.source));
        assert(g.contains_node(g.entries()[q].0.target));
        if back.contains(e) {
            let i = choose|i: int| 0 <= i < back.len() && back[i] == e;
            assert(back[i].target == c[0]);
        }
        lemma_fin_drops(g, c, fin, c.len() - 1);
        assert(false);
    }
}

/// Searches from `node` along every out-edge; an edge into a node whose
/// search is running closes the cycle from that node to the current one,
/// which is recorded, and the edge is added to the ghost list `back`.
fn find_cycles_dfs(
    graph: &Graph,
    node: NodeIndex,
    visited: &mut Vec<bool>,
    stack: &mut Vec<bool>,
    path: &mut Vec<NodeIndex>,
    cycles: &mut Vec<Vec<NodeIndex>>,
    Ghost(fin): Ghost<Seq<int>>,
    Ghost(cnt): Ghost<int>,
    Ghost(back): Ghost<Seq<Edge>>,
) -> (r: (Ghost<Seq<int>>, Ghost<int>, Ghost<Seq<Edge>>))
    requires
        graph.wf(),
        graph.contains_node(node),
        search_inv(graph, old(visited)@, old(stack)@, fin, cnt, back),
        path_ok(graph, old(path)@, old(stack)@),
        old(path)@.len() > 0 ==> graph.has_edge_spec(Edge { source: old(path)@[old(path)@.len() - 1], target: node }),
        all_cycles(graph, old(cycles)@),
        reported(back, old(cycles)@),
    ensures
        final(visited)@.len() == graph.n(),
        final(stack)@ == old(stack)@,
        final(path)@ == old(path)@,
        forall|x: int| 0 <= x < graph.n() && old(visited)@[x] ==> final(visited)@[x],
        final(visited)@[node.node_index as int],
        unvisited(final(visited)@) <= unvisited(old(visited)@),
        all_cycles(graph, final(cycles)@),
        final(cycles)@.len() >= old(cycles)@.len(),
        final(cycles)@.subrange(0, old(cycles)@.len() as int) == old(cycles)@,
        final(cycles)@.len() == old(cycles)@.len() ==> r.2@ == back,
        r.1@ >= cnt,
        search_inv(graph, final(visited)@, final(stack)@, r.0@, r.1@, r.2@),
        reported(r.2@, final(cycles)@),
        old(stack)@[node.node_index as int] ==> old(path)@.len() > 0 && r.2@ == back.push(
            Edge { source: old(path)@[old(path)@.len() - 1], target: node },
        ) && final(visited)@ == old(visited)@ && r.0@ == fin && r.1@ == cnt,
        !old(stack)@[node.node_index as int] ==> r.2@.len() >= back.len() && r.2@.take(back.len() as int) == back
            && new_sources(r.2@, back.len() as int, old(visited)@),
        !old(stack)@[node.node_index as int] ==> search_done(
            graph,
            old(visited)@,
            old(stack)@,
            fin,
            cnt,
            final(visited)@,
            final(stack)@,
            r.0@,
            r.1@,
            node.node_index as int,
        ),
    decreases unvisited(old(visited)@),
{
    let vi = node.node_index;
    if stack[vi] {
        // the path from `node` to the end of the path, closed by the edge into `node`
        proof {
            lemma_path_find(graph, path@, stack@, node);
        }
        let mut start: usize = 0;
        while start < path.len() && path[start] != node
            invariant
                start <= path@.len(),
                exists|i: int| start <= i < path@.len() && path@[i] == node,
            decreases path@.len() - start,
        {
            start += 1;
        }
        let mut cycle: Vec<NodeIndex> = Vec::new();
        let mut k: usize = start;
        while k < path.len()
            invariant
                start <= k <= path@.len(),
                start < path@.len(),
                cycle@ == path@.subrange(start as int, k as int),
            decreases path@.len() - k,
        {
            cycle.push(path[k]);
            proof {
                assert(path@.subrange(start as int, k + 1) =~= path@.subrange(start as int, k as int).push(path@[k as int]));
            }
            k += 1;
        }
        proof {
            if path@.len() == 0 {
                reveal(path_ok);
            }
            lemma_path_cycle(graph, path@, stack@, node, start as int);
        }
        let ghost cs0 = cycles@;
        cycles.push(cycle);
        let ghost e = Edge { source: path@[path@.len() - 1], target: node };
        proof {
            assert forall|i: int| 0 <= i < cycles@.len() implies is_cycle(graph, (#[trigger] cycles@[i])@) by {
                if i < cs0.len() {
                    assert(cycles@[i] == cs0[i]);
                }
            }
            assert(cycles@.subrange(0, cs0.len() as int) =~= cs0);
            reveal(path_ok);
            let u = path@[path@.len() - 1];
            assert(stack@[u.node_index as int]);
            lemma_push_keeps_inv(graph, visited@, stack@, fin, cnt, back, e, u.node_index as int);
            lemma_reported_grow(back, cs0, cycles@);
            let last = cycles@.len() - 1;
            assert(cycles@[last]@[0] == node);
            assert(cycles@[last]@.contains(node));
            assert forall|i: int| 0 <= i < back.push(e).len() implies on_some(cycles@, #[trigger] back.push(e)[i].target) by {
                if i < back.len() {
                    assert(back.push(e)[i] == back[i]);
                    assert(on_some(cycles@, back[i].target));
                } else {
                    assert(back.push(e)[i].target == node);
                    assert(cycles@[last]@.contains(back.push(e)[i].target));
                }
            }
        }
        return (Ghost(fin), Ghost(cnt), Ghost(back.push(e)));
    }
    if visited[vi] {
        proof {
            assert(back.take(back.len() as int) =~= back);
            assert(cycles@.subrange(0, cycles@.len() as int) =~= cycles@);
        }
        return (Ghost(fin), Ghost(cnt), Ghost(back));
    }
    let ghost vis0 = visited@;
    let ghost stk0 = stack@;
    let ghost path0 = path@;
    let ghost cs0 = cycles@;
    visited.set(vi, true);
    stack.set(vi, true);
    path.push(node);
    proof {
        lemma_unvisited_set(vis0, vi as int);
        lemma_path_push(graph, path0, stk0, node);
        assert forall|k: int| 0 <= k < graph.entries().len() implies {
            let u = (#[trigger] graph.entries()[k]).0.source.node_index as int;
            let w = graph.entries()[k].0.target.node_index as int;
            visited@[u] && !stack@[u] ==> if back.contains(graph.entries()[k].0) {
                w == u || stack@[w] || (visited@[w] && fin[w] > fin[u])
            } else {
                visited@[w] && !stack@[w] && fin[w] < fin[u]
            }
        } by {
            assert(graph.contains_node(graph.entries()[k].0.source));
            assert(graph.contains_node(graph.entries()[k].0.target));
        }
        assert(cycles@.subrange(0, cs0.len() as int) =~= cs0);
        assert(back.take(back.len() as int) =~= back);
    }
    let es = graph.out_edges(node);
    proof {
        assert forall|jj: int| 0 <= jj < es@.len() implies !back.contains(#[trigger] es@[jj]) by {
            lemma_incident_index(graph.entries(), node, true, jj);
            if back.contains(es@[jj]) {
                let i = choose|i: int| 0 <= i < back.len() && back[i] == es@[jj];
                assert(vis0[back[i].source.node_index as int]);
            }
        }
    }
    let ghost mut f = fin;
    let ghost mut c = cnt;
    let ghost mut bk = back;
    let mut j: usize = 0;
    while j < es.len()
        invariant
            graph.wf(),
            graph.contains_node(node),
            node.node_index == vi,
            es@ == graph.out_edges_spec(node),
            j <= es@.len(),
            search_inv(graph, visited@, stack@, f, c, bk),
            stack@ == stk0.update(vi as int, true),
            path@ == path0.push(node),
            path_ok(graph, path@, stack@),
            visited@[vi as int],
            c >= cnt,
            unvisited(visited@) < unvisited(vis0),
            vis0 == old(visited)@,
            stk0 == old(stack)@,
            path0 == old(path)@,
            cs0 == old(cycles)@,
            vis0.len() == graph.n(),
            stk0.len() == graph.n(),
            !vis0[vi as int],
            !stk0[vi as int],
            forall|x: int| 0 <= x < vis0.len() && vis0[x] ==> visited@[x],
            forall|x: int| 0 <= x < vis0.len() && vis0[x] && !stk0[x] ==> f[x] == fin[x],
            all_cycles(graph, cycles@),
            cycles@.len() >= cs0.len(),
            cycles@.subrange(0, cs0.len() as int) == cs0,
            cycles@.len() == cs0.len() ==> bk == back,
            reported(bk, cycles@),
            bk.len() >= back.len(),
            bk.take(back.len() as int) == back,
            new_sources(bk, back.len() as int, vis0),
            forall|jj: int|
                0 <= jj < j ==> {
                    let w = (#[trigger] es@[jj]).target.node_index as int;
                    if bk.contains(es@[jj]) {
                        w == vi || stack@[w]
                    } else {
                        visited@[w] && !stack@[w] && f[w] < c
                    }
                },
            forall|jj: int| j <= jj < es@.len() ==> !bk.contains(#[trigger] es@[jj]),
        decreases es@.len() - j,
    {
        let edge = es[j];
        proof {
            lemma_incident_index(graph.entries(), node, true, j as int);
            let k = choose|k: int| 0 <= k < graph.entries().len() && #[trigger] graph.entries()[k].0 == es@[j as int];
            assert(graph.contains_node(graph.entries()[k].0.target));
            crate::graph::lemma_key_pos_unique(graph.entries(), edge, k);
            assert(path@[path@.len() - 1] == node);
            lemma_unvisited_mono(vis0, visited@);
        }
        let ghost vis_pre = visited@;
        let ghost stk_pre = stack@;
        let ghost bk_pre = bk;
        let ghost cs_pre = cycles@;
        let ghost f_pre = f;
        let ghost c_pre = c;
        let (Ghost(f2), Ghost(c2), Ghost(b2)) = find_cycles_dfs(
            graph,
            edge.target,
            visited,
            stack,
            path,
            cycles,
            Ghost(f),
            Ghost(c),
            Ghost(bk),
        );
        proof {
            let w = edge.target.node_index as int;
            assert(edge == es@[j as int]);
            assert(edge.source == node);
            f = f2;
            c = c2;
            bk = b2;
            assert(cycles@.subrange(0, cs0.len() as int) =~= cycles@.subrange(0, cs_pre.len() as int).subrange(0, cs0.len() as int));
            if stk_pre[w] {
                assert(b2 == bk_pre.push(edge));
                assert(bk.take(back.len() as int) =~= bk_pre.take(back.len() as int));
                assert forall|i: int| back.len() <= i < bk.len() implies !vis0[(#[trigger] bk[i]).source.node_index as int] by {
                    if i < bk_pre.len() {
                        assert(bk[i] == bk_pre[i]);
                    }
                }
                assert forall|jj: int| j + 1 <= jj < es@.len() implies !bk.contains(#[trigger] es@[jj]) by {
                    lemma_out_edges_distinct(graph, node, es@, j as int, jj);
                    lemma_contains_push(bk_pre, edge, es@[jj]);
                }
                assert forall|jj: int| 0 <= jj < j + 1 implies {
                    let w = (#[trigger] es@[jj]).target.node_index as int;
                    if bk.contains(es@[jj]) {
                        w == vi || stack@[w]
                    } else {
                        visited@[w] && !stack@[w] && f[w] < c
                    }
                } by {
                    lemma_contains_push(bk_pre, edge, es@[jj]);
                    if jj < j {
                        lemma_out_edges_distinct(graph, node, es@, jj, j as int);
                    }
                }
            } else {
                assert forall|x: int| 0 <= x < vis0.len() && vis0[x] && !stk0[x] implies f2[x] == fin[x] by {
                    assert(vis_pre[x]);
                    assert(x != vi);
                    assert(stk_pre[x] == stk0[x]);
                }
                assert(bk.take(back.len() as int) =~= bk.take(bk_pre.len() as int).take(back.len() as int));
                assert forall|i: int| back.len() <= i < bk.len() implies !vis0[(#[trigger] bk[i]).source.node_index as int] by {
                    if i < bk_pre.len() {
                        assert(bk.take(bk_pre.len() as int)[i] == bk_pre[i]);
                    } else {
                        assert(!vis_pre[bk[i].source.node_index as int]);
                    }
                }
                assert forall|jj: int| 0 <= jj < j + 1 implies {
                    let w = (#[trigger] es@[jj]).target.node_index as int;
                    if bk.contains(es@[jj]) {
                        w == vi || stack@[w]
                    } else {
                        visited@[w] && !stack@[w] && f[w] < c
                    }
                } by {
                    lemma_incident_index(graph.entries(), node, true, jj);
                    let k = choose|k: int| 0 <= k < graph.entries().len() && #[trigger] graph.entries()[k].0 == es@[jj];
                    assert(graph.contains_node(graph.entries()[k].0.target));
                    assert(vis_pre.len() == graph.n());
                    lemma_grown_contains(bk_pre, bk, es@[jj], vis_pre);
                    if jj < j {
                        assert(vis_pre[es@[jj].target.node_index as int]);
                    } else {
                        assert(!bk_pre.contains(es@[jj]));
                    }
                }
                assert forall|jj: int| j + 1 <= jj < es@.len() implies !bk.contains(#[trigger] es@[jj]) by {
                    lemma_incident_index(graph.entries(), node, true, jj);
                    assert(vis_pre.len() == graph.n());
                    lemma_grown_contains(bk_pre, bk, es@[jj], vis_pre);
                }
            }
        }
        j += 1;
    }
    stack.set(vi, false);
    path.pop();
    let ghost f_end = f.update(vi as int, c);
    proof {
        assert(stack@ =~= stk0);
        assert(path@ =~= path0);
        lemma_finish_keeps_inv(graph, visited@, stk0, f, c, bk, node, es@);
    }
    (Ghost(f_end), Ghost(c + 1), Ghost(bk))
}

/// The cycles met by a depth-first search from every node not reached
/// yet, in node order: each is a cycle of the graph, there is one exactly
/// when the graph has a cycle, and every cycle of the graph passes through
/// a node of a reported one.
pub fn find_cycles(graph: &Graph) -> (r: Vec<Vec<NodeIndex>>)
    requires
        graph.wf(),
    ensures
        all_cycles(graph, r@),
        r@.len() == 0 <==> is_dag(graph),
        meets_every_cycle(graph, r@),
{
    let n = graph.node_count();
    let id = graph.graph_id();
    let mut cycles: Vec<Vec<NodeIndex>> = Vec::new();
    let mut visited: Vec<bool> = Vec::new();
    let mut stack: Vec<bool> = Vec::new();
    let mut path: Vec<NodeIndex> = Vec::new();
    let mut i: usize = 0;
    while i < n
        invariant
            i <= n,
            visited@.len() == i,
            stack@.len() == i,
            forall|x: int| 0 <= x < i ==> !visited@[x] && !stack@[x],
        decreases n - i,
    {
        visited.push(false);
        stack.push(false);
        i += 1;
    }
    let ghost mut fin: Seq<int> = Seq::new(n as nat, |x: int| 0);
    let ghost mut cnt: int = 0;
    let ghost mut back: Seq<Edge> = Seq::empty();
    proof {
        reveal(path_ok);
    }
    let mut i: usize = 0;
    while i < n
        invariant
            n == graph.n(),
            id == graph.id(),
            graph.wf(),
            i <= n,
            visited@.len() == n,
            stack@.len() == n,
            path@.len() == 0,
            path_ok(graph, path@, stack@),
            forall|x: int| 0 <= x < n ==> !stack@[x],
            forall|x: int| 0 <= x < i ==> visited@[x],
            all_cycles(graph, cycles@),
            search_inv(graph, visited@, stack@, fin, cnt, back),
            reported(back, cycles@),
            cycles@.len() == 0 ==> back.len() == 0,
        decreases n - i,
    {
        let v = NodeIndex { node_index: i, which_graph: id };
        if !visited[i] {
            let ghost cs_pre = cycles@;
            let (Ghost(f2), Ghost(c2), Ghost(b2)) = find_cycles_dfs(
                graph,
                v,
                &mut visited,
                &mut stack,
                &mut path,
                &mut cycles,
                Ghost(fin),
                Ghost(cnt),
                Ghost(back),
            );
            proof {
                fin = f2;
                cnt = c2;
                back = b2;
            }
        }
        i += 1;
    }
    proof {
        if cycles@.len() == 0 {
            assert(back =~= Seq::<Edge>::empty());
            let ord = |x: int| -fin[x];
            assert forall|k: int| 0 <= k < graph.entries().len() implies ord(
                (#[trigger] graph.entries()[k]).0.source.node_index as int,
            ) < ord(graph.entries()[k].0.target.node_index as int) by {
                assert(graph.contains_node(graph.entries()[k].0.source));
                assert(graph.contains_node(graph.entries()[k].0.target));
            }
            assert(acyclic_by(graph, ord));
        } else {
            assert(is_cycle(graph, cycles@[0]@));
            lemma_cycle_not_dag(graph, cycles@[0]@);
        }
        assert forall|c: Seq<NodeIndex>| #[trigger] is_cycle(graph, c) implies exists|i: int, j: int|
            0 <= i < cycles@.len() && 0 <= j < c.len() && (#[trigger] cycles@[i])@.contains(#[trigger] c[j]) by {
            lemma_cycle_meets_back(graph, visited@, stack@, fin, cnt, back, c);
            let (bi, bj) = choose|bi: int, bj: int| 0 <= bi < back.len() && 0 <= bj < c.len() && back[bi].target == c[bj];
            assert(on_some(cycles@, back[bi].target));
            let ci = choose|ci: int| 0 <= ci < cycles@.len() && (#[trigger] cycles@[ci])@.contains(back[bi].target);
            assert(cycles@[ci]@.contains(c[bj]));
        }
    }
    cycles
}

} // verus!
