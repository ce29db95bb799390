//! Decomposition of a history by the sessions that share variables.
//!
//! The communication graph has a vertex per session with a transaction and
//! an edge between two sessions that access a common variable. A history is
//! checked component by component of this graph.
use vstd::prelude::*;

use crate::graph::biconnected::{has_list, non_group_of, pair_list, vertex_list, BiconnectedComponentWalker};
use crate::graph::ugraph::{lemma_with_edge_succ, sort_increasing, strictly_increasing, UGraph, UGraphView};
use crate::collections::{u64_set_contains, u64_set_contents, u64_set_insert, u64_set_new, uadj_succ, U64Set};
use crate::history::atomic::types::{AtomicTransactionInfo, AtomicView};
use crate::history::atomic::{mentions_var, txn_mentions, AtomicTransactionPO};
use crate::label::Label;

verus! {

broadcast use vstd::seq_lib::group_seq_properties, vstd::set_lib::group_set_lib_default, vstd::set::group_set_axioms;

/// Session `s` (counted from 0) has a transaction that writes or reads the
/// variable named `x`.
pub open spec fn session_mentions(av: AtomicView, s: int, x: Seq<char>) -> bool {
    exists|t: int| 0 <= t < av[s].len() && #[trigger] txn_mentions(av, s, t, x)
}

/// Sessions `a` and `b` (numbered from 1) both access some variable.
pub open spec fn share_variable(av: AtomicView, a: u64, b: u64) -> bool {
    1 <= a <= av.len() && 1 <= b <= av.len()
        && exists|x: Seq<char>| #[trigger] session_mentions(av, a - 1, x) && session_mentions(av, b - 1, x)
}

/// The communication graph of an atomic view: a vertex per session (numbered
/// from 1) with a transaction, and an edge between two distinct sessions
/// that access a common variable.
pub open spec fn comm_view(av: AtomicView) -> UGraphView {
    Map::new(
        |v: u64| 1 <= v <= av.len() && av[v - 1].len() > 0,
        |v: u64| Set::new(|w: u64| w != v && share_variable(av, v, w)),
    )
}

/// Whether the transaction writes or reads the variable named like `x`.
fn txn_mentions_label<V: Label>(info: &AtomicTransactionInfo<V>, x: &V) -> (r: bool)
    ensures
        r == (info.view().0.contains(x.label()) || exists|a: (u64, u64)| #[trigger] info.view().1.contains((x.label(), a))),
{
    let mut k: usize = 0;
    while k < info.writes.len()
        invariant
            0 <= k <= info.writes@.len(),
            forall|m: int| 0 <= m < k ==> #[trigger] info.writes@[m].label() != x.label(),
        decreases info.writes@.len() - k,
    {
        if info.writes[k].same_label(x) {
            assert(info.view().0.contains(x.label()));
            return true;
        }
        k = k + 1;
    }
    let mut k: usize = 0;
    while k < info.reads.len()
        invariant
            0 <= k <= info.reads@.len(),
            forall|m: int| 0 <= m < info.writes@.len() ==> #[trigger] info.writes@[m].label() != x.label(),
            forall|m: int| 0 <= m < k ==> #[trigger] info.reads@[m].0.label() != x.label(),
        decreases info.reads@.len() - k,
    {
        if info.reads[k].0.same_label(x) {
            assert(info.view().1.contains((x.label(), info.reads@[k as int].1@)));
            return true;
        }
        k = k + 1;
    }
    assert forall|a: (u64, u64)| !info.view().1.contains((x.label(), a)) by {
        if info.view().1.contains((x.label(), a)) {
            let i = choose|i: int| 0 <= i < info.reads@.len() && #[trigger] info.reads@[i].0.label() == x.label() && info.reads@[i].1@ == a;
            assert(info.reads@[i].0.label() != x.label());
        }
    }
    false
}

/// Whether session `s` (counted from 0) writes or reads the variable named
/// like `x`.
fn session_mentions_label<V: Label>(po: &AtomicTransactionPO<V>, s: usize, x: &V) -> (r: bool)
    requires
        s < po.av().len(),
    ensures
        r == session_mentions(po.av(), s as int, x.label()),
{
    let ghost av = po.av();
    let n = po.history.0[s].len();
    let mut t: usize = 0;
    while t < n
        invariant
            s < po.history.0@.len(),
            av == po.av(),
            n == av[s as int].len(),
            0 <= t <= n,
            forall|u: int| 0 <= u < t ==> !#[trigger] txn_mentions(av, s as int, u, x.label()),
        decreases n - t,
    {
        if txn_mentions_label(&po.history.0[s][t], x) {
            assert(txn_mentions(av, s as int, t as int, x.label()));
            return true;
        }
        t = t + 1;
    }
    false
}

/// The sessions (numbered from 1, in increasing order) that access the
/// variable named like `x`.
fn sessions_mentioning<V: Label>(po: &AtomicTransactionPO<V>, x: &V) -> (r: Vec<u64>)
    ensures
        forall|i: int, j: int| 0 <= i < j < r@.len() ==> #[trigger] r@[i] < #[trigger] r@[j],
        forall|v: u64| r@.contains(v) <==> 1 <= v <= po.av().len() && session_mentions(po.av(), v - 1, x.label()),
{
    let ghost av = po.av();
    let mut r: Vec<u64> = Vec::new();
    let mut s: usize = 0;
    while s < po.history.0.len()
        invariant
            av == po.av(),
            0 <= s <= av.len(),
            forall|i: int, j: int| 0 <= i < j < r@.len() ==> #[trigger] r@[i] < #[trigger] r@[j],
            forall|i: int| 0 <= i < r@.len() ==> #[trigger] r@[i] <= s,
            forall|v: u64| r@.contains(v) <==> 1 <= v <= s && session_mentions(av, v - 1, x.label()),
        decreases av.len() - s,
    {
        let ghost r0 = r@;
        if session_mentions_label(po, s, x) {
            r.push((s + 1) as u64);
        }
        assert forall|v: u64| r@.contains(v) <==> 1 <= v <= s + 1 && session_mentions(av, v - 1, x.label()) by {
            if r@.contains(v) && !r0.contains(v) {
                assert(v == s + 1);
            }
            if r0.contains(v) {
                let l = choose|l: int| 0 <= l < r0.len() && r0[l] == v;
                assert(r@[l] == v);
            }
            if v == s + 1 && session_mentions(av, v - 1, x.label()) {
                assert(r@[r@.len() - 1] == v);
            }
        }
        s = s + 1;
    }
    r
}

/// Neighbourhoods of the graph after adding every edge between the
/// listed sessions, the first `j` rows of pairs.
spec fn pairs_before(ss: Seq<u64>, j: int, k: int, v: u64, w: u64) -> bool {
    exists|p: int, q: int| 0 <= p < q < ss.len() && (p < j || (p == j && q < k))
        && ((ss[p] == v && ss[q] == w) || (ss[p] == w && ss[q] == v))
}

/// Adds an edge between every two distinct sessions of `ss`.
fn connect_all(graph: &mut UGraph, ss: &Vec<u64>)
    requires
        forall|i: int, j: int| 0 <= i < j < ss@.len() ==> #[trigger] ss@[i] < #[trigger] ss@[j],
        forall|i: int| 0 <= i < ss@.len() ==> old(graph)@.dom().contains(#[trigger] ss@[i]),
    ensures
        final(graph)@.dom() == old(graph)@.dom(),
        forall|v: u64, w: u64| #[trigger] uadj_succ(final(graph)@, v).contains(w)
            <==> uadj_succ(old(graph)@, v).contains(w) || (v != w && ss@.contains(v) && ss@.contains(w)),
{
    let ghost g0 = graph@;
    let mut j: usize = 0;
    while j < ss.len()
        invariant
            0 <= j <= ss@.len(),
            graph@.dom() == g0.dom(),
            forall|i: int, l: int| 0 <= i < l < ss@.len() ==> #[trigger] ss@[i] < #[trigger] ss@[l],
            forall|i: int| 0 <= i < ss@.len() ==> g0.dom().contains(#[trigger] ss@[i]),
            forall|v: u64, w: u64| #[trigger] uadj_succ(graph@, v).contains(w)
                <==> uadj_succ(g0, v).contains(w) || pairs_before(ss@, j as int, 0, v, w),
        decreases ss@.len() - j,
    {
        let mut k: usize = j + 1;
        assert forall|v: u64, w: u64| pairs_before(ss@, j as int, 0, v, w) <==> pairs_before(ss@, j as int, k as int, v, w) by {
            if pairs_before(ss@, j as int, k as int, v, w) {
                let (p, q) = choose|p: int, q: int| 0 <= p < q < ss@.len() && (p < j || (p == j && q < k))
                    && ((ss@[p] == v && ss@[q] == w) || (ss@[p] == w && ss@[q] == v));
                assert(p < j);
            }
        }
        while k < ss.len()
            invariant
                0 <= j < k <= ss@.len(),
                graph@.dom() == g0.dom(),
                forall|i: int, l: int| 0 <= i < l < ss@.len() ==> #[trigger] ss@[i] < #[trigger] ss@[l],
                forall|i: int| 0 <= i < ss@.len() ==> g0.dom().contains(#[trigger] ss@[i]),
                forall|v: u64, w: u64| #[trigger] uadj_succ(graph@, v).contains(w)
                    <==> uadj_succ(g0, v).contains(w) || pairs_before(ss@, j as int, k as int, v, w),
            decreases ss@.len() - k,
        {
            let ghost g1 = graph@;
            proof {
                lemma_with_edge_succ(g1, ss@[j as int], ss@[k as int]);
            }
            graph.add_edge(ss[j], ss[k]);
            assert(graph@.dom() =~= g0.dom());
            assert forall|v: u64, w: u64| #[trigger] uadj_succ(graph@, v).contains(w)
                <==> uadj_succ(g0, v).contains(w) || pairs_before(ss@, j as int, k + 1, v, w) by {
                if pairs_before(ss@, j as int, k + 1, v, w) && !pairs_before(ss@, j as int, k as int, v, w) {
                    let (p, q) = choose|p: int, q: int| 0 <= p < q < ss@.len() && (p < j || (p == j && q < k + 1))
                        && ((ss@[p] == v && ss@[q] == w) || (ss@[p] == w && ss@[q] == v));
                    assert(p == j && q == k);
                }
                if (v == ss@[j as int] && w == ss@[k as int]) || (w == ss@[j as int] && v == ss@[k as int]) {
                    assert(pairs_before(ss@, j as int, k + 1, v, w));
                }
            }
            k = k + 1;
        }
        assert forall|v: u64, w: u64| pairs_before(ss@, j as int, k as int, v, w) <==> pairs_before(ss@, j + 1, 0, v, w) by {
            if pairs_before(ss@, j + 1, 0, v, w) {
                let (p, q) = choose|p: int, q: int| 0 <= p < q < ss@.len() && (p < j + 1 || (p == j + 1 && q < 0))
                    && ((ss@[p] == v && ss@[q] == w) || (ss@[p] == w && ss@[q] == v));
                assert(pairs_before(ss@, j as int, k as int, v, w));
            }
        }
        j = j + 1;
    }
    assert forall|v: u64, w: u64| pairs_before(ss@, ss@.len() as int, 0, v, w) <==> (v != w && ss@.contains(v) && ss@.contains(w)) by {
        if v != w && ss@.contains(v) && ss@.contains(w) {
            let p = choose|p: int| 0 <= p < ss@.len() && ss@[p] == v;
            let q = choose|q: int| 0 <= q < ss@.len() && ss@[q] == w;
            if p < q {
                assert(pairs_before(ss@, ss@.len() as int, 0, v, w));
            } else {
                assert(q < p);
                assert(pairs_before(ss@, ss@.len() as int, 0, v, w));
            }
        }
        if pairs_before(ss@, ss@.len() as int, 0, v, w) {
            let (p, q) = choose|p: int, q: int| 0 <= p < q < ss@.len() && (p < ss@.len() || (p == ss@.len() && q < 0))
                && ((ss@[p] == v && ss@[q] == w) || (ss@[p] == w && ss@[q] == v));
            assert(ss@[p] < ss@[q]);
            assert(ss@.contains(ss@[p]) && ss@.contains(ss@[q]));
        }
    }
}

/// The communication graph of the partial order's history: a vertex per
/// session with a transaction, and an edge between two distinct sessions
/// that read or write a common variable.
pub fn communication_graph<V: Label>(po: &AtomicTransactionPO<V>) -> (g: UGraph)
    requires
        po.well_formed(),
    ensures
        g@ == comm_view(po.av()),
{
    let ghost av = po.av();
    let mut graph = UGraph::new();
    let mut s: usize = 0;
    while s < po.history.0.len()
        invariant
            av == po.av(),
            0 <= s <= av.len(),
            forall|v: u64| graph@.dom().contains(v) <==> 1 <= v <= s && av[v - 1].len() > 0,
            forall|v: u64, w: u64| !#[trigger] uadj_succ(graph@, v).contains(w),
        decreases av.len() - s,
    {
        if po.history.0[s].len() > 0 {
            let ghost g1 = graph@;
            graph.add_vertex((s + 1) as u64);
            assert forall|v: u64, w: u64| !#[trigger] uadj_succ(graph@, v).contains(w) by {
                assert(uadj_succ(graph@, v) == uadj_succ(g1, v));
            }
        }
        s = s + 1;
    }
    let ghost g0 = graph@;
    let mut i: usize = 0;
    while i < po.write_read_relation.len()
        invariant
            av == po.av(),
            po.well_formed(),
            0 <= i <= po.write_read_relation@.len(),
            graph@.dom() == g0.dom(),
            forall|v: u64| g0.dom().contains(v) <==> 1 <= v <= av.len() && av[v - 1].len() > 0,
            forall|v: u64, w: u64| #[trigger] uadj_succ(graph@, v).contains(w) <==> v != w && 1 <= v <= av.len() && 1 <= w <= av.len()
                && exists|j: int| 0 <= j < i && #[trigger] session_mentions(av, v - 1, po.write_read_relation@[j].0.label())
                    && session_mentions(av, w - 1, po.write_read_relation@[j].0.label()),
        decreases po.write_read_relation@.len() - i,
    {
        let x = &po.write_read_relation[i].0;
        let ss = sessions_mentioning(po, x);
        proof {
            assert forall|l: int| 0 <= l < ss@.len() implies graph@.dom().contains(#[trigger] ss@[l]) by {
                assert(ss@.contains(ss@[l]));
                let v = ss@[l];
                let t = choose|t: int| 0 <= t < av[v - 1].len() && #[trigger] txn_mentions(av, v - 1, t, x.label());
            }
        }
        let ghost g1 = graph@;
        connect_all(&mut graph, &ss);
        assert forall|v: u64, w: u64| #[trigger] uadj_succ(graph@, v).contains(w) <==> v != w && 1 <= v <= av.len() && 1 <= w <= av.len()
            && exists|j: int| 0 <= j < i + 1 && #[trigger] session_mentions(av, v - 1, po.write_read_relation@[j].0.label())
                && session_mentions(av, w - 1, po.write_read_relation@[j].0.label()) by {
            if uadj_succ(g1, v).contains(w) {
                let j = choose|j: int| 0 <= j < i && #[trigger] session_mentions(av, v - 1, po.write_read_relation@[j].0.label())
                    && session_mentions(av, w - 1, po.write_read_relation@[j].0.label());
                assert(0 <= j < i + 1);
            }
            if v != w && ss@.contains(v) && ss@.contains(w) {
                assert(session_mentions(av, v - 1, po.write_read_relation@[i as int].0.label()));
            }
            if v != w && 1 <= v <= av.len() && 1 <= w <= av.len() && exists|j: int| 0 <= j < i + 1
                && #[trigger] session_mentions(av, v - 1, po.write_read_relation@[j].0.label())
                && session_mentions(av, w - 1, po.write_read_relation@[j].0.label()) {
                let j = choose|j: int| 0 <= j < i + 1 && #[trigger] session_mentions(av, v - 1, po.write_read_relation@[j].0.label())
                    && session_mentions(av, w - 1, po.write_read_relation@[j].0.label());
                if j < i {
                    assert(uadj_succ(g1, v).contains(w));
                } else {
                    assert(ss@.contains(v) && ss@.contains(w));
                }
            }
        }
        i = i + 1;
    }
    proof {
        let cv = comm_view(av);
        assert forall|v: u64, w: u64| #[trigger] uadj_succ(graph@, v).contains(w) <==> w != v && share_variable(av, v, w) by {
            if w != v && share_variable(av, v, w) {
                let x = choose|x: Seq<char>| #[trigger] session_mentions(av, v - 1, x) && session_mentions(av, w - 1, x);
                let t = choose|t: int| 0 <= t < av[v - 1].len() && #[trigger] txn_mentions(av, v - 1, t, x);
                assert(mentions_var(av, x));
                let j = choose|j: int| 0 <= j < po.write_read_relation@.len() && #[trigger] po.write_read_relation@[j].0.label() == x;
                assert(session_mentions(av, v - 1, po.write_read_relation@[j].0.label()));
            }
        }
        assert forall|v: u64| #[trigger] graph@.dom().contains(v) implies graph@[v] =~= cv[v] by {
            assert forall|w: u64| graph@[v].contains(w) <==> cv[v].contains(w) by {
                assert(uadj_succ(graph@, v).contains(w) <==> graph@[v].contains(w));
            }
        }
        assert(graph@.dom() =~= cv.dom());
        assert(graph@ =~= cv);
    }
    graph
}

/// `p` is a walk of the graph: it starts at a vertex and each next element
/// is a neighbour of the one before.
pub open spec fn is_walk(g: UGraphView, p: Seq<u64>) -> bool {
    &&& p.len() >= 1
    &&& g.dom().contains(p[0])
    &&& forall|i: int| 0 < i < p.len() ==> #[trigger] uadj_succ(g, p[i - 1]).contains(p[i])
}

/// Some walk of the graph leads from `a` to `b`.
pub open spec fn connected(g: UGraphView, a: u64, b: u64) -> bool {
    exists|p: Seq<u64>| #[trigger] is_walk(g, p) && p[0] == a && p.last() == b
}

/// The neighbours of every element of `s` are in `s`.
pub open spec fn closed_under(g: UGraphView, s: Set<u64>) -> bool {
    forall|x: u64, n: u64| s.contains(x) && #[trigger] uadj_succ(g, x).contains(n) ==> s.contains(n)
}

/// `c` lists, in increasing order, the vertices connected to its first one.
pub open spec fn is_component(g: UGraphView, c: Seq<u64>) -> bool {
    &&& c.len() > 0
    &&& strictly_increasing(c)
    &&& forall|v: u64| c.contains(v) <==> connected(g, c[0], v)
}

/// `cs` lists the connected components of the graph, each once, in the
/// order of their smallest vertices.
pub open spec fn is_component_list(g: UGraphView, cs: Seq<Seq<u64>>) -> bool {
    &&& forall|i: int| 0 <= i < cs.len() ==> is_component(g, #[trigger] cs[i])
    &&& forall|i: int, j: int| 0 <= i < j < cs.len() ==> #[trigger] cs[i][0] < #[trigger] cs[j][0]
    &&& forall|v: u64| g.dom().contains(v) ==> exists|i: int| 0 <= i < cs.len() && #[trigger] cs[i].contains(v)
}

/// The plain views of a list of lists.
pub open spec fn seq_views(cs: Seq<Vec<u64>>) -> Seq<Seq<u64>> {
    cs.map_values(|c: Vec<u64>| c@)
}

/// A walk that starts in a set closed under neighbours stays in it.
pub proof fn lemma_closed_walk(g: UGraphView, s: Set<u64>, p: Seq<u64>, k: int)
    requires
        is_walk(g, p),
        s.contains(p[0]),
        closed_under(g, s),
        0 <= k < p.len(),
    ensures
        s.contains(p[k]),
    decreases k,
{
    if k > 0 {
        lemma_closed_walk(g, s, p, k - 1);
        assert(uadj_succ(g, p[k - 1]).contains(p[k]));
    }
}

/// A set closed under neighbours holds everything connected to its members.
pub proof fn lemma_closed_connected(g: UGraphView, s: Set<u64>, a: u64, b: u64)
    requires
        closed_under(g, s),
        s.contains(a),
        connected(g, a, b),
    ensures
        s.contains(b),
{
    let p = choose|p: Seq<u64>| #[trigger] is_walk(g, p) && p[0] == a && p.last() == b;
    lemma_closed_walk(g, s, p, p.len() - 1);
}

/// A vertex is connected to itself.
pub proof fn lemma_connected_refl(g: UGraphView, a: u64)
    requires
        g.dom().contains(a),
    ensures
        connected(g, a, a),
{
    let p = seq![a];
    assert(is_walk(g, p));
}

/// A walk extends by a neighbour of its end.
pub proof fn lemma_connected_step(g: UGraphView, a: u64, b: u64, c: u64)
    requires
        connected(g, a, b),
        uadj_succ(g, b).contains(c),
    ensures
        connected(g, a, c),
{
    let p = choose|p: Seq<u64>| #[trigger] is_walk(g, p) && p[0] == a && p.last() == b;
    let q = p.push(c);
    assert forall|i: int| 0 < i < q.len() implies #[trigger] uadj_succ(g, q[i - 1]).contains(q[i]) by {
        if i < p.len() {
            assert(uadj_succ(g, p[i - 1]).contains(p[i]));
        }
    }
    assert(is_walk(g, q));
}

/// The vertices connected to `start` that are not yet visited, gathered by a
/// depth-first walk; each is marked visited.
fn explore(graph: &UGraph, visited: &mut U64Set, start: u64) -> (comp: U64Set)
    requires
        graph@.dom().contains(start),
        !u64_set_contents(*old(visited)).contains(start),
        u64_set_contents(*old(visited)).subset_of(graph@.dom()),
        closed_under(graph@, u64_set_contents(*old(visited))),
    ensures
        u64_set_contents(*final(visited)) == u64_set_contents(*old(visited)).union(u64_set_contents(comp)),
        u64_set_contents(*old(visited)).disjoint(u64_set_contents(comp)),
        forall|v: u64| u64_set_contents(comp).contains(v) <==> connected(graph@, start, v),
        closed_under(graph@, u64_set_contents(comp)),
{
    let ghost g = graph@;
    let ghost v0 = u64_set_contents(*visited);
    let ghost dom = g.dom();
    let verts = graph.vertices();
    proof {
        assert(dom.finite()) by {
            vstd::seq_lib::seq_to_set_is_finite(verts@);
        }
    }
    let mut comp = u64_set_new();
    let mut stack: Vec<u64> = Vec::new();
    stack.push(start);
    proof {
        lemma_connected_refl(g, start);
        assert(stack@[0] == start);
    }
    loop
        invariant
            g == graph@,
            dom == g.dom(),
            dom.finite(),
            crate::graph::ugraph::is_symmetric(g),
            g.dom().contains(start),
            v0.subset_of(dom),
            closed_under(g, v0),
            !v0.contains(start),
            u64_set_contents(*visited) == v0.union(u64_set_contents(comp)),
            v0.disjoint(u64_set_contents(comp)),
            forall|x: u64| u64_set_contents(comp).contains(x) ==> connected(g, start, x),
            forall|k: int| 0 <= k < stack@.len() ==> connected(g, start, #[trigger] stack@[k]) && dom.contains(stack@[k]),
            u64_set_contents(comp).contains(start) || stack@.contains(start),
            forall|x: u64, n: u64| u64_set_contents(comp).contains(x) && #[trigger] uadj_succ(g, x).contains(n)
                ==> u64_set_contents(*visited).contains(n) || stack@.contains(n),
        ensures
            stack@.len() == 0,
            u64_set_contents(*visited) == v0.union(u64_set_contents(comp)),
            v0.disjoint(u64_set_contents(comp)),
            forall|x: u64| u64_set_contents(comp).contains(x) ==> connected(g, start, x),
            u64_set_contents(comp).contains(start),
            forall|x: u64, n: u64| u64_set_contents(comp).contains(x) && #[trigger] uadj_succ(g, x).contains(n)
                ==> u64_set_contents(*visited).contains(n),
        decreases dom.difference(u64_set_contents(*visited)).len(), stack@.len(),
    {
        let ghost vis_before = u64_set_contents(*visited);
        let ghost stack_before = stack@;
        let top = stack.pop();
        match top {
            None => {
                assert(stack@ =~= Seq::<u64>::empty());
                break;
            },
            Some(v) => {
                assert(stack_before =~= stack@.push(v));
                assert(stack_before[stack_before.len() - 1] == v);
                if !u64_set_insert(visited, v) {
                    proof {
                        assert(u64_set_contents(*visited) =~= vis_before);
                        assert forall|x: u64, n: u64| u64_set_contents(comp).contains(x) && #[trigger] uadj_succ(g, x).contains(n)
                            implies u64_set_contents(*visited).contains(n) || stack@.contains(n) by {
                            if stack_before.contains(n) && !stack@.contains(n) {
                                let k = choose|k: int| 0 <= k < stack_before.len() && stack_before[k] == n;
                                if k < stack@.len() {
                                    assert(stack@[k] == n);
                                }
                            }
                        }
                        if !u64_set_contents(comp).contains(start) && !stack@.contains(start) {
                            let k = choose|k: int| 0 <= k < stack_before.len() && stack_before[k] == start;
                            if k < stack@.len() {
                                assert(stack@[k] == start);
                            }
                        }
                    }
                    continue;
                }
                proof {
                    assert(connected(g, start, v));
                    assert(dom.contains(v));
                    assert(!v0.contains(v));
                    assert(dom.difference(u64_set_contents(*visited)) =~= dom.difference(vis_before).remove(v));
                }
                u64_set_insert(&mut comp, v);
                let ns = graph.neighbours(v);
                let ghost stack_mid = stack@;
                let mut k: usize = 0;
                while k < ns.len()
                    invariant
                        0 <= k <= ns@.len(),
                        ns@.to_set() == uadj_succ(g, v),
                        g == graph@,
                        dom == g.dom(),
                        connected(g, start, v),
                        crate::graph::ugraph::is_symmetric(g),
                        stack@.len() >= stack_mid.len(),
                        forall|j: int| 0 <= j < stack_mid.len() ==> stack@[j] == #[trigger] stack_mid[j],
                        forall|j: int| 0 <= j < stack@.len() ==> connected(g, start, #[trigger] stack@[j]) && dom.contains(stack@[j]),
                        forall|j: int| 0 <= j < k ==> u64_set_contents(*visited).contains(#[trigger] ns@[j]) || stack@.contains(ns@[j]),
                    decreases ns@.len() - k,
                {
                    let n = ns[k];
                    assert(ns@.to_set().contains(n));
                    if !u64_set_contains(visited, n) {
                        proof {
                            lemma_connected_step(g, start, v, n);
                        }
                        let ghost sb = stack@;
                        stack.push(n);
                        assert(stack@[stack@.len() - 1] == n);
                        assert forall|j: int| 0 <= j < stack@.len() implies connected(g, start, #[trigger] stack@[j]) && dom.contains(stack@[j]) by {
                            if j < sb.len() {
                                assert(stack@[j] == sb[j]);
                            }
                        }
                        assert forall|j: int| 0 <= j < k + 1 implies u64_set_contents(*visited).contains(#[trigger] ns@[j]) || stack@.contains(ns@[j]) by {
                            if j < k && sb.contains(ns@[j]) {
                                let l = choose|l: int| 0 <= l < sb.len() && sb[l] == ns@[j];
                                assert(stack@[l] == ns@[j]);
                            }
                            if j == k {
                                assert(stack@[stack@.len() - 1] == n);
                            }
                        }
                    }
                    k = k + 1;
                }
                proof {
                    assert forall|x: u64, n: u64| u64_set_contents(comp).contains(x) && #[trigger] uadj_succ(g, x).contains(n)
                        implies u64_set_contents(*visited).contains(n) || stack@.contains(n) by {
                        if x == v {
                            assert(ns@.to_set().contains(n));
                            let j = choose|j: int| 0 <= j < ns@.len() && ns@[j] == n;
                            assert(u64_set_contents(*visited).contains(ns@[j]) || stack@.contains(ns@[j]));
                        } else if stack_before.contains(n) && !u64_set_contents(*visited).contains(n) {
                            let l = choose|l: int| 0 <= l < stack_before.len() && stack_before[l] == n;
                            if l < stack_mid.len() {
                                assert(stack@[l] == n);
                            } else {
                                assert(n == v);
                            }
                        }
                    }
                    if !u64_set_contents(comp).contains(start) && !stack@.contains(start) {
                        let l = choose|l: int| 0 <= l < stack_before.len() && stack_before[l] == start;
                        if l < stack_mid.len() {
                            assert(stack@[l] == start);
                        }
                    }
                }
            },
        }
    }
    proof {
        let c = u64_set_contents(comp);
        assert forall|x: u64, n: u64| c.contains(x) && #[trigger] uadj_succ(g, x).contains(n) implies c.contains(n) by {
            if v0.contains(n) {
                assert(uadj_succ(g, n).contains(x));
                assert(v0.contains(x));
            }
        }
        assert forall|v: u64| c.contains(v) <==> connected(g, start, v) by {
            if connected(g, start, v) {
                lemma_closed_connected(g, c, start, v);
            }
        }
    }
    comp
}

/// The connected components of the graph, each in increasing order, listed
/// in the order of their smallest vertices. An isolated vertex is a
/// component of its own.
pub fn connected_components(graph: &UGraph) -> (r: Vec<Vec<u64>>)
    ensures
        is_component_list(graph@, seq_views(r@)),
{
    let ghost g = graph@;
    let all = sort_increasing(graph.vertices());
    let mut visited = u64_set_new();
    let mut comps: Vec<Vec<u64>> = Vec::new();
    let mut idx: usize = 0;
    while idx < all.len()
        invariant
            g == graph@,
            crate::graph::ugraph::is_symmetric(g),
            strictly_increasing(all@),
            all@.to_set() == g.dom(),
            0 <= idx <= all@.len(),
            u64_set_contents(visited).subset_of(g.dom()),
            closed_under(g, u64_set_contents(visited)),
            forall|k: int| 0 <= k < idx ==> u64_set_contents(visited).contains(#[trigger] all@[k]),
            forall|v: u64| u64_set_contents(visited).contains(v) <==> exists|i: int| 0 <= i < comps@.len() && #[trigger] comps@[i]@.contains(v),
            forall|i: int| 0 <= i < comps@.len() ==> is_component(g, #[trigger] comps@[i]@),
            forall|i: int, j: int| 0 <= i < j < comps@.len() ==> #[trigger] comps@[i]@[0] < #[trigger] comps@[j]@[0],
            forall|i: int, k: int| 0 <= i < comps@.len() && idx <= k < all@.len() ==> #[trigger] comps@[i]@[0] < #[trigger] all@[k],
        decreases all@.len() - idx,
    {
        let start = all[idx];
        proof {
            assert(all@.to_set().contains(start));
        }
        if u64_set_contains(&visited, start) {
            idx = idx + 1;
            continue;
        }
        let ghost v0 = u64_set_contents(visited);
        let cset = explore(graph, &mut visited, start);
        let ghost c = u64_set_contents(cset);
        let mut comp: Vec<u64> = Vec::new();
        let mut k: usize = 0;
        while k < all.len()
            invariant
                strictly_increasing(all@),
                0 <= idx < all@.len(),
                start == all@[idx as int],
                0 <= k <= all@.len(),
                c == u64_set_contents(cset),
                strictly_increasing(comp@),
                forall|j: int| #![trigger comp@[j]] 0 <= j < comp@.len() ==> exists|l: int| #![trigger all@[l]] 0 <= l < k && all@[l] == comp@[j],
                forall|x: u64| comp@.contains(x) <==> c.contains(x) && all@.subrange(0, k as int).contains(x),
            decreases all@.len() - k,
        {
            let ghost cb = comp@;
            let inc = u64_set_contains(&cset, all[k]);
            if inc {
                comp.push(all[k]);
            }
            proof {
                if inc {
                    assert(comp@ == cb.push(all@[k as int]));
                    assert forall|a: int, b: int| 0 <= a < b < comp@.len() implies #[trigger] comp@[a] < #[trigger] comp@[b] by {
                        if b == comp@.len() - 1 {
                            let l = choose|l: int| #![trigger all@[l]] 0 <= l < k && all@[l] == cb[a];
                            assert(all@[l] < all@[k as int]);
                        } else {
                            assert(cb[a] < cb[b]);
                        }
                    }
                } else {
                    assert(comp@ == cb);
                }
                assert forall|j: int| #![trigger comp@[j]] 0 <= j < comp@.len() implies exists|l: int| #![trigger all@[l]] 0 <= l < k + 1 && all@[l] == comp@[j] by {
                    if j < cb.len() {
                        let l = choose|l: int| #![trigger all@[l]] 0 <= l < k && all@[l] == cb[j];
                        assert(all@[l] == comp@[j]);
                    } else {
                        assert(all@[k as int] == comp@[j]);
                    }
                }
                assert(all@.subrange(0, k + 1) =~= all@.subrange(0, k as int).push(all@[k as int]));
                assert forall|x: u64| comp@.contains(x) <==> c.contains(x) && all@.subrange(0, k + 1).contains(x) by {
                    assert(all@.subrange(0, k + 1).contains(x) <==> all@.subrange(0, k as int).contains(x) || x == all@[k as int]);
                    assert(cb.contains(x) <==> c.contains(x) && all@.subrange(0, k as int).contains(x));
                    if inc {
                        assert(comp@.contains(x) <==> cb.contains(x) || x == all@[k as int]);
                        assert(c.contains(all@[k as int]));
                    } else {
                        assert(!c.contains(all@[k as int]));
                    }
                }
            }
            k = k + 1;
        }
        proof {
            assert(all@.subrange(0, all@.len() as int) =~= all@);
            assert(closed_under(g, g.dom()));
            assert forall|x: u64| comp@.contains(x) <==> connected(g, start, x) by {
                assert(comp@.contains(x) <==> c.contains(x) && all@.contains(x));
                if connected(g, start, x) {
                    assert(c.contains(x));
                    lemma_closed_connected(g, g.dom(), start, x);
                    assert(all@.to_set().contains(x));
                }
            }
            lemma_connected_refl(g, start);
            assert(comp@.contains(start));
            // the start is the smallest vertex connected to it
            assert forall|j: int| 0 <= j < comp@.len() implies comp@[j] >= start by {
                let x = comp@[j];
                assert(comp@.contains(x));
                if x < start {
                    let l = choose|l: int| 0 <= l < all@.len() && all@[l] == x;
                    assert(l < idx);
                    assert(v0.contains(x));
                    let rest = g.dom().difference(v0);
                    assert(closed_under(g, rest)) by {
                        assert forall|y: u64, n: u64| rest.contains(y) && #[trigger] uadj_succ(g, y).contains(n) implies rest.contains(n) by {
                            if v0.contains(n) {
                                assert(uadj_succ(g, n).contains(y));
                            }
                        }
                    }
                    lemma_closed_connected(g, rest, start, x);
                }
            }
            assert(comp@.len() > 0);
            let j0 = choose|j: int| 0 <= j < comp@.len() && comp@[j] == start;
            if j0 > 0 {
                assert(comp@[0] < comp@[j0]);
            }
            assert(comp@[0] == start);
        }
        let ghost comps0 = comps@;
        comps.push(comp);
        proof {
            assert(comps@[comps@.len() - 1]@ == comp@);
            assert forall|v: u64| u64_set_contents(visited).contains(v) <==> exists|i: int| 0 <= i < comps@.len() && #[trigger] comps@[i]@.contains(v) by {
                if u64_set_contents(visited).contains(v) {
                    if v0.contains(v) {
                        let i = choose|i: int| 0 <= i < comps0.len() && #[trigger] comps0[i]@.contains(v);
                        assert(comps@[i]@.contains(v));
                    } else {
                        assert(c.contains(v));
                        assert(comps@[comps@.len() - 1]@.contains(v));
                    }
                }
                if exists|i: int| 0 <= i < comps@.len() && #[trigger] comps@[i]@.contains(v) {
                    let i = choose|i: int| 0 <= i < comps@.len() && #[trigger] comps@[i]@.contains(v);
                    if i < comps0.len() {
                        assert(comps0[i]@.contains(v));
                    }
                }
            }
            assert forall|x: u64, n: u64| u64_set_contents(visited).contains(x) && #[trigger] uadj_succ(g, x).contains(n)
                implies u64_set_contents(visited).contains(n) by {
                if v0.contains(x) {
                    assert(v0.contains(n));
                } else {
                    assert(c.contains(n));
                }
            }
            assert forall|i: int| 0 <= i < comps@.len() implies is_component(g, #[trigger] comps@[i]@) by {
                if i < comps0.len() {
                    assert(comps@[i] == comps0[i]);
                }
            }
            assert forall|i: int, k2: int| 0 <= i < comps@.len() && idx + 1 <= k2 < all@.len() implies #[trigger] comps@[i]@[0] < #[trigger] all@[k2] by {
                if i < comps0.len() {
                    assert(comps0[i]@[0] < all@[k2]);
                } else {
                    assert(all@[idx as int] < all@[k2]);
                }
            }
            assert forall|i: int, j: int| 0 <= i < j < comps@.len() implies #[trigger] comps@[i]@[0] < #[trigger] comps@[j]@[0] by {
                if j == comps@.len() - 1 {
                    assert(comps0[i]@[0] < all@[idx as int]);
                } else {
                    assert(comps0[i]@[0] < comps0[j]@[0]);
                }
            }
        }
        idx = idx + 1;
    }
    proof {
        let cs = seq_views(comps@);
        assert forall|v: u64| g.dom().contains(v) implies exists|i: int| 0 <= i < cs.len() && #[trigger] cs[i].contains(v) by {
            assert(all@.to_set().contains(v));
            let l = choose|l: int| 0 <= l < all@.len() && all@[l] == v;
            assert(u64_set_contents(visited).contains(all@[l]));
            let i = choose|i: int| 0 <= i < comps@.len() && #[trigger] comps@[i]@.contains(v);
            assert(cs[i].contains(v));
        }
        assert forall|i: int| 0 <= i < cs.len() implies is_component(g, #[trigger] cs[i]) by {
            assert(cs[i] == comps@[i]@);
        }
        assert forall|i: int, j: int| 0 <= i < j < cs.len() implies #[trigger] cs[i][0] < #[trigger] cs[j][0] by {
            assert(cs[i] == comps@[i]@);
            assert(cs[j] == comps@[j]@);
        }
    }
    comps
}

/// `a` comes before `b` in lexicographic order, the order of sets of
/// vertices listed in increasing order.
pub open spec fn lex_less(a: Seq<u64>, b: Seq<u64>) -> bool
    decreases a.len(),
{
    if a.len() == 0 {
        b.len() > 0
    } else if b.len() == 0 {
        false
    } else if a[0] != b[0] {
        a[0] < b[0]
    } else {
        lex_less(a.drop_first(), b.drop_first())
    }
}

/// Each list comes before the next in lexicographic order.
pub open spec fn lex_increasing(cs: Seq<Seq<u64>>) -> bool {
    forall|i: int, j: int| 0 <= i < j < cs.len() ==> lex_less(#[trigger] cs[i], #[trigger] cs[j])
}

/// Lexicographic order is irreflexive.
pub proof fn lemma_lex_irreflexive(a: Seq<u64>)
    ensures
        !lex_less(a, a),
    decreases a.len(),
{
    if a.len() > 0 {
        lemma_lex_irreflexive(a.drop_first());
    }
}

/// Lexicographic order is transitive.
pub proof fn lemma_lex_transitive(a: Seq<u64>, b: Seq<u64>, c: Seq<u64>)
    requires
        lex_less(a, b),
        lex_less(b, c),
    ensures
        lex_less(a, c),
    decreases a.len(),
{
    if a.len() > 0 && b.len() > 0 && c.len() > 0 && a[0] == b[0] && b[0] == c[0] {
        lemma_lex_transitive(a.drop_first(), b.drop_first(), c.drop_first());
    }
}

/// Lexicographic order is total on distinct lists.
pub proof fn lemma_lex_total(a: Seq<u64>, b: Seq<u64>)
    requires
        a != b,
    ensures
        lex_less(a, b) || lex_less(b, a),
    decreases a.len(),
{
    if a.len() > 0 && b.len() > 0 && a[0] == b[0] {
        if a.drop_first() == b.drop_first() {
            assert(a =~= seq![a[0]] + a.drop_first());
            assert(b =~= seq![b[0]] + b.drop_first());
        }
        lemma_lex_total(a.drop_first(), b.drop_first());
    } else if a.len() == 0 && b.len() == 0 {
        assert(a =~= b);
    }
}

/// Whether `a` comes before `b` in lexicographic order.
fn lex_less_exec(a: &Vec<u64>, b: &Vec<u64>) -> (r: bool)
    ensures
        r == lex_less(a@, b@),
{
    let mut i: usize = 0;
    while i < a.len() && i < b.len()
        invariant
            0 <= i <= a@.len(),
            i <= b@.len(),
            lex_less(a@, b@) == lex_less(a@.skip(i as int), b@.skip(i as int)),
        decreases a@.len() - i,
    {
        if a[i] != b[i] {
            return a[i] < b[i];
        }
        proof {
            assert(a@.skip(i as int).drop_first() =~= a@.skip(i + 1));
            assert(b@.skip(i as int).drop_first() =~= b@.skip(i + 1));
        }
        i = i + 1;
    }
    i < b.len()
}

/// Sorts lists into strictly increasing lexicographic order, keeping one of
/// each.
fn sort_lists(v: Vec<Vec<u64>>) -> (r: Vec<Vec<u64>>)
    ensures
        lex_increasing(seq_views(r@)),
        forall|x: Seq<u64>| #[trigger] has_list(r@, x) <==> has_list(v@, x),
{
    let mut r: Vec<Vec<u64>> = Vec::new();
    let mut i: usize = 0;
    while i < v.len()
        invariant
            0 <= i <= v@.len(),
            lex_increasing(seq_views(r@)),
            forall|x: Seq<u64>| #[trigger] has_list(r@, x) <==> has_list(v@.subrange(0, i as int), x),
        decreases v@.len() - i,
    {
        let e = v[i].clone();
        proof {
            assert(e@ == v@[i as int]@);
        }
        let mut pos: usize = 0;
        while pos < r.len() && lex_less_exec(&r[pos], &e)
            invariant
                0 <= pos <= r@.len(),
                forall|k: int| 0 <= k < pos ==> lex_less(#[trigger] r@[k]@, e@),
            decreases r@.len() - pos,
        {
            pos = pos + 1;
        }
        let ghost r0 = r@;
        assert(forall|x: Seq<u64>| #[trigger] has_list(r0, x) <==> has_list(v@.subrange(0, i as int), x));
        let present = pos < r.len() && !lex_less_exec(&e, &r[pos]);
        if !present {
            proof {
                if pos < r0.len() {
                    assert(lex_less(e@, r0[pos as int]@));
                }
            }
            r.insert(pos, e);
            proof {
                r0.insert_ensures(pos as int, e);
                let rv = seq_views(r@);
                assert forall|a: int, b: int| 0 <= a < b < rv.len() implies lex_less(#[trigger] rv[a], #[trigger] rv[b]) by {
                    let rv0 = seq_views(r0);
                    if b < pos {
                        assert(lex_less(rv0[a], rv0[b]));
                    } else if b == pos {
                        assert(lex_less(r0[a]@, e@));
                    } else if a < pos {
                        assert(lex_less(r0[a]@, e@));
                        if b - 1 > pos {
                            assert(lex_less(rv0[pos as int], rv0[b - 1]));
                            lemma_lex_transitive(e@, r0[pos as int]@, r0[b - 1]@);
                        }
                        lemma_lex_transitive(r0[a]@, e@, r0[b - 1]@);
                    } else if a == pos {
                        if b - 1 > pos {
                            assert(lex_less(rv0[pos as int], rv0[b - 1]));
                            lemma_lex_transitive(e@, r0[pos as int]@, r0[b - 1]@);
                        }
                    } else {
                        assert(lex_less(rv0[a - 1], rv0[b - 1]));
                    }
                }
            }
        } else {
            proof {
                if r0[pos as int]@ != e@ {
                    lemma_lex_total(r0[pos as int]@, e@);
                }
            }
        }
        proof {
            let vs = v@.subrange(0, i + 1);
            assert(vs =~= v@.subrange(0, i as int).push(v@[i as int]));
            assert forall|x: Seq<u64>| #[trigger] has_list(r@, x) <==> has_list(vs, x) by {
                if has_list(vs, x) {
                    let k = choose|k: int| 0 <= k < vs.len() && #[trigger] vs[k]@ == x;
                    if k < i {
                        assert(v@.subrange(0, i as int)[k]@ == x);
                        assert(has_list(r0, x));
                        let l = choose|l: int| 0 <= l < r0.len() && #[trigger] r0[l]@ == x;
                        if !present {
                            if l < pos {
                                assert(r@[l]@ == x);
                            } else {
                                assert(r@[l + 1]@ == x);
                            }
                        } else {
                            assert(r@[l]@ == x);
                        }
                    } else {
                        if !present {
                            assert(r@[pos as int]@ == x);
                        } else {
                            assert(r@[pos as int]@ == x);
                        }
                    }
                }
                if has_list(r@, x) {
                    let l = choose|l: int| 0 <= l < r@.len() && #[trigger] r@[l]@ == x;
                    if !present {
                        if l < pos {
                            assert(r0[l]@ == x);
                        } else if l > pos {
                            assert(r0[l - 1]@ == x);
                        } else {
                            assert(vs[i as int]@ == x);
                        }
                    } else {
                        assert(r0[l]@ == x);
                    }
                    if !present && l == pos {
                    } else {
                        let l0 = if !present && l > pos { l - 1 } else { l };
                        assert(r0[l0]@ == x);
                        assert(has_list(r0, x));
                        let k = choose|k: int| 0 <= k < i && #[trigger] v@.subrange(0, i as int)[k]@ == x;
                        assert(vs[k]@ == x);
                    }
                }
            }
        }
        i = i + 1;
    }
    assert(v@.subrange(0, v@.len() as int) =~= v@);
    r
}

/// The biconnected components and non-groups of the graph, each once, in
/// lexicographic order: the components found by
/// [`BiconnectedComponentWalker::get_vertex_components`] and its isolated
/// vertices and isolated pairs.
pub fn biconnected_components(graph: &UGraph) -> (r: Vec<Vec<u64>>)
    ensures
        lex_increasing(seq_views(r@)),
        forall|x: Seq<u64>| #[trigger] has_list(r@, x) ==> vertex_list(graph@.dom(), x, 1),
        forall|x: Seq<u64>| #[trigger] has_list(r@, x) ==> vertex_list(graph@.dom(), x, 2)
            || exists|v: u64| graph@.dom().contains(v) && #[trigger] non_group_of(graph@, v, x),
        forall|x: Seq<u64>| (exists|v: u64| graph@.dom().contains(v) && #[trigger] non_group_of(graph@, v, x)) ==> #[trigger] has_list(r@, x),
{
    let (_, components, non_group) = BiconnectedComponentWalker::get_vertex_components(graph);
    let ghost g = graph@;
    let _ = graph.vertices();
    let mut all: Vec<Vec<u64>> = components;
    let ghost comps = all@;
    let mut i: usize = 0;
    while i < non_group.len()
        invariant
            0 <= i <= non_group@.len(),
            forall|k: int| 0 <= k < comps.len() ==> vertex_list(g.dom(), #[trigger] comps[k]@, 2),
            forall|x: Seq<u64>| #[trigger] has_list(non_group@, x) <==> exists|v: u64| g.dom().contains(v) && #[trigger] non_group_of(g, v, x),
            forall|x: Seq<u64>| #[trigger] has_list(all@, x) <==> has_list(comps, x) || has_list(non_group@.subrange(0, i as int), x),
        decreases non_group@.len() - i,
    {
        let c = non_group[i].clone();
        let ghost a0 = all@;
        all.push(c);
        proof {
            let ns = non_group@.subrange(0, i + 1);
            assert(ns =~= non_group@.subrange(0, i as int).push(non_group@[i as int]));
            assert forall|x: Seq<u64>| #[trigger] has_list(all@, x) <==> has_list(comps, x) || has_list(ns, x) by {
                assert(has_list(a0, x) <==> has_list(comps, x) || has_list(non_group@.subrange(0, i as int), x));
                if has_list(all@, x) {
                    let l = choose|l: int| 0 <= l < all@.len() && #[trigger] all@[l]@ == x;
                    if l < a0.len() {
                        assert(a0[l]@ == x);
                        if has_list(non_group@.subrange(0, i as int), x) {
                            let k = choose|k: int| 0 <= k < i && #[trigger] non_group@.subrange(0, i as int)[k]@ == x;
                            assert(ns[k]@ == x);
                        }
                    } else {
                        assert(ns[i as int]@ == x);
                    }
                }
                if has_list(comps, x) || has_list(non_group@.subrange(0, i as int), x) {
                    if has_list(non_group@.subrange(0, i as int), x) && !has_list(comps, x) {
                        let k = choose|k: int| 0 <= k < i && #[trigger] non_group@.subrange(0, i as int)[k]@ == x;
                        assert(ns[k]@ == x);
                    }
                    assert(has_list(a0, x));
                    let l = choose|l: int| 0 <= l < a0.len() && #[trigger] a0[l]@ == x;
                    assert(all@[l]@ == x);
                }
                if has_list(ns, x) {
                    let k = choose|k: int| 0 <= k < ns.len() && #[trigger] ns[k]@ == x;
                    if k < i {
                        assert(non_group@.subrange(0, i as int)[k]@ == x);
                        assert(has_list(a0, x));
                        let l = choose|l: int| 0 <= l < a0.len() && #[trigger] a0[l]@ == x;
                        assert(all@[l]@ == x);
                    } else {
                        assert(all@[all@.len() - 1]@ == x);
                    }
                }
            }
        }
        i = i + 1;
    }
    let r = sort_lists(all);
    proof {
        assert(non_group@.subrange(0, non_group@.len() as int) =~= non_group@);
        assert forall|x: Seq<u64>| #[trigger] has_list(r@, x) implies vertex_list(g.dom(), x, 1) by {
            assert(has_list(all@, x));
            if has_list(comps, x) {
                let k = choose|k: int| 0 <= k < comps.len() && #[trigger] comps[k]@ == x;
                assert(vertex_list(g.dom(), comps[k]@, 2));
            } else {
                let v = choose|v: u64| g.dom().contains(v) && #[trigger] non_group_of(g, v, x);
                if uadj_succ(g, v) == Set::<u64>::empty() && x == seq![v] {
                } else {
                    let p = choose|p: u64| #![trigger uadj_succ(g, p)] uadj_succ(g, v) == set![p] && uadj_succ(g, p) == set![v]
                        && x == pair_list(v, p);
                    assert(uadj_succ(g, v).contains(p));
                    assert(g.dom().contains(p));
                }
            }
        }
        assert forall|x: Seq<u64>| #[trigger] has_list(r@, x) implies vertex_list(g.dom(), x, 2)
            || exists|v: u64| g.dom().contains(v) && #[trigger] non_group_of(g, v, x) by {
            if has_list(comps, x) {
                let k = choose|k: int| 0 <= k < comps.len() && #[trigger] comps[k]@ == x;
                assert(vertex_list(g.dom(), comps[k]@, 2));
            }
        }
    }
    r
}

/// The lists of `cs` one after the other.
pub open spec fn concat_lists(cs: Seq<Seq<u64>>) -> Seq<u64>
    decreases cs.len(),
{
    if cs.len() == 0 {
        Seq::empty()
    } else {
        concat_lists(cs.drop_last()) + cs.last()
    }
}

/// Whether some vertex occurs twice among the components: their total
/// size exceeds the number of distinct vertices in them.
pub fn components_overlap(components: &[Vec<u64>]) -> (r: bool)
    ensures
        r == !concat_lists(seq_views(components@)).no_duplicates(),
{
    let ghost cs = seq_views(components@);
    let mut seen = u64_set_new();
    let ghost mut walked: Seq<u64> = Seq::empty();
    let mut i: usize = 0;
    while i < components.len()
        invariant
            cs == seq_views(components@),
            0 <= i <= cs.len(),
            walked == concat_lists(cs.take(i as int)),
            walked.no_duplicates(),
            u64_set_contents(seen) == walked.to_set(),
        decreases cs.len() - i,
    {
        let c = &components[i];
        let mut j: usize = 0;
        while j < c.len()
            invariant
                cs == seq_views(components@),
                0 <= i < cs.len(),
                c@ == cs[i as int],
                0 <= j <= c@.len(),
                walked == concat_lists(cs.take(i as int)) + c@.take(j as int),
                walked.no_duplicates(),
                u64_set_contents(seen) == walked.to_set(),
            decreases c@.len() - j,
        {
            let x = c[j];
            let ghost w0 = walked;
            if !u64_set_insert(&mut seen, x) {
                proof {
                    assert(w0.to_set().contains(x));
                    let k = choose|k: int| 0 <= k < w0.len() && w0[k] == x;
                    lemma_concat_prefix_dup(cs, i as int, j as int, k);
                }
                return true;
            }
            proof {
                walked = w0.push(x);
                assert(c@.take(j + 1) =~= c@.take(j as int).push(x));
                assert(walked =~= concat_lists(cs.take(i as int)) + c@.take(j + 1));
                assert(walked.no_duplicates()) by {
                    assert forall|a: int, b: int| 0 <= a < b < walked.len() implies walked[a] != walked[b] by {
                        if b == walked.len() - 1 {
                            assert(w0.to_set().contains(w0[a]));
                        } else {
                            assert(w0[a] != w0[b]);
                        }
                    }
                }
            }
            j = j + 1;
        }
        proof {
            assert(cs.take(i + 1).drop_last() =~= cs.take(i as int));
            assert(c@.take(c@.len() as int) =~= c@);
            assert(cs.take(i + 1).last() == c@);
        }
        i = i + 1;
    }
    proof {
        assert(cs.take(cs.len() as int) =~= cs);
    }
    false
}

/// A repeated vertex in a prefix of the concatenation is a repeated vertex
/// in the whole of it.
proof fn lemma_concat_prefix_dup(cs: Seq<Seq<u64>>, i: int, j: int, k: int)
    requires
        0 <= i < cs.len(),
        0 <= j < cs[i].len(),
        0 <= k < (concat_lists(cs.take(i)) + cs[i].take(j)).len(),
        (concat_lists(cs.take(i)) + cs[i].take(j))[k] == cs[i][j],
    ensures
        !concat_lists(cs).no_duplicates(),
{
    let pre = concat_lists(cs.take(i)) + cs[i].take(j);
    lemma_concat_take(cs, i + 1);
    let whole = concat_lists(cs);
    let p1 = concat_lists(cs.take(i + 1));
    assert(cs.take(i + 1).drop_last() =~= cs.take(i));
    assert(p1 == concat_lists(cs.take(i)) + cs[i]);
    assert(p1[k] == pre[k]);
    assert(p1[concat_lists(cs.take(i)).len() + j] == cs[i][j]);
    assert(whole[k] == p1[k]);
    assert(whole[concat_lists(cs.take(i)).len() + j] == p1[concat_lists(cs.take(i)).len() + j]);
}

/// The concatenation of a prefix of the lists is a prefix of the whole
/// concatenation.
proof fn lemma_concat_take(cs: Seq<Seq<u64>>, n: int)
    requires
        0 <= n <= cs.len(),
    ensures
        concat_lists(cs.take(n)).len() <= concat_lists(cs).len(),
        forall|k: int| 0 <= k < concat_lists(cs.take(n)).len() ==> #[trigger] concat_lists(cs.take(n))[k] == concat_lists(cs)[k],
    decreases cs.len() - n,
{
    if n < cs.len() {
        lemma_concat_take(cs, n + 1);
        assert(cs.take(n + 1).drop_last() =~= cs.take(n));
        let a = concat_lists(cs.take(n));
        let b = concat_lists(cs.take(n + 1));
        assert(b == a + cs.take(n + 1).last());
        assert forall|k: int| 0 <= k < a.len() implies #[trigger] a[k] == concat_lists(cs)[k] by {
            assert(b[k] == a[k]);
            assert(b[k] == concat_lists(cs)[k]);
        }
    } else {
        assert(cs.take(n) =~= cs);
    }
}

} // verus!
