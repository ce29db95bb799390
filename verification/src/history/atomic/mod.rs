//! Atomic histories and the partial orders over their transactions.
pub mod types;

use vstd::prelude::*;

use crate::collections::adj_succ;
use crate::graph::digraph::{edge_pairs, acyclic_rel, edge_set, has_edge_spec, is_transitive, lemma_acyclic_edge_set, lemma_reaches_trans, lemma_edge_reaches, reaches, tid_views, DiGraph};
use crate::history::atomic::types::{labels_contain, AtomicTransactionHistory, AtomicTransactionInfo, AtomicView, TransactionId};
use crate::label::Label;

verus! {

/// `a` is a transaction of the atomic history.
pub open spec fn is_txn(av: AtomicView, a: (u64, u64)) -> bool {
    1 <= a.0 <= av.len() && a.1 < av[a.0 - 1].len()
}

/// Transaction `a` writes the variable named `x`.
pub open spec fn writes_var(av: AtomicView, a: (u64, u64), x: Seq<char>) -> bool {
    is_txn(av, a) && av[a.0 - 1][a.1 as int].0.contains(x)
}

/// Transaction `b` reads `x` from transaction `a`.
pub open spec fn wr_edge(av: AtomicView, x: Seq<char>, a: (u64, u64), b: (u64, u64)) -> bool {
    is_txn(av, b) && av[b.0 - 1][b.1 as int].1.contains((x, a))
}

/// Session order: the root precedes every transaction, and each transaction
/// precedes the later ones of its session.
pub open spec fn so_edge(av: AtomicView, a: (u64, u64), b: (u64, u64)) -> bool {
    is_txn(av, b) && (a == (0u64, 0u64) || (a.0 == b.0 && a.1 < b.1))
}

/// The session order relation.
pub open spec fn so_rel(av: AtomicView) -> Set<((u64, u64), (u64, u64))> {
    Set::new(|p: ((u64, u64), (u64, u64))| so_edge(av, p.0, p.1))
}

/// The write-read relation of one variable.
pub open spec fn wr_rel_of(av: AtomicView, x: Seq<char>) -> Set<((u64, u64), (u64, u64))> {
    Set::new(|p: ((u64, u64), (u64, u64))| wr_edge(av, x, p.0, p.1))
}

/// The write-read relation over all variables.
pub open spec fn wr_rel(av: AtomicView) -> Set<((u64, u64), (u64, u64))> {
    Set::new(|p: ((u64, u64), (u64, u64))| exists|x: Seq<char>| #[trigger] wr_edge(av, x, p.0, p.1))
}

/// The write-write rule for `x` under visibility `vis`: `t2` is ordered
/// before `t1` when both write `x` and `t2` is visible to `t1` or to a
/// transaction other than `t2` that reads `x` from `t1`.
pub open spec fn ww_edge(av: AtomicView, vis: Set<((u64, u64), (u64, u64))>, x: Seq<char>, t2: (u64, u64), t1: (u64, u64)) -> bool {
    &&& t1 != t2
    &&& writes_var(av, t1, x)
    &&& writes_var(av, t2, x)
    &&& (vis.contains((t2, t1)) || exists|t3: (u64, u64)| #[trigger] wr_edge(av, x, t1, t3) && t3 != t2 && vis.contains((t2, t3)))
}

/// The write-write relation of one variable under `vis`.
pub open spec fn ww_rel_of(av: AtomicView, vis: Set<((u64, u64), (u64, u64))>, x: Seq<char>) -> Set<((u64, u64), (u64, u64))> {
    Set::new(|p: ((u64, u64), (u64, u64))| ww_edge(av, vis, x, p.0, p.1))
}

/// The write-write relation over all variables under `vis`.
pub open spec fn ww_rel(av: AtomicView, vis: Set<((u64, u64), (u64, u64))>) -> Set<((u64, u64), (u64, u64))> {
    Set::new(|p: ((u64, u64), (u64, u64))| exists|x: Seq<char>| #[trigger] ww_edge(av, vis, x, p.0, p.1))
}

/// The read-write rule for `x` under visibility `vis`, through the writer
/// `t1` that `t3` reads `x` from: another writer `t2` of `x` overwrites the
/// version `t3` read when `t1` is visible to `t2` (and `t3` is not `t2`), or
/// else when `t3` is visible to `t2`.
pub open spec fn rw_by(av: AtomicView, vis: Set<((u64, u64), (u64, u64))>, x: Seq<char>, t1: (u64, u64), t2: (u64, u64), t3: (u64, u64)) -> bool {
    &&& t1 != t2
    &&& writes_var(av, t1, x)
    &&& writes_var(av, t2, x)
    &&& wr_edge(av, x, t1, t3)
    &&& if vis.contains((t1, t2)) { t3 != t2 } else { vis.contains((t3, t2)) }
}

/// The read-write relation of one variable under `vis`: `t3` reads a
/// version of `x` that `t2` overwrites.
pub open spec fn rw_rel_of(av: AtomicView, vis: Set<((u64, u64), (u64, u64))>, x: Seq<char>) -> Set<((u64, u64), (u64, u64))> {
    Set::new(|p: ((u64, u64), (u64, u64))| exists|t1: (u64, u64)| #[trigger] rw_by(av, vis, x, t1, p.1, p.0))
}

/// Transaction `(s, t)` of the view writes or reads the variable named `x`.
pub open spec fn txn_mentions(av: AtomicView, s: int, t: int, x: Seq<char>) -> bool {
    av[s][t].0.contains(x) || exists|a: (u64, u64)| #[trigger] av[s][t].1.contains((x, a))
}

/// Some transaction writes or reads the variable named `x`.
pub open spec fn mentions_var(av: AtomicView, x: Seq<char>) -> bool {
    exists|s: int, t: int| 0 <= s < av.len() && 0 <= t < av[s].len() && #[trigger] txn_mentions(av, s, t, x)
}

/// Partial order over the transactions of an atomic history.
///
/// The session order and write-read relations are fixed at construction; the
/// visibility relation starts as the session order and grows as the consistency checks
/// saturate it.
#[derive(Debug)]
pub struct AtomicTransactionPO<Variable> {
    /// The synthetic root transaction `(0, 0)`.
    pub root: TransactionId,
    /// Per-transaction read and write sets.
    pub history: AtomicTransactionHistory<Variable>,
    /// The session order, transitively closed, with the root before every
    /// transaction.
    pub session_order: DiGraph,
    /// Per variable, its write-read graph: an edge `(w, r)` means that `r`
    /// reads the variable from `w`; every writer of the variable is a vertex.
    pub write_read_relation: Vec<(Variable, DiGraph)>,
    /// The union of all write-read graphs.
    pub wr_union: DiGraph,
    /// The visibility relation: an edge `(a, b)` means `a` is visible to `b`.
    pub visibility_relation: DiGraph,
}

impl<Variable: Label> AtomicTransactionPO<Variable> {
    /// The atomic view of the history the order is built on.
    pub open spec fn av(&self) -> AtomicView {
        self.history.view()
    }

    /// The visibility relation as a set of pairs.
    pub open spec fn vis(&self) -> Set<((u64, u64), (u64, u64))> {
        edge_set(self.visibility_relation.view())
    }

    /// The fixed relations agree with the history: the session order, one
    /// write-read graph per variable (each variable once), and their union.
    pub open spec fn well_formed(&self) -> bool {
        let av = self.av();
        &&& self.root@ == (0u64, 0u64)
        &&& edge_set(self.session_order.view()) == so_rel(av)
        &&& forall|i: int, j: int| 0 <= i < j < self.write_read_relation@.len()
            ==> #[trigger] self.write_read_relation@[i].0.label() != #[trigger] self.write_read_relation@[j].0.label()
        &&& forall|x: Seq<char>| #[trigger] mentions_var(av, x)
            ==> exists|i: int| 0 <= i < self.write_read_relation@.len() && #[trigger] self.write_read_relation@[i].0.label() == x
        &&& forall|i: int| 0 <= i < self.write_read_relation@.len()
            ==> edge_set(#[trigger] self.write_read_relation@[i].1.view()) == wr_rel_of(av, self.write_read_relation@[i].0.label())
        &&& edge_set(self.wr_union.view()) == wr_rel(av)
    }
}


/// `b` lies before transaction `t` of session `s` in the order of sessions,
/// then transactions.
pub open spec fn tid_before(b: (u64, u64), s: int, t: int) -> bool {
    b.0 < s + 1 || (b.0 == s + 1 && b.1 < t)
}

/// The session order of an atomic history.
fn build_session_order<V: Label>(history: &AtomicTransactionHistory<V>) -> (g: DiGraph)
    ensures
        edge_set(g.view()) == so_rel(history.view()),
{
    let ghost av = history.view();
    let root = TransactionId::root();
    let mut g = DiGraph::new();
    let mut s: usize = 0;
    while s < history.0.len()
        invariant
            0 <= s <= history.0@.len(),
            av == history.view(),
            root@ == (0u64, 0u64),
            forall|a: (u64, u64), b: (u64, u64)| #[trigger] edge_set(g.view()).contains((a, b)) <==> so_edge(av, a, b) && b.0 <= s,
        decreases history.0@.len() - s,
    {
        let n = history.0[s].len();
        let mut t: usize = 0;
        while t < n
            invariant
                0 <= s < history.0.len(),
                n == history.0@[s as int]@.len(),
                0 <= t <= n,
                av == history.view(),
                root@ == (0u64, 0u64),
                forall|a: (u64, u64), b: (u64, u64)| #[trigger] edge_set(g.view()).contains((a, b)) <==> so_edge(av, a, b) && tid_before(b, s as int, t as int),
            decreases n - t,
        {
            let me = TransactionId { session_id: (s + 1) as u64, session_height: t as u64 };
            let ghost e0 = edge_set(g.view());
            g.add_edge(root, me);
            proof {
                assert forall|a: (u64, u64), b: (u64, u64)| #[trigger] edge_set(g.view()).contains((a, b)) <==>
                    (so_edge(av, a, b) && tid_before(b, s as int, t as int))
                    || (b == me@ && (a == (0u64, 0u64) || (a.0 == s + 1 && a.1 < 0))) by {
                    assert(edge_set(g.view()).contains((a, b)) <==> e0.contains((a, b)) || (a == root@ && b == me@));
                }
            }
            let mut u: usize = 0;
            while u < t
                invariant
                    0 <= s < history.0.len(),
                    n == history.0@[s as int]@.len(),
                    0 <= t < n,
                    0 <= u <= t,
                    av == history.view(),
                    me@ == ((s + 1) as u64, t as u64),
                    forall|a: (u64, u64), b: (u64, u64)| #[trigger] edge_set(g.view()).contains((a, b)) <==>
                        (so_edge(av, a, b) && tid_before(b, s as int, t as int))
                        || (b == me@ && (a == (0u64, 0u64) || (a.0 == s + 1 && a.1 < u))),
                decreases t - u,
            {
                let earlier = TransactionId { session_id: (s + 1) as u64, session_height: u as u64 };
                g.add_edge(earlier, me);
                u = u + 1;
            }
            proof {
                assert(is_txn(av, me@));
                assert forall|a: (u64, u64), b: (u64, u64)| #[trigger] edge_set(g.view()).contains((a, b)) <==>
                    so_edge(av, a, b) && tid_before(b, s as int, t + 1) by {
                    if b == me@ {
                        assert(is_txn(av, b));
                    }
                }
            }
            t = t + 1;
        }
        s = s + 1;
    }
    proof {
        assert forall|p: ((u64, u64), (u64, u64))| edge_set(g.view()).contains(p) <==> #[trigger] so_rel(av).contains(p) by {
            assert(edge_set(g.view()).contains((p.0, p.1)) == edge_set(g.view()).contains(p));
        }
        assert(edge_set(g.view()) =~= so_rel(av));
    }
    g
}

/// Adds the name `x` to `vars` if no element there has its label.
fn add_variable<V: Label>(vars: &mut Vec<V>, x: &V)
    requires
        forall|i: int, j: int| 0 <= i < j < old(vars)@.len() ==> #[trigger] old(vars)@[i].label() != #[trigger] old(vars)@[j].label(),
    ensures
        forall|i: int, j: int| 0 <= i < j < final(vars)@.len() ==> #[trigger] final(vars)@[i].label() != #[trigger] final(vars)@[j].label(),
        forall|y: Seq<char>| #[trigger] labels_contain(final(vars)@, y) <==> labels_contain(old(vars)@, y) || y == x.label(),
{
    let ghost v0 = vars@;
    let mut i: usize = 0;
    while i < vars.len()
        invariant
            0 <= i <= vars.len(),
            vars@ == v0,
            forall|a: int, b: int| 0 <= a < b < v0.len() ==> #[trigger] v0[a].label() != #[trigger] v0[b].label(),
            forall|k: int| 0 <= k < i ==> #[trigger] vars@[k].label() != x.label(),
        decreases vars.len() - i,
    {
        if vars[i].same_label(x) {
            proof {
                assert forall|y: Seq<char>| #[trigger] labels_contain(vars@, y) <==> labels_contain(v0, y) || y == x.label() by {
                    if y == x.label() {
                        assert(vars@[i as int].label() == y);
                    }
                }
            }
            return;
        }
        i = i + 1;
    }
    vars.push(x.copy_label());
    proof {
        assert forall|y: Seq<char>| #[trigger] labels_contain(vars@, y) <==> labels_contain(v0, y) || y == x.label() by {
            if labels_contain(vars@, y) {
                let k = choose|k: int| 0 <= k < vars@.len() && #[trigger] vars@[k].label() == y;
                if k < v0.len() {
                    assert(v0[k].label() == y);
                }
            }
            if labels_contain(v0, y) {
                let k = choose|k: int| 0 <= k < v0.len() && #[trigger] v0[k].label() == y;
                assert(vars@[k].label() == y);
            }
            if y == x.label() {
                assert(vars@[v0.len() as int].label() == y);
            }
        }
    }
}

/// Every variable that the atomic history mentions, each once.
#[verifier::loop_isolation(false)]
fn collect_variables<V: Label>(history: &AtomicTransactionHistory<V>) -> (vars: Vec<V>)
    ensures
        forall|i: int, j: int| 0 <= i < j < vars@.len() ==> #[trigger] vars@[i].label() != #[trigger] vars@[j].label(),
        forall|x: Seq<char>| #[trigger] mentions_var(history.view(), x) ==> labels_contain(vars@, x),
{
    let ghost av = history.view();
    let mut vars: Vec<V> = Vec::new();
    let mut s: usize = 0;
    while s < history.0.len()
        invariant
            0 <= s <= history.0@.len(),
            forall|i: int, j: int| 0 <= i < j < vars@.len() ==> #[trigger] vars@[i].label() != #[trigger] vars@[j].label(),
            forall|x: Seq<char>, s1: int, t1: int| 0 <= s1 < s && 0 <= t1 < av[s1].len() && #[trigger] txn_mentions(av, s1, t1, x)
                ==> labels_contain(vars@, x),
        decreases history.0@.len() - s,
    {
        let mut t: usize = 0;
        while t < history.0[s].len()
            invariant
                0 <= s < history.0@.len(),
                0 <= t <= history.0@[s as int]@.len(),
                forall|i: int, j: int| 0 <= i < j < vars@.len() ==> #[trigger] vars@[i].label() != #[trigger] vars@[j].label(),
                forall|x: Seq<char>, s1: int, t1: int| 0 <= s1 < s && 0 <= t1 < av[s1].len() && #[trigger] txn_mentions(av, s1, t1, x)
                    ==> labels_contain(vars@, x),
                forall|x: Seq<char>, t1: int| 0 <= t1 < t && #[trigger] txn_mentions(av, s as int, t1, x) ==> labels_contain(vars@, x),
            decreases history.0@[s as int]@.len() - t,
        {
            let info = &history.0[s][t];
            let mut i: usize = 0;
            while i < info.writes.len()
                invariant
                    0 <= i <= info.writes@.len(),
                    forall|a: int, b: int| 0 <= a < b < vars@.len() ==> #[trigger] vars@[a].label() != #[trigger] vars@[b].label(),
                    forall|x: Seq<char>, s1: int, t1: int| 0 <= s1 < s && 0 <= t1 < av[s1].len() && #[trigger] txn_mentions(av, s1, t1, x)
                        ==> labels_contain(vars@, x),
                    forall|x: Seq<char>, t1: int| 0 <= t1 < t && #[trigger] txn_mentions(av, s as int, t1, x) ==> labels_contain(vars@, x),
                    forall|k: int| 0 <= k < i ==> labels_contain(vars@, #[trigger] info.writes@[k].label()),
                decreases info.writes@.len() - i,
            {
                add_variable(&mut vars, &info.writes[i]);
                i = i + 1;
            }
            let mut j: usize = 0;
            while j < info.reads.len()
                invariant
                    0 <= j <= info.reads@.len(),
                    forall|a: int, b: int| 0 <= a < b < vars@.len() ==> #[trigger] vars@[a].label() != #[trigger] vars@[b].label(),
                    forall|x: Seq<char>, s1: int, t1: int| 0 <= s1 < s && 0 <= t1 < av[s1].len() && #[trigger] txn_mentions(av, s1, t1, x)
                        ==> labels_contain(vars@, x),
                    forall|x: Seq<char>, t1: int| 0 <= t1 < t && #[trigger] txn_mentions(av, s as int, t1, x) ==> labels_contain(vars@, x),
                    forall|k: int| 0 <= k < info.writes@.len() ==> labels_contain(vars@, #[trigger] info.writes@[k].label()),
                    forall|k: int| 0 <= k < j ==> labels_contain(vars@, #[trigger] info.reads@[k].0.label()),
                decreases info.reads@.len() - j,
            {
                add_variable(&mut vars, &info.reads[j].0);
                j = j + 1;
            }
            proof {
                assert(av[s as int][t as int] == info.view());
                assert forall|x: Seq<char>| #[trigger] txn_mentions(av, s as int, t as int, x) implies labels_contain(vars@, x) by {
                    if info.view().0.contains(x) {
                        let k = choose|k: int| 0 <= k < info.writes@.len() && #[trigger] info.writes@[k].label() == x;
                        assert(labels_contain(vars@, info.writes@[k].label()));
                    } else {
                        let a = choose|a: (u64, u64)| #[trigger] av[s as int][t as int].1.contains((x, a));
                        assert(info.view().1.contains((x, a)));
                        let k = choose|k: int| 0 <= k < info.reads@.len() && #[trigger] info.reads@[k].0.label() == x && info.reads@[k].1@ == a;
                        assert(labels_contain(vars@, info.reads@[k].0.label()));
                    }
                }
            }
            t = t + 1;
        }
        s = s + 1;
    }
    proof {
        assert forall|x: Seq<char>| #[trigger] mentions_var(av, x) implies labels_contain(vars@, x) by {
            let (s1, t1) = choose|s1: int, t1: int| 0 <= s1 < av.len() && 0 <= t1 < av[s1].len() && #[trigger] txn_mentions(av, s1, t1, x);
            assert(txn_mentions(av, s1, t1, x));
        }
    }
    vars
}


/// The write-read graph of the variable named like `x`: an edge from each
/// transaction to each transaction that reads `x` from it; every writer of
/// `x` is a vertex.
#[verifier::loop_isolation(false)]
fn build_wr<V: Label>(history: &AtomicTransactionHistory<V>, x: &V) -> (g: DiGraph)
    ensures
        edge_set(g.view()) == wr_rel_of(history.view(), x.label()),
        forall|t: (u64, u64)| #[trigger] writes_var(history.view(), t, x.label()) ==> g.view().dom().contains(t),
{
    let ghost av = history.view();
    let ghost xl = x.label();
    let mut g = DiGraph::new();
    let mut s: usize = 0;
    while s < history.0.len()
        invariant
            0 <= s <= history.0.len(),
            forall|a: (u64, u64), b: (u64, u64)| #[trigger] edge_set(g.view()).contains((a, b)) <==> wr_edge(av, xl, a, b) && tid_before(b, s as int, 0),
            forall|t: (u64, u64)| #[trigger] writes_var(av, t, xl) && tid_before(t, s as int, 0) ==> g.view().dom().contains(t),
        decreases history.0.len() - s,
    {
        let mut t: usize = 0;
        while t < history.0[s].len()
            invariant
                0 <= s < history.0.len(),
                0 <= t <= history.0@[s as int]@.len(),
                forall|a: (u64, u64), b: (u64, u64)| #[trigger] edge_set(g.view()).contains((a, b)) <==> wr_edge(av, xl, a, b) && tid_before(b, s as int, t as int),
                forall|u: (u64, u64)| #[trigger] writes_var(av, u, xl) && tid_before(u, s as int, t as int) ==> g.view().dom().contains(u),
            decreases history.0@[s as int]@.len() - t,
        {
            let me = TransactionId { session_id: (s + 1) as u64, session_height: t as u64 };
            let info = &history.0[s][t];
            assert(av[s as int][t as int] == info.view());
            let mut wrote = false;
            let mut i: usize = 0;
            while i < info.writes.len()
                invariant
                    0 <= i <= info.writes@.len(),
                    forall|a: (u64, u64), b: (u64, u64)| #[trigger] edge_set(g.view()).contains((a, b)) <==> wr_edge(av, xl, a, b) && tid_before(b, s as int, t as int),
                    forall|u: (u64, u64)| #[trigger] writes_var(av, u, xl) && tid_before(u, s as int, t as int) ==> g.view().dom().contains(u),
                    wrote ==> g.view().dom().contains(me@),
                    wrote <==> exists|k: int| 0 <= k < i && #[trigger] info.writes@[k].label() == xl,
                decreases info.writes@.len() - i,
            {
                if info.writes[i].same_label(x) {
                    g.add_vertex(me);
                    wrote = true;
                }
                i = i + 1;
            }
            let mut j: usize = 0;
            while j < info.reads.len()
                invariant
                    0 <= j <= info.reads@.len(),
                    forall|a: (u64, u64), b: (u64, u64)| #[trigger] edge_set(g.view()).contains((a, b)) <==>
                        (wr_edge(av, xl, a, b) && tid_before(b, s as int, t as int))
                        || (b == me@ && exists|k: int| 0 <= k < j && #[trigger] info.reads@[k].0.label() == xl && info.reads@[k].1@ == a),
                    forall|u: (u64, u64)| #[trigger] writes_var(av, u, xl) && tid_before(u, s as int, t as int) ==> g.view().dom().contains(u),
                    wrote ==> g.view().dom().contains(me@),
                    wrote <==> exists|k: int| 0 <= k < info.writes@.len() && #[trigger] info.writes@[k].label() == xl,
                decreases info.reads@.len() - j,
            {
                if info.reads[j].0.same_label(x) {
                    let ghost e0 = edge_set(g.view());
                    g.add_edge(info.reads[j].1, me);
                    proof {
                        assert forall|a: (u64, u64), b: (u64, u64)| #[trigger] edge_set(g.view()).contains((a, b)) <==>
                            (wr_edge(av, xl, a, b) && tid_before(b, s as int, t as int))
                            || (b == me@ && exists|k: int| 0 <= k < j + 1 && #[trigger] info.reads@[k].0.label() == xl && info.reads@[k].1@ == a) by {
                            assert(edge_set(g.view()).contains((a, b)) <==> e0.contains((a, b)) || (a == info.reads@[j as int].1@ && b == me@));
                            if b == me@ && exists|k: int| 0 <= k < j + 1 && #[trigger] info.reads@[k].0.label() == xl && info.reads@[k].1@ == a {
                                let k = choose|k: int| 0 <= k < j + 1 && #[trigger] info.reads@[k].0.label() == xl && info.reads@[k].1@ == a;
                                if k < j {
                                    assert(e0.contains((a, b)));
                                }
                            }
                        }
                    }
                } else {
                    proof {
                        assert forall|a: (u64, u64), b: (u64, u64)| #[trigger] edge_set(g.view()).contains((a, b)) <==>
                            (wr_edge(av, xl, a, b) && tid_before(b, s as int, t as int))
                            || (b == me@ && exists|k: int| 0 <= k < j + 1 && #[trigger] info.reads@[k].0.label() == xl && info.reads@[k].1@ == a) by {
                            if b == me@ && exists|k: int| 0 <= k < j + 1 && #[trigger] info.reads@[k].0.label() == xl && info.reads@[k].1@ == a {
                                let k = choose|k: int| 0 <= k < j + 1 && #[trigger] info.reads@[k].0.label() == xl && info.reads@[k].1@ == a;
                                assert(k < j);
                            }
                        }
                    }
                }
                j = j + 1;
            }
            proof {
                assert(is_txn(av, me@));
                assert forall|a: (u64, u64), b: (u64, u64)| #[trigger] edge_set(g.view()).contains((a, b)) <==>
                    wr_edge(av, xl, a, b) && tid_before(b, s as int, t + 1) by {
                    if b == me@ {
                        if wr_edge(av, xl, a, b) {
                            assert(info.view().1.contains((xl, a)));
                            let k = choose|k: int| 0 <= k < info.reads@.len() && #[trigger] info.reads@[k].0.label() == xl && info.reads@[k].1@ == a;
                        }
                    }
                }
                assert forall|u: (u64, u64)| #[trigger] writes_var(av, u, xl) && tid_before(u, s as int, t + 1) implies g.view().dom().contains(u) by {
                    if u == me@ {
                        assert(info.view().0.contains(xl));
                        let k = choose|k: int| 0 <= k < info.writes@.len() && #[trigger] info.writes@[k].label() == xl;
                    }
                }
            }
            t = t + 1;
        }
        s = s + 1;
    }
    proof {
        assert forall|p: ((u64, u64), (u64, u64))| edge_set(g.view()).contains(p) <==> #[trigger] wr_rel_of(av, xl).contains(p) by {
            assert(edge_set(g.view()).contains((p.0, p.1)) == edge_set(g.view()).contains(p));
        }
        assert(edge_set(g.view()) =~= wr_rel_of(av, xl));
    }
    g
}


impl<Variable: Label> AtomicTransactionPO<Variable> {
    /// Builds the partial order of an atomic history: the session order, the
    /// write-read graph of every variable and their union; visibility starts
    /// as the session order.
    pub fn from(history: AtomicTransactionHistory<Variable>) -> (po: Self)
        ensures
            po.well_formed(),
            po.av() == history.view(),
            po.vis() == so_rel(history.view()),
            forall|k: int, t: (u64, u64)| 0 <= k < po.write_read_relation@.len()
                && #[trigger] writes_var(po.av(), t, po.write_read_relation@[k].0.label())
                ==> (#[trigger] po.write_read_relation@[k]).1.view().dom().contains(t),
    {
        let ghost av = history.view();
        let root = TransactionId::root();
        let session_order = build_session_order(&history);
        let vars = collect_variables(&history);
        let mut write_read_relation: Vec<(Variable, DiGraph)> = Vec::new();
        let mut wr_union = DiGraph::new();
        let mut i: usize = 0;
        while i < vars.len()
            invariant
                0 <= i <= vars.len(),
                av == history.view(),
                write_read_relation@.len() == i,
                forall|k: int| 0 <= k < i ==> #[trigger] write_read_relation@[k].0.label() == vars@[k].label(),
                forall|k: int| 0 <= k < i ==> edge_set(#[trigger] write_read_relation@[k].1.view()) == wr_rel_of(av, vars@[k].label()),
                forall|k: int, t: (u64, u64)| 0 <= k < i && #[trigger] writes_var(av, t, vars@[k].label())
                    ==> (#[trigger] write_read_relation@[k]).1.view().dom().contains(t),
                forall|p: ((u64, u64), (u64, u64))| #[trigger] edge_set(wr_union.view()).contains(p) <==>
                    exists|k: int| 0 <= k < i && #[trigger] wr_rel_of(av, vars@[k].label()).contains(p),
            decreases vars.len() - i,
        {
            let g = build_wr(&history, &vars[i]);
            let ghost u0 = edge_set(wr_union.view());
            wr_union.union(&g);
            proof {
                assert forall|p: ((u64, u64), (u64, u64))| #[trigger] edge_set(wr_union.view()).contains(p) <==>
                    exists|k: int| 0 <= k < i + 1 && #[trigger] wr_rel_of(av, vars@[k].label()).contains(p) by {
                    if exists|k: int| 0 <= k < i + 1 && #[trigger] wr_rel_of(av, vars@[k].label()).contains(p) {
                        let k = choose|k: int| 0 <= k < i + 1 && #[trigger] wr_rel_of(av, vars@[k].label()).contains(p);
                        if k < i {
                            assert(u0.contains(p));
                        }
                    }
                }
            }
            let ghost w0 = write_read_relation@;
            let ghost gv = g.view();
            write_read_relation.push((vars[i].copy_label(), g));
            proof {
                assert forall|k: int| 0 <= k < i + 1 implies edge_set(#[trigger] write_read_relation@[k].1.view()) == wr_rel_of(av, vars@[k].label()) by {
                    if k < i {
                        assert(write_read_relation@[k] == w0[k]);
                        assert(edge_set(w0[k].1.view()) == wr_rel_of(av, vars@[k].label()));
                    } else {
                        assert(write_read_relation@[k].1.view() == gv);
                        assert(edge_set(gv) == wr_rel_of(av, vars@[k].label()));
                    }
                }
                assert forall|k: int, t: (u64, u64)| 0 <= k < i + 1 && #[trigger] writes_var(av, t, vars@[k].label())
                    implies (#[trigger] write_read_relation@[k]).1.view().dom().contains(t) by {
                    if k < i {
                        assert(write_read_relation@[k] == w0[k]);
                    } else {
                        assert(write_read_relation@[k].1.view() == gv);
                    }
                }
            }
            i = i + 1;
        }
        let visibility_relation = session_order.clone();
        let po = AtomicTransactionPO { root, history, session_order, write_read_relation, wr_union, visibility_relation };
        proof {
            assert(po.av() == av);
            assert forall|p: ((u64, u64), (u64, u64))| #[trigger] edge_set(po.wr_union.view()).contains(p) <==> wr_rel(av).contains(p) by {
                if wr_rel(av).contains(p) {
                    let x = choose|x: Seq<char>| #[trigger] wr_edge(av, x, p.0, p.1);
                    let b = p.1;
                    assert(is_txn(av, b));
                    assert(txn_mentions(av, (b.0 - 1) as int, b.1 as int, x));
                    assert(mentions_var(av, x));
                    let k = choose|k: int| 0 <= k < vars@.len() && #[trigger] vars@[k].label() == x;
                    assert(wr_rel_of(av, vars@[k].label()).contains(p));
                }
                if edge_set(po.wr_union.view()).contains(p) {
                    let k = choose|k: int| 0 <= k < vars@.len() && #[trigger] wr_rel_of(av, vars@[k].label()).contains(p);
                    assert(wr_edge(av, vars@[k].label(), p.0, p.1));
                }
            }
            assert(edge_set(po.wr_union.view()) =~= wr_rel(av));
            assert forall|x: Seq<char>| #[trigger] mentions_var(av, x)
                implies exists|k: int| 0 <= k < po.write_read_relation@.len() && #[trigger] po.write_read_relation@[k].0.label() == x by {
                let k = choose|k: int| 0 <= k < vars@.len() && #[trigger] vars@[k].label() == x;
                assert(po.write_read_relation@[k].0.label() == x);
            }
        }
        po
    }
}


impl<Variable: Label> AtomicTransactionPO<Variable> {
    /// The union of the write-read relations of all variables.
    pub fn get_wr(&self) -> (r: DiGraph)
        ensures
            r.view() == self.wr_union.view(),
    {
        self.wr_union.clone()
    }

    /// Adds the edges of `g` to the visibility relation; reports whether it
    /// changed.
    pub fn vis_includes(&mut self, g: &DiGraph) -> (changed: bool)
        requires
            old(self).well_formed(),
        ensures
            final(self).well_formed(),
            final(self).av() == old(self).av(),
            final(self).history == old(self).history,
            final(self).session_order == old(self).session_order,
            final(self).write_read_relation == old(self).write_read_relation,
            final(self).wr_union == old(self).wr_union,
            final(self).vis() == old(self).vis().union(edge_set(g.view())),
            changed == !edge_set(g.view()).subset_of(old(self).vis()),
    {
        let changed = self.visibility_relation.union(g);
        proof {
            assert(self.history == old(self).history);
            assert(self.session_order == old(self).session_order);
            assert(self.write_read_relation == old(self).write_read_relation);
            assert(self.wr_union == old(self).wr_union);
            assert(self.root == old(self).root);
        }
        changed
    }

    /// Replaces the visibility relation by its transitive closure; reports
    /// whether it changed.
    pub fn vis_is_trans(&mut self) -> (changed: bool)
        requires
            old(self).well_formed(),
        ensures
            final(self).well_formed(),
            final(self).av() == old(self).av(),
            final(self).history == old(self).history,
            final(self).session_order == old(self).session_order,
            final(self).write_read_relation == old(self).write_read_relation,
            final(self).wr_union == old(self).wr_union,
            old(self).vis().subset_of(final(self).vis()),
            is_transitive(final(self).vis()),
            forall|a: (u64, u64), b: (u64, u64)| #[trigger] final(self).vis().contains((a, b)) ==> reaches(old(self).vis(), a, b),
            changed == !final(self).vis().subset_of(old(self).vis()),
    {
        let ghost v0 = self.vis();
        let closure = self.visibility_relation.closure();
        let mut probe = self.visibility_relation.clone();
        let changed = probe.union(&closure);
        self.visibility_relation = closure;
        proof {
            assert(self.history == old(self).history);
            assert(self.session_order == old(self).session_order);
            assert(self.write_read_relation == old(self).write_read_relation);
            assert(self.wr_union == old(self).wr_union);
            assert(self.root == old(self).root);
            let v1 = self.vis();
            assert forall|a: (u64, u64), b: (u64, u64)| #[trigger] v0.contains((a, b)) implies v1.contains((a, b)) by {
                lemma_edge_reaches(v0, a, b);
                assert(has_edge_spec(self.visibility_relation.view(), a, b));
            }
            assert forall|a: (u64, u64), b: (u64, u64), c: (u64, u64)|
                #![trigger v1.contains((a, b)), v1.contains((b, c))]
                v1.contains((a, b)) && v1.contains((b, c)) implies v1.contains((a, c)) by {
                assert(has_edge_spec(self.visibility_relation.view(), a, b));
                assert(has_edge_spec(self.visibility_relation.view(), b, c));
                lemma_reaches_trans(v0, a, b, c);
                assert(has_edge_spec(self.visibility_relation.view(), a, c));
            }
            assert forall|a: (u64, u64), b: (u64, u64)| #[trigger] v1.contains((a, b)) implies reaches(v0, a, b) by {
                assert(has_edge_spec(self.visibility_relation.view(), a, b));
            }
        }
        changed
    }

    /// Adds `new_edges` to the visibility relation and closes it again under
    /// transitivity; reports whether it changed.
    pub fn vis_extend_closed(&mut self, new_edges: Vec<(TransactionId, TransactionId)>) -> (changed: bool)
        requires
            old(self).well_formed(),
        ensures
            final(self).well_formed(),
            final(self).av() == old(self).av(),
            final(self).history == old(self).history,
            final(self).session_order == old(self).session_order,
            final(self).write_read_relation == old(self).write_read_relation,
            final(self).wr_union == old(self).wr_union,
            old(self).vis().subset_of(final(self).vis()),
            forall|j: int| 0 <= j < new_edges@.len() ==> #[trigger] final(self).vis().contains(edge_pairs(new_edges@)[j]),
            forall|a: (u64, u64), b: (u64, u64)| #[trigger] final(self).vis().contains((a, b))
                ==> reaches(old(self).vis().union(edge_pairs(new_edges@).to_set()), a, b),
            is_transitive(old(self).vis()) ==> is_transitive(final(self).vis()),
            changed <==> final(self).vis() != old(self).vis(),
    {
        let changed = self.visibility_relation.incremental_closure(new_edges);
        proof {
            assert(self.history == old(self).history);
            assert(self.session_order == old(self).session_order);
            assert(self.write_read_relation == old(self).write_read_relation);
            assert(self.wr_union == old(self).wr_union);
            assert(self.root == old(self).root);
        }
        changed
    }

    /// Whether the visibility relation is acyclic.
    pub fn has_valid_visibility(&self) -> (r: bool)
        ensures
            r == acyclic_rel(self.vis()),
    {
        proof { lemma_acyclic_edge_set(self.visibility_relation.view()); }
        self.visibility_relation.find_cycle_edge().is_none()
    }

    /// The transactions that write the variable named like `x`.
    fn writers_of(&self, x: &Variable) -> (r: Vec<TransactionId>)
        ensures
            forall|t: (u64, u64)| #[trigger] writes_var(self.av(), t, x.label()) <==> tid_views(r@).contains(t),
    {
        let ghost av = self.av();
        let mut r: Vec<TransactionId> = Vec::new();
        let mut s: usize = 0;
        while s < self.history.0.len()
            invariant
                0 <= s <= self.history.0.len(),
                av == self.av(),
                forall|t: (u64, u64)| #[trigger] tid_views(r@).contains(t) <==> writes_var(av, t, x.label()) && tid_before(t, s as int, 0),
            decreases self.history.0.len() - s,
        {
            let mut t: usize = 0;
            while t < self.history.0[s].len()
                invariant
                    0 <= s < self.history.0.len(),
                    0 <= t <= self.history.0@[s as int]@.len(),
                    av == self.av(),
                    forall|u: (u64, u64)| #[trigger] tid_views(r@).contains(u) <==> writes_var(av, u, x.label()) && tid_before(u, s as int, t as int),
                decreases self.history.0@[s as int]@.len() - t,
            {
                let info = &self.history.0[s][t];
                let me = TransactionId { session_id: (s + 1) as u64, session_height: t as u64 };
                assert(av[s as int][t as int] == info.view());
                let mut found = false;
                let mut i: usize = 0;
                while i < info.writes.len()
                    invariant
                        0 <= i <= info.writes@.len(),
                        found <==> exists|k: int| 0 <= k < i && #[trigger] info.writes@[k].label() == x.label(),
                    decreases info.writes@.len() - i,
                {
                    if info.writes[i].same_label(x) {
                        found = true;
                    }
                    i = i + 1;
                }
                let ghost r0 = r@;
                if found {
                    r.push(me);
                }
                proof {
                    assert(is_txn(av, me@));
                    assert(writes_var(av, me@, x.label()) <==> found);
                    assert forall|u: (u64, u64)| #[trigger] tid_views(r@).contains(u) <==> writes_var(av, u, x.label()) && tid_before(u, s as int, t + 1) by {
                        if found {
                            assert(tid_views(r@) =~= tid_views(r0).push(me@));
                            assert(tid_views(r@)[r0.len() as int] == me@);
                            if tid_views(r@).contains(u) {
                                let k = choose|k: int| 0 <= k < tid_views(r@).len() && tid_views(r@)[k] == u;
                                if k < r0.len() {
                                    assert(tid_views(r0)[k] == u);
                                }
                            }
                            if tid_views(r0).contains(u) {
                                let k = choose|k: int| 0 <= k < tid_views(r0).len() && tid_views(r0)[k] == u;
                                assert(tid_views(r@)[k] == u);
                            }
                        } else {
                            assert(tid_views(r@) == tid_views(r0));
                        }
                    }
                }
                t = t + 1;
            }
            s = s + 1;
        }
        r
    }

    /// The write-write relation of each variable under the current visibility:
    /// `t2` before `t1` when both write the variable and `t2` is visible to
    /// `t1` or to another transaction that reads the variable from `t1`.
    #[verifier::loop_isolation(false)]
    pub fn causal_ww(&self) -> (r: Vec<(Variable, DiGraph)>)
        requires
            self.well_formed(),
        ensures
            r@.len() == self.write_read_relation@.len(),
            forall|i: int| 0 <= i < r@.len() ==> #[trigger] r@[i].0.label() == self.write_read_relation@[i].0.label(),
            forall|i: int| 0 <= i < r@.len() ==> edge_set(#[trigger] r@[i].1.view())
                == ww_rel_of(self.av(), self.vis(), self.write_read_relation@[i].0.label()),
    {
        let ghost av = self.av();
        let ghost vis = self.vis();
        let mut out: Vec<(Variable, DiGraph)> = Vec::new();
        let mut i: usize = 0;
        while i < self.write_read_relation.len()
            invariant
                0 <= i <= self.write_read_relation@.len(),
                out@.len() == i,
                forall|k: int| 0 <= k < i ==> #[trigger] out@[k].0.label() == self.write_read_relation@[k].0.label(),
                forall|k: int| 0 <= k < i ==> edge_set(#[trigger] out@[k].1.view())
                    == ww_rel_of(av, vis, self.write_read_relation@[k].0.label()),
            decreases self.write_read_relation@.len() - i,
        {
            let x = &self.write_read_relation[i].0;
            let wr_x = &self.write_read_relation[i].1;
            let ghost xl = x.label();
            assert(edge_set(wr_x.view()) == wr_rel_of(av, xl));
            let writers = self.writers_of(x);
            let mut ww_x = DiGraph::new();
            let mut a: usize = 0;
            while a < writers.len()
                invariant
                    0 <= a <= writers.len(),
                    forall|p: ((u64, u64), (u64, u64))| #[trigger] edge_set(ww_x.view()).contains(p) <==>
                        ww_edge(av, vis, xl, p.0, p.1) && exists|m: int| 0 <= m < a && writers@[m]@ == p.1,
                decreases writers.len() - a,
            {
                let t1 = writers[a];
                assert(tid_views(writers@)[a as int] == t1@);
                let t3s = wr_x.successors(&t1);
                let mut b: usize = 0;
                while b < writers.len()
                    invariant
                        0 <= a < writers.len(),
                        0 <= b <= writers.len(),
                        t1 == writers@[a as int],
                        forall|p: ((u64, u64), (u64, u64))| #[trigger] edge_set(ww_x.view()).contains(p) <==>
                            ww_edge(av, vis, xl, p.0, p.1) && ((exists|m: int| 0 <= m < a && writers@[m]@ == p.1)
                                || (p.1 == t1@ && exists|m: int| 0 <= m < b && writers@[m]@ == p.0)),
                    decreases writers.len() - b,
                {
                    let t2 = writers[b];
                    assert(tid_views(writers@)[b as int] == t2@);
                    if !(t1.session_id == t2.session_id && t1.session_height == t2.session_height) {
                        let mut cond = self.visibility_relation.has_edge(&t2, &t1);
                        assert(cond == vis.contains((t2@, t1@)));
                        let mut c: usize = 0;
                        while c < t3s.len()
                            invariant
                                0 <= c <= t3s.len(),
                                cond <==> vis.contains((t2@, t1@)) || exists|m: int| 0 <= m < c && t3s@[m]@ != t2@
                                    && #[trigger] vis.contains((t2@, t3s@[m]@)),
                            decreases t3s.len() - c,
                        {
                            let t3 = t3s[c];
                            let seen = self.visibility_relation.has_edge(&t2, &t3);
                            proof {
                                assert(seen == vis.contains((t2@, t3s@[c as int]@)));
                            }
                            if !(t3.session_id == t2.session_id && t3.session_height == t2.session_height) && seen {
                                cond = true;
                            }
                            proof {
                                if exists|m: int| 0 <= m < c + 1 && t3s@[m]@ != t2@ && #[trigger] vis.contains((t2@, t3s@[m]@)) {
                                    let m = choose|m: int| 0 <= m < c + 1 && t3s@[m]@ != t2@ && #[trigger] vis.contains((t2@, t3s@[m]@));
                                    if m == c {
                                        assert(t3@ != t2@);
                                    }
                                }
                            }
                            c = c + 1;
                        }
                        proof {
                            assert(tid_views(writers@).contains(t1@));
                            assert(tid_views(writers@).contains(t2@));
                            assert(writes_var(av, t1@, xl) && writes_var(av, t2@, xl));
                            assert(cond <==> ww_edge(av, vis, xl, t2@, t1@)) by {
                                if cond && !vis.contains((t2@, t1@)) {
                                    let m = choose|m: int| 0 <= m < t3s@.len() && t3s@[m]@ != t2@ && #[trigger] vis.contains((t2@, t3s@[m]@));
                                    assert(tid_views(t3s@)[m] == t3s@[m]@);
                                    assert(tid_views(t3s@).to_set().contains(t3s@[m]@));
                                    assert(adj_succ(wr_x.view(), t1@).contains(t3s@[m]@));
                                    assert(edge_set(wr_x.view()).contains((t1@, t3s@[m]@)));
                                    assert(wr_edge(av, xl, t1@, t3s@[m]@));
                                }
                                if ww_edge(av, vis, xl, t2@, t1@) && !vis.contains((t2@, t1@)) {
                                    let t3 = choose|t3: (u64, u64)| #[trigger] wr_edge(av, xl, t1@, t3) && t3 != t2@ && vis.contains((t2@, t3));
                                    assert(wr_rel_of(av, xl).contains((t1@, t3)));
                                    assert(has_edge_spec(wr_x.view(), t1@, t3));
                                    assert(adj_succ(wr_x.view(), t1@).contains(t3));
                                    assert(tid_views(t3s@).to_set().contains(t3));
                                    let m = choose|m: int| 0 <= m < tid_views(t3s@).len() && tid_views(t3s@)[m] == t3;
                                    assert(t3s@[m]@ == t3);
                                    assert(vis.contains((t2@, t3s@[m]@)));
                                }
                            }
                        }
                        if cond {
                            let ghost e0 = edge_set(ww_x.view());
                            ww_x.add_edge(t2, t1);
                            proof {
                                assert forall|p: ((u64, u64), (u64, u64))| #[trigger] edge_set(ww_x.view()).contains(p) <==>
                                    ww_edge(av, vis, xl, p.0, p.1) && ((exists|m: int| 0 <= m < a && writers@[m]@ == p.1)
                                        || (p.1 == t1@ && exists|m: int| 0 <= m < b + 1 && writers@[m]@ == p.0)) by {
                                    assert(edge_set(ww_x.view()).contains(p) <==> e0.contains(p) || p == (t2@, t1@));
                                    if p.1 == t1@ && exists|m: int| 0 <= m < b + 1 && writers@[m]@ == p.0 {
                                        let m = choose|m: int| 0 <= m < b + 1 && writers@[m]@ == p.0;
                                        if m == b {
                                            assert(p.0 == t2@);
                                        }
                                    }
                                }
                            }
                        } else {
                            proof {
                                assert forall|p: ((u64, u64), (u64, u64))| #[trigger] edge_set(ww_x.view()).contains(p) <==>
                                    ww_edge(av, vis, xl, p.0, p.1) && ((exists|m: int| 0 <= m < a && writers@[m]@ == p.1)
                                        || (p.1 == t1@ && exists|m: int| 0 <= m < b + 1 && writers@[m]@ == p.0)) by {
                                    if p.1 == t1@ && exists|m: int| 0 <= m < b + 1 && writers@[m]@ == p.0 {
                                        let m = choose|m: int| 0 <= m < b + 1 && writers@[m]@ == p.0;
                                        if m == b && ww_edge(av, vis, xl, p.0, p.1) {
                                            assert(p == (t2@, t1@));
                                        }
                                    }
                                }
                            }
                        }
                    } else {
                        proof {
                            assert forall|p: ((u64, u64), (u64, u64))| #[trigger] edge_set(ww_x.view()).contains(p) <==>
                                ww_edge(av, vis, xl, p.0, p.1) && ((exists|m: int| 0 <= m < a && writers@[m]@ == p.1)
                                    || (p.1 == t1@ && exists|m: int| 0 <= m < b + 1 && writers@[m]@ == p.0)) by {
                                if p.1 == t1@ && exists|m: int| 0 <= m < b + 1 && writers@[m]@ == p.0 {
                                    let m = choose|m: int| 0 <= m < b + 1 && writers@[m]@ == p.0;
                                    if m == b && ww_edge(av, vis, xl, p.0, p.1) {
                                        assert(p.0 == t2@);
                                        assert(t2@ == t1@);
                                    }
                                }
                            }
                        }
                    }
                    b = b + 1;
                }
                proof {
                    assert forall|p: ((u64, u64), (u64, u64))| #[trigger] edge_set(ww_x.view()).contains(p) <==>
                        ww_edge(av, vis, xl, p.0, p.1) && exists|m: int| 0 <= m < a + 1 && writers@[m]@ == p.1 by {
                        if ww_edge(av, vis, xl, p.0, p.1) && p.1 == t1@ {
                            assert(writes_var(av, p.0, xl));
                            assert(tid_views(writers@).contains(p.0));
                            let m = choose|m: int| 0 <= m < tid_views(writers@).len() && tid_views(writers@)[m] == p.0;
                            assert(writers@[m]@ == p.0);
                        }
                        if exists|m: int| 0 <= m < a + 1 && writers@[m]@ == p.1 {
                            let m = choose|m: int| 0 <= m < a + 1 && writers@[m]@ == p.1;
                            if m == a {
                                assert(p.1 == t1@);
                            }
                        }
                    }
                }
                a = a + 1;
            }
            proof {
                assert forall|p: ((u64, u64), (u64, u64))| edge_set(ww_x.view()).contains(p) <==> #[trigger] ww_rel_of(av, vis, xl).contains(p) by {
                    if ww_edge(av, vis, xl, p.0, p.1) {
                        assert(writes_var(av, p.1, xl));
                        assert(tid_views(writers@).contains(p.1));
                        let m = choose|m: int| 0 <= m < tid_views(writers@).len() && tid_views(writers@)[m] == p.1;
                        assert(writers@[m]@ == p.1);
                    }
                }
                assert(edge_set(ww_x.view()) =~= ww_rel_of(av, vis, xl));
            }
            let ghost o0 = out@;
            let ghost wv = ww_x.view();
            out.push((x.copy_label(), ww_x));
            proof {
                assert forall|k: int| 0 <= k < i + 1 implies edge_set(#[trigger] out@[k].1.view())
                    == ww_rel_of(av, vis, self.write_read_relation@[k].0.label()) by {
                    if k < i {
                        assert(out@[k] == o0[k]);
                        assert(edge_set(o0[k].1.view()) == ww_rel_of(av, vis, self.write_read_relation@[k].0.label()));
                    } else {
                        assert(out@[k].1.view() == wv);
                        assert(edge_set(wv) == ww_rel_of(av, vis, xl));
                    }
                }
            }
            i = i + 1;
        }
        out
    }

    /// The read-write relation per variable under the current visibility,
    /// in the order of [`write_read_relation`](Self::write_read_relation).
    #[must_use]
    pub fn causal_rw(&self) -> (r: Vec<(Variable, DiGraph)>)
        requires
            self.well_formed(),
        ensures
            r@.len() == self.write_read_relation@.len(),
            forall|i: int| 0 <= i < r@.len() ==> #[trigger] r@[i].0.label() == self.write_read_relation@[i].0.label(),
            forall|i: int| 0 <= i < r@.len() ==> edge_set(#[trigger] r@[i].1.view())
                == rw_rel_of(self.av(), self.vis(), self.write_read_relation@[i].0.label()),
    {
        let ghost av = self.av();
        let ghost vis = self.vis();
        let mut out: Vec<(Variable, DiGraph)> = Vec::new();
        let mut i: usize = 0;
        while i < self.write_read_relation.len()
            invariant
                0 <= i <= self.write_read_relation@.len(),
                av == self.av(),
                vis == self.vis(),
                self.well_formed(),
                out@.len() == i,
                forall|k: int| 0 <= k < i ==> #[trigger] out@[k].0.label() == self.write_read_relation@[k].0.label(),
                forall|k: int| 0 <= k < i ==> edge_set(#[trigger] out@[k].1.view())
                    == rw_rel_of(av, vis, self.write_read_relation@[k].0.label()),
            decreases self.write_read_relation@.len() - i,
        {
            let x = &self.write_read_relation[i].0;
            let wr_x = &self.write_read_relation[i].1;
            let ghost xl = x.label();
            assert(edge_set(wr_x.view()) == wr_rel_of(av, xl));
            let writers = self.writers_of(x);
            let mut rw_x = DiGraph::new();
            let mut a: usize = 0;
            while a < writers.len()
                invariant
                    0 <= a <= writers.len(),
                    av == self.av(),
                    vis == self.vis(),
                    edge_set(wr_x.view()) == wr_rel_of(av, xl),
                    forall|t: (u64, u64)| #[trigger] writes_var(av, t, xl) <==> tid_views(writers@).contains(t),
                    forall|p: ((u64, u64), (u64, u64))| #[trigger] edge_set(rw_x.view()).contains(p) <==>
                        exists|m: int| 0 <= m < a && #[trigger] rw_by(av, vis, xl, writers@[m]@, p.1, p.0),
                decreases writers.len() - a,
            {
                let t1 = writers[a];
                assert(tid_views(writers@)[a as int] == t1@);
                let t3s = wr_x.successors(&t1);
                let mut b: usize = 0;
                while b < writers.len()
                    invariant
                        0 <= a < writers.len(),
                        0 <= b <= writers.len(),
                        t1 == writers@[a as int],
                        av == self.av(),
                        vis == self.vis(),
                        edge_set(wr_x.view()) == wr_rel_of(av, xl),
                        tid_views(t3s@).to_set() == adj_succ(wr_x.view(), t1@),
                        forall|t: (u64, u64)| #[trigger] writes_var(av, t, xl) <==> tid_views(writers@).contains(t),
                        forall|p: ((u64, u64), (u64, u64))| #[trigger] edge_set(rw_x.view()).contains(p) <==>
                            (exists|m: int| 0 <= m < a && #[trigger] rw_by(av, vis, xl, writers@[m]@, p.1, p.0))
                            || (rw_by(av, vis, xl, t1@, p.1, p.0) && exists|m: int| 0 <= m < b && writers@[m]@ == p.1),
                    decreases writers.len() - b,
                {
                    let t2 = writers[b];
                    assert(tid_views(writers@)[b as int] == t2@);
                    if !(t1.session_id == t2.session_id && t1.session_height == t2.session_height) {
                        let v12 = self.visibility_relation.has_edge(&t1, &t2);
                        assert(v12 == vis.contains((t1@, t2@)));
                        let mut c: usize = 0;
                        while c < t3s.len()
                            invariant
                                0 <= a < writers.len(),
                                0 <= b < writers.len(),
                                0 <= c <= t3s.len(),
                                t1 == writers@[a as int],
                                t2 == writers@[b as int],
                                t1@ != t2@,
                                v12 == vis.contains((t1@, t2@)),
                                av == self.av(),
                                vis == self.vis(),
                                edge_set(wr_x.view()) == wr_rel_of(av, xl),
                                tid_views(t3s@).to_set() == adj_succ(wr_x.view(), t1@),
                                forall|t: (u64, u64)| #[trigger] writes_var(av, t, xl) <==> tid_views(writers@).contains(t),
                                forall|p: ((u64, u64), (u64, u64))| #[trigger] edge_set(rw_x.view()).contains(p) <==>
                                    (exists|m: int| 0 <= m < a && #[trigger] rw_by(av, vis, xl, writers@[m]@, p.1, p.0))
                                    || (rw_by(av, vis, xl, t1@, p.1, p.0) && exists|m: int| 0 <= m < b && writers@[m]@ == p.1)
                                    || (rw_by(av, vis, xl, t1@, p.1, p.0) && p.1 == t2@ && exists|m: int| 0 <= m < c && t3s@[m]@ == p.0),
                            decreases t3s.len() - c,
                        {
                            let t3 = t3s[c];
                            proof {
                                assert(tid_views(t3s@)[c as int] == t3@);
                                assert(tid_views(t3s@).to_set().contains(t3@));
                                assert(has_edge_spec(wr_x.view(), t1@, t3@));
                                assert(edge_set(wr_x.view()).contains((t1@, t3@)));
                                assert(wr_edge(av, xl, t1@, t3@));
                                assert(tid_views(writers@)[a as int] == t1@);
                                assert(tid_views(writers@)[b as int] == t2@);
                                assert(tid_views(writers@).contains(t1@));
                                assert(tid_views(writers@).contains(t2@));
                                assert(writes_var(av, t1@, xl) && writes_var(av, t2@, xl));
                            }
                            let add = if v12 {
                                !(t3.session_id == t2.session_id && t3.session_height == t2.session_height)
                            } else {
                                self.visibility_relation.has_edge(&t3, &t2)
                            };
                            assert(add == rw_by(av, vis, xl, t1@, t2@, t3@));
                            let ghost e0 = edge_set(rw_x.view());
                            if add {
                                rw_x.add_edge(t3, t2);
                            }
                            proof {
                                assert forall|p: ((u64, u64), (u64, u64))| #[trigger] edge_set(rw_x.view()).contains(p) <==>
                                    (exists|m: int| 0 <= m < a && #[trigger] rw_by(av, vis, xl, writers@[m]@, p.1, p.0))
                                    || (rw_by(av, vis, xl, t1@, p.1, p.0) && exists|m: int| 0 <= m < b && writers@[m]@ == p.1)
                                    || (rw_by(av, vis, xl, t1@, p.1, p.0) && p.1 == t2@ && exists|m: int| 0 <= m < c + 1 && t3s@[m]@ == p.0) by {
                                    assert(e0.contains(p) <==>
                                        (exists|m: int| 0 <= m < a && #[trigger] rw_by(av, vis, xl, writers@[m]@, p.1, p.0))
                                        || (rw_by(av, vis, xl, t1@, p.1, p.0) && exists|m: int| 0 <= m < b && writers@[m]@ == p.1)
                                        || (rw_by(av, vis, xl, t1@, p.1, p.0) && p.1 == t2@ && exists|m: int| 0 <= m < c && t3s@[m]@ == p.0));
                                    if add {
                                        assert(edge_set(rw_x.view()).contains(p) <==> e0.contains(p) || p == (t3@, t2@));
                                    }
                                    if rw_by(av, vis, xl, t1@, p.1, p.0) && p.1 == t2@ && exists|m: int| 0 <= m < c + 1 && t3s@[m]@ == p.0 {
                                        let m = choose|m: int| 0 <= m < c + 1 && t3s@[m]@ == p.0;
                                        if m == c {
                                            assert(p == (t3@, t2@));
                                        }
                                    }
                                }
                            }
                            c = c + 1;
                        }
                        proof {
                            assert forall|p: ((u64, u64), (u64, u64))| #[trigger] edge_set(rw_x.view()).contains(p) <==>
                                (exists|m: int| 0 <= m < a && #[trigger] rw_by(av, vis, xl, writers@[m]@, p.1, p.0))
                                || (rw_by(av, vis, xl, t1@, p.1, p.0) && exists|m: int| 0 <= m < b + 1 && writers@[m]@ == p.1) by {
                                if rw_by(av, vis, xl, t1@, p.1, p.0) && p.1 == t2@ {
                                    assert(wr_edge(av, xl, t1@, p.0));
                                    assert(wr_rel_of(av, xl).contains((t1@, p.0)));
                                    assert(has_edge_spec(wr_x.view(), t1@, p.0));
                                    assert(tid_views(t3s@).to_set().contains(p.0));
                                    let m = choose|m: int| 0 <= m < tid_views(t3s@).len() && tid_views(t3s@)[m] == p.0;
                                    assert(t3s@[m]@ == p.0);
                                }
                                if rw_by(av, vis, xl, t1@, p.1, p.0) && exists|m: int| 0 <= m < b + 1 && writers@[m]@ == p.1 {
                                    let m = choose|m: int| 0 <= m < b + 1 && writers@[m]@ == p.1;
                                    if m == b {
                                        assert(p.1 == t2@);
                                    }
                                }
                            }
                        }
                    } else {
                        proof {
                            assert forall|p: ((u64, u64), (u64, u64))| #[trigger] edge_set(rw_x.view()).contains(p) <==>
                                (exists|m: int| 0 <= m < a && #[trigger] rw_by(av, vis, xl, writers@[m]@, p.1, p.0))
                                || (rw_by(av, vis, xl, t1@, p.1, p.0) && exists|m: int| 0 <= m < b + 1 && writers@[m]@ == p.1) by {
                                if rw_by(av, vis, xl, t1@, p.1, p.0) && exists|m: int| 0 <= m < b + 1 && writers@[m]@ == p.1 {
                                    let m = choose|m: int| 0 <= m < b + 1 && writers@[m]@ == p.1;
                                    if m == b {
                                        assert(p.1 == t2@);
                                        assert(t2@ == t1@);
                                    }
                                }
                            }
                        }
                    }
                    b = b + 1;
                }
                proof {
                    assert forall|p: ((u64, u64), (u64, u64))| #[trigger] edge_set(rw_x.view()).contains(p) <==>
                        exists|m: int| 0 <= m < a + 1 && #[trigger] rw_by(av, vis, xl, writers@[m]@, p.1, p.0) by {
                        if rw_by(av, vis, xl, t1@, p.1, p.0) {
                            assert(writes_var(av, p.1, xl));
                            assert(tid_views(writers@).contains(p.1));
                            let m = choose|m: int| 0 <= m < tid_views(writers@).len() && tid_views(writers@)[m] == p.1;
                            assert(writers@[m]@ == p.1);
                        }
                        if exists|m: int| 0 <= m < a + 1 && #[trigger] rw_by(av, vis, xl, writers@[m]@, p.1, p.0) {
                            let m = choose|m: int| 0 <= m < a + 1 && #[trigger] rw_by(av, vis, xl, writers@[m]@, p.1, p.0);
                            if m == a {
                                assert(rw_by(av, vis, xl, t1@, p.1, p.0));
                            }
                        }
                    }
                }
                a = a + 1;
            }
            proof {
                assert forall|p: ((u64, u64), (u64, u64))| edge_set(rw_x.view()).contains(p) <==> #[trigger] rw_rel_of(av, vis, xl).contains(p) by {
                    if rw_rel_of(av, vis, xl).contains(p) {
                        let t1 = choose|t1: (u64, u64)| #[trigger] rw_by(av, vis, xl, t1, p.1, p.0);
                        assert(writes_var(av, t1, xl));
                        assert(tid_views(writers@).contains(t1));
                        let m = choose|m: int| 0 <= m < tid_views(writers@).len() && tid_views(writers@)[m] == t1;
                        assert(writers@[m]@ == t1);
                    }
                }
                assert(edge_set(rw_x.view()) =~= rw_rel_of(av, vis, xl));
            }
            let ghost o0 = out@;
            let ghost wv = rw_x.view();
            out.push((x.copy_label(), rw_x));
            proof {
                assert forall|k: int| 0 <= k < i + 1 implies edge_set(#[trigger] out@[k].1.view())
                    == rw_rel_of(av, vis, self.write_read_relation@[k].0.label()) by {
                    if k < i {
                        assert(out@[k] == o0[k]);
                        assert(edge_set(o0[k].1.view()) == rw_rel_of(av, vis, self.write_read_relation@[k].0.label()));
                    } else {
                        assert(out@[k].1.view() == wv);
                    }
                }
            }
            i = i + 1;
        }
        out
    }
}

} // verus!
