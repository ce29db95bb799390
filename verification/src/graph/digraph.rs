//! Directed graphs over transaction identifiers, backed by an adjacency table.
use vstd::prelude::*;
use vstd::set_lib::*;

use crate::collections::{adj_clone, adj_eq, tid_set_contains, tid_set_contents, tid_set_elements, tid_set_insert, tid_set_new, TidSet, key_table_contents, key_table_get, key_table_insert, key_table_new, KeyTable, adj_add_key, adj_contains, adj_contents, adj_has_key, adj_insert, adj_keys, adj_len, adj_new, adj_succ, adj_successors, AdjMap};
use crate::history::atomic::types::TransactionId;

verus! {

broadcast use vstd::set_lib::group_set_lib_default, vstd::set::group_set_axioms, vstd::seq_lib::group_seq_properties,
    vstd::seq_lib::group_seq_lib_default, Seq::lemma_push_to_set_commute;

/// The mathematical view of a graph: each vertex with its successor set.
pub type GraphView = Map<(u64, u64), Set<(u64, u64)>>;

/// An edge of the graph: `a` is a vertex and `b` one of its successors.
pub open spec fn has_edge_spec(g: GraphView, a: (u64, u64), b: (u64, u64)) -> bool {
    g.dom().contains(a) && g[a].contains(b)
}

/// All edges of the graph, as pairs.
pub open spec fn edge_set(g: GraphView) -> Set<((u64, u64), (u64, u64))> {
    Set::new(|e: ((u64, u64), (u64, u64))| has_edge_spec(g, e.0, e.1))
}

/// Every vertex that occurs in the graph: the keys and every successor.
pub open spec fn all_vertices(g: GraphView) -> Set<(u64, u64)> {
    Set::new(|v: (u64, u64)| g.dom().contains(v) || exists|a: (u64, u64)| #[trigger] has_edge_spec(g, a, v))
}

/// Every successor of a vertex is a vertex itself.
pub open spec fn successors_closed(g: GraphView) -> bool {
    forall|a: (u64, u64), b: (u64, u64)| #[trigger] has_edge_spec(g, a, b) ==> g.dom().contains(b)
}

/// A relation is transitive.
pub open spec fn is_transitive(r: Set<((u64, u64), (u64, u64))>) -> bool {
    forall|a: (u64, u64), b: (u64, u64), c: (u64, u64)|
        #![trigger r.contains((a, b)), r.contains((b, c))]
        r.contains((a, b)) && r.contains((b, c)) ==> r.contains((a, c))
}

/// `b` is reachable from `a` through `r`: `(a, b)` lies in every transitive
/// relation that contains `r`.
pub open spec fn reaches(r: Set<((u64, u64), (u64, u64))>, a: (u64, u64), b: (u64, u64)) -> bool {
    forall|t: Set<((u64, u64), (u64, u64))>| #[trigger] r.subset_of(t) && is_transitive(t) ==> t.contains((a, b))
}

/// `rank` strictly increases along every edge.
pub open spec fn is_ranking(g: GraphView, rank: spec_fn((u64, u64)) -> int) -> bool {
    forall|a: (u64, u64), b: (u64, u64)| #[trigger] has_edge_spec(g, a, b) ==> rank(a) < rank(b)
}

/// The graph has no cycle: some ranking of its vertices increases along every edge.
pub open spec fn is_acyclic_spec(g: GraphView) -> bool {
    exists|rank: spec_fn((u64, u64)) -> int| is_ranking(g, rank)
}

/// Some ranking of the vertices increases along every pair of the relation.
pub open spec fn acyclic_rel(r: Set<((u64, u64), (u64, u64))>) -> bool {
    exists|rank: spec_fn((u64, u64)) -> int| #[trigger] ranks_rel(r, rank)
}

/// `rank` increases along every pair of the relation.
pub open spec fn ranks_rel(r: Set<((u64, u64), (u64, u64))>, rank: spec_fn((u64, u64)) -> int) -> bool {
    forall|a: (u64, u64), b: (u64, u64)| #[trigger] r.contains((a, b)) ==> rank(a) < rank(b)
}

/// A graph is acyclic exactly when its edge relation is.
pub proof fn lemma_acyclic_edge_set(g: GraphView)
    ensures
        is_acyclic_spec(g) <==> acyclic_rel(edge_set(g)),
{
    if is_acyclic_spec(g) {
        let rank = choose|rank: spec_fn((u64, u64)) -> int| is_ranking(g, rank);
        assert forall|a: (u64, u64), b: (u64, u64)| #[trigger] edge_set(g).contains((a, b)) implies rank(a) < rank(b) by {
            assert(has_edge_spec(g, a, b));
        }
        assert(ranks_rel(edge_set(g), rank));
    }
    if acyclic_rel(edge_set(g)) {
        let rank = choose|rank: spec_fn((u64, u64)) -> int| ranks_rel(edge_set(g), rank);
        assert forall|a: (u64, u64), b: (u64, u64)| #[trigger] has_edge_spec(g, a, b) implies rank(a) < rank(b) by {
            assert(edge_set(g).contains((a, b)));
        }
        assert(is_ranking(g, rank));
    }
}

/// The pairs of views of a list of edges.
pub open spec fn edge_pairs(s: Seq<(TransactionId, TransactionId)>) -> Seq<((u64, u64), (u64, u64))> {
    s.map_values(|e: (TransactionId, TransactionId)| (e.0@, e.1@))
}

/// The views of a list of transaction identifiers.
pub open spec fn tid_views(s: Seq<TransactionId>) -> Seq<(u64, u64)> {
    s.map_values(|t: TransactionId| t@)
}

/// An edge of a relation is reachable through it.
pub proof fn lemma_edge_reaches(r: Set<((u64, u64), (u64, u64))>, a: (u64, u64), b: (u64, u64))
    requires
        r.contains((a, b)),
    ensures
        reaches(r, a, b),
{
    assert forall|t: Set<((u64, u64), (u64, u64))>| #[trigger] r.subset_of(t) && is_transitive(t) implies t.contains((a, b)) by {
        assert(r.contains((a, b)));
    }
}

/// Reachability composes.
pub proof fn lemma_reaches_trans(r: Set<((u64, u64), (u64, u64))>, a: (u64, u64), b: (u64, u64), c: (u64, u64))
    requires
        reaches(r, a, b),
        reaches(r, b, c),
    ensures
        reaches(r, a, c),
{
    assert forall|t: Set<((u64, u64), (u64, u64))>| #[trigger] r.subset_of(t) && is_transitive(t) implies t.contains((a, c)) by {
        assert(t.contains((a, b)));
        assert(t.contains((b, c)));
    }
}

/// A transitive relation holds every pair that is reachable through it.
pub proof fn lemma_reaches_in_transitive(r: Set<((u64, u64), (u64, u64))>, a: (u64, u64), b: (u64, u64))
    requires
        reaches(r, a, b),
        is_transitive(r),
    ensures
        r.contains((a, b)),
{
    assert(r.subset_of(r));
}

/// The vertices of `g` with an edge into `v` that are not in `done`.
pub open spec fn pending_preds(g: GraphView, v: (u64, u64), done: Set<(u64, u64)>) -> Set<(u64, u64)> {
    Set::new(|u: (u64, u64)| has_edge_spec(g, u, v) && !done.contains(u))
}

/// A finite non-empty set has an element of least rank.
pub proof fn lemma_min_rank(s: Set<(u64, u64)>, rank: spec_fn((u64, u64)) -> int) -> (m: (u64, u64))
    requires
        s.finite(),
        !s.is_empty(),
    ensures
        s.contains(m),
        forall|u: (u64, u64)| s.contains(u) ==> rank(m) <= rank(u),
    decreases s.len(),
{
    let x = s.choose();
    assert(s.contains(x));
    let rest = s.remove(x);
    if rest.is_empty() {
        assert forall|u: (u64, u64)| s.contains(u) implies rank(x) <= rank(u) by {
            if u != x {
                assert(rest.contains(u));
            }
        }
        x
    } else {
        let y = lemma_min_rank(rest, rank);
        if rank(x) <= rank(y) {
            assert forall|u: (u64, u64)| s.contains(u) implies rank(x) <= rank(u) by {
                if u != x {
                    assert(rest.contains(u));
                }
            }
            x
        } else {
            assert forall|u: (u64, u64)| s.contains(u) implies rank(y) <= rank(u) by {
                if u != x {
                    assert(rest.contains(u));
                }
            }
            y
        }
    }
}

/// If every vertex left out of `done` has an edge into it from another vertex
/// left out, the graph has a cycle.
pub proof fn lemma_leftover_cyclic(g: GraphView, done: Set<(u64, u64)>, left: Set<(u64, u64)>)
    requires
        left.finite(),
        !left.is_empty(),
        forall|v: (u64, u64)| #[trigger] left.contains(v) ==> exists|u: (u64, u64)| has_edge_spec(g, u, v) && left.contains(u),
    ensures
        !is_acyclic_spec(g),
{
    if is_acyclic_spec(g) {
        let rank = choose|rank: spec_fn((u64, u64)) -> int| is_ranking(g, rank);
        let m = lemma_min_rank(left, rank);
        let u = choose|u: (u64, u64)| has_edge_spec(g, u, m) && left.contains(u);
        assert(rank(u) < rank(m));
    }
}

/// In a graph whose successors are vertices, every vertex that occurs is a key.
pub proof fn lemma_closed_all_vertices(g: GraphView)
    requires
        successors_closed(g),
    ensures
        all_vertices(g) == g.dom(),
{
    assert forall|v: (u64, u64)| all_vertices(g).contains(v) implies g.dom().contains(v) by {
        if !g.dom().contains(v) {
            let a = choose|a: (u64, u64)| #[trigger] has_edge_spec(g, a, v);
        }
    }
    assert(all_vertices(g) =~= g.dom());
}

/// What is reachable through a relation whose every pair is reachable through
/// `b` is reachable through `b`.
pub proof fn lemma_reaches_through(e: Set<((u64, u64), (u64, u64))>, b: Set<((u64, u64), (u64, u64))>, x: (u64, u64), y: (u64, u64))
    requires
        reaches(e, x, y),
        forall|p: ((u64, u64), (u64, u64))| #[trigger] e.contains(p) ==> reaches(b, p.0, p.1),
    ensures
        reaches(b, x, y),
{
    assert forall|t: Set<((u64, u64), (u64, u64))>| #[trigger] b.subset_of(t) && is_transitive(t) implies t.contains((x, y)) by {
        assert(e.subset_of(t)) by {
            assert forall|p: ((u64, u64), (u64, u64))| e.contains(p) implies t.contains(p) by {
                assert(reaches(b, p.0, p.1));
            }
        }
    }
}

/// The pairs from a set of sources to a set of targets.
pub open spec fn product(a: Set<(u64, u64)>, d: Set<(u64, u64)>) -> Set<((u64, u64), (u64, u64))> {
    Set::new(|p: ((u64, u64), (u64, u64))| a.contains(p.0) && d.contains(p.1))
}

/// Adding every pair from a predecessor-closed set to a successor-closed set
/// keeps a transitive relation transitive.
pub proof fn lemma_product_transitive(e: Set<((u64, u64), (u64, u64))>, a: Set<(u64, u64)>, d: Set<(u64, u64)>)
    requires
        is_transitive(e),
        forall|x: (u64, u64), y: (u64, u64)| #[trigger] e.contains((x, y)) && a.contains(y) ==> a.contains(x),
        forall|x: (u64, u64), y: (u64, u64)| #[trigger] e.contains((x, y)) && d.contains(x) ==> d.contains(y),
    ensures
        is_transitive(e.union(product(a, d))),
{
    let u = e.union(product(a, d));
    assert forall|x: (u64, u64), y: (u64, u64), z: (u64, u64)|
        #![trigger u.contains((x, y)), u.contains((y, z))]
        u.contains((x, y)) && u.contains((y, z)) implies u.contains((x, z)) by {
        if e.contains((x, y)) && e.contains((y, z)) {
        } else if e.contains((x, y)) {
            assert(a.contains(y));
            assert(a.contains(x));
            assert(product(a, d).contains((x, z)));
        } else if e.contains((y, z)) {
            assert(d.contains(y));
            assert(d.contains(z));
            assert(product(a, d).contains((x, z)));
        } else {
            assert(product(a, d).contains((x, z)));
        }
    }
}

/// Directed graph backed by an adjacency table.
///
/// Each vertex maps to the set of its outgoing neighbors. Vertices are added
/// implicitly when they appear in an edge, or explicitly with
/// [`add_vertex`](Self::add_vertex). Self-loops are permitted.
#[derive(Debug)]
pub struct DiGraph {
    adj_map: AdjMap,
}

impl DiGraph {
    /// The graph as a map from each vertex to its successor set.
    pub closed spec fn view(&self) -> GraphView {
        adj_contents(self.adj_map)
    }

    /// A graph with no vertex.
    pub fn new() -> (g: Self)
        ensures
            g.view().dom().is_empty(),
    {
        DiGraph { adj_map: adj_new() }
    }

    /// Inserts a directed edge from `source` to `target`; both become vertices.
    pub fn add_edge(&mut self, source: TransactionId, target: TransactionId)
        ensures
            final(self).view().dom() == old(self).view().dom().insert(source@).insert(target@),
            edge_set(final(self).view()) == edge_set(old(self).view()).insert((source@, target@)),
    {
        let ghost g0 = self.view();
        adj_insert(&mut self.adj_map, source.to_pair(), target.to_pair());
        adj_add_key(&mut self.adj_map, target.to_pair());
        let ghost g1 = self.view();
        assert(g1.dom() =~= g0.dom().insert(source@).insert(target@));
        assert(edge_set(g1) =~= edge_set(g0).insert((source@, target@)));
    }

    /// Inserts directed edges from `source` to every vertex in `targets`;
    /// the source and every target become vertices.
    pub fn add_edges(&mut self, source: TransactionId, targets: &[TransactionId])
        ensures
            final(self).view().dom() == old(self).view().dom().insert(source@).union(tid_views(targets@).to_set()),
            forall|a: (u64, u64), b: (u64, u64)|
                #[trigger] has_edge_spec(final(self).view(), a, b) <==> has_edge_spec(old(self).view(), a, b)
                    || (a == source@ && tid_views(targets@).contains(b)),
    {
        let ghost g0 = self.view();
        adj_add_key(&mut self.adj_map, source.to_pair());
        assert(self.view().dom() =~= g0.dom().insert(source@).union(tid_views(targets@.subrange(0, 0)).to_set()));
        let mut i: usize = 0;
        while i < targets.len()
            invariant
                0 <= i <= targets.len(),
                self.view().dom() == g0.dom().insert(source@).union(tid_views(targets@.subrange(0, i as int)).to_set()),
                forall|a: (u64, u64), b: (u64, u64)|
                    #[trigger] has_edge_spec(self.view(), a, b) <==> has_edge_spec(g0, a, b)
                        || (a == source@ && tid_views(targets@.subrange(0, i as int)).contains(b)),
            decreases targets.len() - i,
        {
            let ghost gi = self.view();
            adj_insert(&mut self.adj_map, source.to_pair(), targets[i].to_pair());
            let ghost gm = self.view();
            adj_add_key(&mut self.adj_map, targets[i].to_pair());
            let ghost tv0 = tid_views(targets@.subrange(0, i as int));
            let ghost tv1 = tid_views(targets@.subrange(0, i + 1));
            assert(tv1 =~= tv0.push(targets@[i as int]@));
            assert(tv1.to_set() =~= tv0.to_set().insert(targets@[i as int]@)) by {
                assert forall|b: (u64, u64)| tv1.to_set().contains(b) <==> tv0.to_set().contains(b) || b == targets@[i as int]@ by {
                    if tv0.contains(b) {
                        let j = choose|j: int| 0 <= j < tv0.len() && tv0[j] == b;
                        assert(tv1[j] == b);
                    }
                    if b == targets@[i as int]@ {
                        assert(tv1[tv0.len() as int] == b);
                    }
                    if tv1.contains(b) {
                        let j = choose|j: int| 0 <= j < tv1.len() && tv1[j] == b;
                        if j < tv0.len() {
                            assert(tv0[j] == b);
                        }
                    }
                }
            }
            assert(self.view().dom() =~= g0.dom().insert(source@).union(tv1.to_set()));
            assert forall|a: (u64, u64), b: (u64, u64)|
                #[trigger] has_edge_spec(self.view(), a, b) <==> has_edge_spec(g0, a, b)
                    || (a == source@ && tv1.contains(b)) by {
                assert(has_edge_spec(gm, a, b) <==> has_edge_spec(gi, a, b) || (a == source@ && b == targets@[i as int]@));
                assert(has_edge_spec(self.view(), a, b) == has_edge_spec(gm, a, b));
                if tv0.contains(b) {
                    let j = choose|j: int| 0 <= j < tv0.len() && tv0[j] == b;
                    assert(tv1[j] == b);
                }
                if b == targets@[i as int]@ {
                    assert(tv1[tv0.len() as int] == b);
                }
                if tv1.contains(b) {
                    let j = choose|j: int| 0 <= j < tv1.len() && tv1[j] == b;
                    if j < tv0.len() {
                        assert(tv0[j] == b);
                    }
                }
            }
            i = i + 1;
        }
        assert(targets@.subrange(0, targets.len() as int) =~= targets@);
    }

    /// Adds a vertex with no outgoing edges, if it is not a vertex already.
    pub fn add_vertex(&mut self, source: TransactionId)
        ensures
            final(self).view().dom() == old(self).view().dom().insert(source@),
            edge_set(final(self).view()) == edge_set(old(self).view()),
    {
        let ghost g0 = self.view();
        adj_add_key(&mut self.adj_map, source.to_pair());
        assert(self.view().dom() =~= g0.dom().insert(source@));
        assert(edge_set(self.view()) =~= edge_set(g0));
    }

    /// Returns `true` if an edge from `source` to `target` exists.
    pub fn has_edge(&self, source: &TransactionId, target: &TransactionId) -> (r: bool)
        ensures
            r == has_edge_spec(self.view(), source@, target@),
    {
        adj_contains(&self.adj_map, source.to_pair(), target.to_pair())
    }

    /// Returns `true` if `v` is a vertex.
    pub fn has_vertex(&self, v: &TransactionId) -> (r: bool)
        ensures
            r == self.view().dom().contains(v@),
    {
        adj_has_key(&self.adj_map, v.to_pair())
    }

    /// The vertices, each exactly once.
    pub fn vertices(&self) -> (r: Vec<TransactionId>)
        ensures
            tid_views(r@).no_duplicates(),
            tid_views(r@).to_set() == self.view().dom(),
    {
        let keys = adj_keys(&self.adj_map);
        let mut out: Vec<TransactionId> = Vec::new();
        let mut i: usize = 0;
        while i < keys.len()
            invariant
                0 <= i <= keys.len(),
                keys@.no_duplicates(),
                tid_views(out@) == keys@.subrange(0, i as int),
            decreases keys.len() - i,
        {
            let ghost o0 = out@;
            let t = TransactionId::from_pair(keys[i]);
            out.push(t);
            assert(out@ =~= o0.push(t));
            assert(tid_views(out@) =~= tid_views(o0).push(t@));
            assert(keys@.subrange(0, i + 1) =~= keys@.subrange(0, i as int).push(keys@[i as int]));
            i = i + 1;
        }
        assert(keys@.subrange(0, keys.len() as int) =~= keys@);
        out
    }

    /// The successors of `v`, each exactly once; none where `v` is no vertex.
    pub fn successors(&self, v: &TransactionId) -> (r: Vec<TransactionId>)
        ensures
            tid_views(r@).no_duplicates(),
            tid_views(r@).to_set() == adj_succ(self.view(), v@),
    {
        let succ = adj_successors(&self.adj_map, v.to_pair());
        let mut out: Vec<TransactionId> = Vec::new();
        let mut i: usize = 0;
        while i < succ.len()
            invariant
                0 <= i <= succ.len(),
                tid_views(out@) == succ@.subrange(0, i as int),
            decreases succ.len() - i,
        {
            let ghost o0 = out@;
            let t = TransactionId::from_pair(succ[i]);
            out.push(t);
            assert(out@ =~= o0.push(t));
            assert(tid_views(out@) =~= tid_views(o0).push(t@));
            assert(succ@.subrange(0, i + 1) =~= succ@.subrange(0, i as int).push(succ@[i as int]));
            i = i + 1;
        }
        assert(succ@.subrange(0, succ.len() as int) =~= succ@);
        out
    }
    /// Merges all edges (and vertices) of `other` into this graph.
    ///
    /// Returns `true` if any new edge was added.
    pub fn union(&mut self, other: &Self) -> (r: bool)
        ensures
            final(self).view().dom() == old(self).view().dom().union(other.view().dom()),
            edge_set(final(self).view()) == edge_set(old(self).view()).union(edge_set(other.view())),
            r == !edge_set(other.view()).subset_of(edge_set(old(self).view())),
    {
        let ghost g0 = self.view();
        let ghost go = other.view();
        let keys = adj_keys(&other.adj_map);
        let mut change = false;
        let mut i: usize = 0;
        while i < keys.len()
            invariant
                0 <= i <= keys.len(),
                keys@.no_duplicates(),
                keys@.to_set() == go.dom(),
                go == other.view(),
                self.view().dom() == g0.dom().union(keys@.subrange(0, i as int).to_set()),
                forall|a: (u64, u64), b: (u64, u64)|
                    #[trigger] has_edge_spec(self.view(), a, b) <==> has_edge_spec(g0, a, b)
                        || (keys@.subrange(0, i as int).contains(a) && has_edge_spec(go, a, b)),
                change == exists|a: (u64, u64), b: (u64, u64)|
                    #[trigger] has_edge_spec(go, a, b) && keys@.subrange(0, i as int).contains(a) && !has_edge_spec(g0, a, b),
            decreases keys.len() - i,
        {
            let src = keys[i];
            let ghost before = self.view();
            let ghost done = keys@.subrange(0, i as int);
            assert(!done.contains(src));
            adj_add_key(&mut self.adj_map, src);
            let succ = adj_successors(&other.adj_map, src);
            let ghost mid = self.view();
            assert forall|a: (u64, u64), b: (u64, u64)| #[trigger] has_edge_spec(mid, a, b) <==> has_edge_spec(before, a, b) by {}
            let mut j: usize = 0;
            while j < succ.len()
                invariant
                    0 <= j <= succ.len(),
                    succ@.no_duplicates(),
                    succ@.to_set() == adj_succ(go, src),
                    !done.contains(src),
                    self.view().dom() == mid.dom(),
                    mid.dom().contains(src),
                    forall|a: (u64, u64), b: (u64, u64)|
                        #[trigger] has_edge_spec(self.view(), a, b) <==> has_edge_spec(before, a, b)
                            || (a == src && succ@.subrange(0, j as int).contains(b)),
                    forall|a: (u64, u64), b: (u64, u64)|
                        #[trigger] has_edge_spec(before, a, b) <==> has_edge_spec(g0, a, b)
                            || (done.contains(a) && has_edge_spec(go, a, b)),
                    change == (
                        (exists|a: (u64, u64), b: (u64, u64)|
                            #[trigger] has_edge_spec(go, a, b) && done.contains(a) && !has_edge_spec(g0, a, b))
                        || (exists|b: (u64, u64)| succ@.subrange(0, j as int).contains(b) && !has_edge_spec(g0, src, b))),
                decreases succ.len() - j,
            {
                let ghost sv = self.view();
                let dst = succ[j];
                assert(succ@.subrange(0, j + 1) =~= succ@.subrange(0, j as int).push(dst));
                assert(!succ@.subrange(0, j as int).contains(dst));
                assert(has_edge_spec(sv, src, dst) <==> has_edge_spec(g0, src, dst));
                let added = adj_insert(&mut self.adj_map, src, dst);
                assert(added == !has_edge_spec(sv, src, dst));
                if added {
                    change = true;
                }
                assert(self.view().dom() =~= mid.dom());
                assert forall|a: (u64, u64), b: (u64, u64)|
                    #[trigger] has_edge_spec(self.view(), a, b) <==> has_edge_spec(before, a, b)
                        || (a == src && succ@.subrange(0, j + 1).contains(b)) by {
                    assert(has_edge_spec(self.view(), a, b) <==> has_edge_spec(sv, a, b) || (a == src && b == dst));
                }
                j = j + 1;
            }
            assert(succ@.subrange(0, succ.len() as int) =~= succ@);
            let ghost done1 = keys@.subrange(0, i + 1);
            assert(done1 =~= done.push(src));
            assert(self.view().dom() =~= g0.dom().union(done1.to_set()));
            assert forall|a: (u64, u64), b: (u64, u64)|
                #[trigger] has_edge_spec(self.view(), a, b) <==> has_edge_spec(g0, a, b)
                    || (done1.contains(a) && has_edge_spec(go, a, b)) by {
                if a == src && succ@.contains(b) {
                    assert(adj_succ(go, src).contains(b));
                }
                if a == src && has_edge_spec(go, a, b) {
                    assert(succ@.to_set().contains(b));
                }
            }
            proof {
                if change {
                    if exists|b: (u64, u64)| succ@.contains(b) && !has_edge_spec(g0, src, b) {
                        let b = choose|b: (u64, u64)| succ@.contains(b) && !has_edge_spec(g0, src, b);
                        assert(succ@.to_set().contains(b));
                        assert(has_edge_spec(go, src, b) && done1.contains(src) && !has_edge_spec(g0, src, b));
                    } else {
                        let (a, b) = choose|a: (u64, u64), b: (u64, u64)|
                            #[trigger] has_edge_spec(go, a, b) && done.contains(a) && !has_edge_spec(g0, a, b);
                        assert(has_edge_spec(go, a, b) && done1.contains(a) && !has_edge_spec(g0, a, b));
                    }
                } else {
                    assert forall|a: (u64, u64), b: (u64, u64)|
                        #[trigger] has_edge_spec(go, a, b) && done1.contains(a) implies has_edge_spec(g0, a, b) by {
                        if a == src {
                            assert(succ@.to_set().contains(b));
                            assert(succ@.contains(b));
                        }
                    }
                }
            }
            i = i + 1;
        }
        assert(keys@.subrange(0, keys.len() as int) =~= keys@);
        assert(self.view().dom() =~= g0.dom().union(go.dom()));
        assert(edge_set(self.view()) =~= edge_set(g0).union(edge_set(go)));
        proof {
            if change {
                let (a, b) = choose|a: (u64, u64), b: (u64, u64)|
                    #[trigger] has_edge_spec(go, a, b) && keys@.contains(a) && !has_edge_spec(g0, a, b);
                assert(edge_set(go).contains((a, b)) && !edge_set(g0).contains((a, b)));
            } else {
                assert(edge_set(go).subset_of(edge_set(g0)));
            }
        }
        change
    }

    /// Returns all edges as a list of `(source, target)` pairs, each exactly once.
    pub fn to_edge_list(&self) -> (r: Vec<(TransactionId, TransactionId)>)
        ensures
            edge_pairs(r@).no_duplicates(),
            edge_pairs(r@).to_set() == edge_set(self.view()),
    {
        let ghost g = self.view();
        let keys = adj_keys(&self.adj_map);
        let mut edges: Vec<(TransactionId, TransactionId)> = Vec::new();
        let mut i: usize = 0;
        while i < keys.len()
            invariant
                0 <= i <= keys.len(),
                keys@.no_duplicates(),
                keys@.to_set() == g.dom(),
                g == self.view(),
                edge_pairs(edges@).no_duplicates(),
                forall|e: ((u64, u64), (u64, u64))|
                    #[trigger] edge_pairs(edges@).contains(e) <==> has_edge_spec(g, e.0, e.1) && keys@.subrange(0, i as int).contains(e.0),
            decreases keys.len() - i,
        {
            let src = keys[i];
            let ghost done = keys@.subrange(0, i as int);
            assert(!done.contains(src));
            let succ = adj_successors(&self.adj_map, src);
            let mut j: usize = 0;
            while j < succ.len()
                invariant
                    0 <= j <= succ.len(),
                    succ@.no_duplicates(),
                    succ@.to_set() == adj_succ(g, src),
                    g.dom().contains(src),
                    !done.contains(src),
                    edge_pairs(edges@).no_duplicates(),
                    forall|e: ((u64, u64), (u64, u64))|
                        #[trigger] edge_pairs(edges@).contains(e) <==> (has_edge_spec(g, e.0, e.1) && done.contains(e.0))
                            || (e.0 == src && succ@.subrange(0, j as int).contains(e.1)),
                decreases succ.len() - j,
            {
                let ghost e0 = edges@;
                let dst = succ[j];
                assert(succ@.subrange(0, j + 1) =~= succ@.subrange(0, j as int).push(dst));
                assert(!succ@.subrange(0, j as int).contains(dst));
                let item = (TransactionId::from_pair(src), TransactionId::from_pair(dst));
                edges.push(item);
                assert(edges@ =~= e0.push(item));
                assert(edge_pairs(edges@) =~= edge_pairs(e0).push((src, dst)));
                assert(!edge_pairs(e0).contains((src, dst)));
                j = j + 1;
            }
            assert(succ@.subrange(0, succ.len() as int) =~= succ@);
            assert(keys@.subrange(0, i + 1) =~= done.push(src));
            assert forall|e: ((u64, u64), (u64, u64))|
                #[trigger] edge_pairs(edges@).contains(e) <==> has_edge_spec(g, e.0, e.1) && keys@.subrange(0, i + 1).contains(e.0) by {
                if e.0 == src && has_edge_spec(g, e.0, e.1) {
                    assert(succ@.to_set().contains(e.1));
                }
                if e.0 == src && succ@.contains(e.1) {
                    assert(adj_succ(g, src).contains(e.1));
                }
            }
            i = i + 1;
        }
        assert(keys@.subrange(0, keys.len() as int) =~= keys@);
        assert(edge_pairs(edges@).to_set() =~= edge_set(g));
        edges
    }

    /// Every vertex that occurs in the graph, each exactly once: the keys first,
    /// then the successors that are no keys.
    fn all_vertex_list(&self) -> (r: Vec<(u64, u64)>)
        ensures
            r@.no_duplicates(),
            r@.to_set() == all_vertices(self.view()),
    {
        let ghost g = self.view();
        let keys = adj_keys(&self.adj_map);
        let mut out: Vec<(u64, u64)> = Vec::new();
        let mut i: usize = 0;
        while i < keys.len()
            invariant
                0 <= i <= keys.len(),
                keys@.no_duplicates(),
                keys@.to_set() == g.dom(),
                g == self.view(),
                out@ == keys@.subrange(0, i as int),
            decreases keys.len() - i,
        {
            out.push(keys[i]);
            assert(keys@.subrange(0, i + 1) =~= keys@.subrange(0, i as int).push(keys@[i as int]));
            i = i + 1;
        }
        assert(keys@.subrange(0, keys.len() as int) =~= keys@);
        let mut i: usize = 0;
        while i < keys.len()
            invariant
                0 <= i <= keys.len(),
                keys@.to_set() == g.dom(),
                g == self.view(),
                out@.no_duplicates(),
                forall|v: (u64, u64)| #[trigger] out@.contains(v) <==> g.dom().contains(v)
                    || exists|a: (u64, u64)| #[trigger] keys@.subrange(0, i as int).contains(a) && has_edge_spec(g, a, v),
            decreases keys.len() - i,
        {
            let src = keys[i];
            let succ = adj_successors(&self.adj_map, src);
            let ghost done = keys@.subrange(0, i as int);
            let mut j: usize = 0;
            while j < succ.len()
                invariant
                    0 <= j <= succ.len(),
                    g == self.view(),
                    succ@.to_set() == adj_succ(g, src),
                    g.dom().contains(src),
                    out@.no_duplicates(),
                    forall|v: (u64, u64)| #[trigger] out@.contains(v) <==> g.dom().contains(v)
                        || (exists|a: (u64, u64)| #[trigger] done.contains(a) && has_edge_spec(g, a, v))
                        || succ@.subrange(0, j as int).contains(v),
                decreases succ.len() - j,
            {
                let n = succ[j];
                let ghost out0 = out@;
                assert(succ@.subrange(0, j + 1) =~= succ@.subrange(0, j as int).push(n));
                assert(forall|w: (u64, u64)| #[trigger] succ@.subrange(0, j + 1).contains(w) <==> succ@.subrange(0, j as int).contains(w) || w == n);
                if !adj_has_key(&self.adj_map, n) {
                    let mut present = false;
                    let mut k: usize = 0;
                    while k < out.len()
                        invariant
                            0 <= k <= out.len(),
                            present == out@.subrange(0, k as int).contains(n),
                        decreases out.len() - k,
                    {
                        assert(out@.subrange(0, k + 1) =~= out@.subrange(0, k as int).push(out@[k as int]));
                        if out[k].0 == n.0 && out[k].1 == n.1 {
                            present = true;
                        }
                        k = k + 1;
                    }
                    assert(out@.subrange(0, out.len() as int) =~= out@);
                    if !present {
                        out.push(n);
                        assert(out@ =~= out0.push(n));
                        assert(forall|w: (u64, u64)| #[trigger] out@.contains(w) <==> out0.contains(w) || w == n);
                    } else {
                        assert(out@ == out0);
                        assert(out0.contains(n));
                    }
                } else {
                    assert(out@ == out0);
                    assert(g.dom().contains(n));
                    assert(out0.contains(n));
                }
                assert(forall|w: (u64, u64)| #[trigger] out@.contains(w) <==> out0.contains(w) || w == n);
                j = j + 1;
            }
            assert(succ@.subrange(0, succ.len() as int) =~= succ@);
            assert(keys@.subrange(0, i + 1) =~= done.push(src));
            assert forall|v: (u64, u64)| #[trigger] out@.contains(v) <==> g.dom().contains(v)
                || exists|a: (u64, u64)| #[trigger] keys@.subrange(0, i + 1).contains(a) && has_edge_spec(g, a, v) by {
                assert(forall|a: (u64, u64)| #[trigger] keys@.subrange(0, i + 1).contains(a) <==> done.contains(a) || a == src);
                if succ@.contains(v) {
                    assert(adj_succ(g, src).contains(v));
                    assert(keys@.subrange(0, i + 1).contains(src) && has_edge_spec(g, src, v));
                }
                if exists|a: (u64, u64)| #[trigger] done.contains(a) && has_edge_spec(g, a, v) {
                    let a = choose|a: (u64, u64)| #[trigger] done.contains(a) && has_edge_spec(g, a, v);
                    assert(keys@.subrange(0, i + 1).contains(a) && has_edge_spec(g, a, v));
                }
                if exists|a: (u64, u64)| #[trigger] keys@.subrange(0, i + 1).contains(a) && has_edge_spec(g, a, v) {
                    let a = choose|a: (u64, u64)| #[trigger] keys@.subrange(0, i + 1).contains(a) && has_edge_spec(g, a, v);
                    if a == src {
                        assert(succ@.to_set().contains(v));
                        assert(succ@.contains(v));
                        assert(succ@.subrange(0, succ.len() as int).contains(v));
                    } else {
                        assert(done.contains(a));
                    }
                    assert(out@.contains(v));
                }
            }
            i = i + 1;
        }
        assert(keys@.subrange(0, keys.len() as int) =~= keys@);
        assert forall|v: (u64, u64)| #[trigger] out@.to_set().contains(v) <==> all_vertices(g).contains(v) by {
            if exists|a: (u64, u64)| #[trigger] has_edge_spec(g, a, v) {
                let a = choose|a: (u64, u64)| #[trigger] has_edge_spec(g, a, v);
                assert(keys@.to_set().contains(a));
                assert(keys@.contains(a));
            }
        }
        assert(out@.to_set() =~= all_vertices(g));
        out
    }

    /// The in-degree of every vertex that occurs, keyed by `(v.0, v.1, 0)`.
    #[verifier::rlimit(40)]
    fn in_degrees(&self, vs: &Vec<(u64, u64)>) -> (deg: KeyTable)
        requires
            vs@.no_duplicates(),
            vs@.to_set() == all_vertices(self.view()),
        ensures
            forall|v: (u64, u64)| #[trigger] key_table_contents(deg).dom().contains((v.0, v.1, 0u64)) <==> all_vertices(self.view()).contains(v),
            forall|v: (u64, u64)| #[trigger] all_vertices(self.view()).contains(v) ==>
                key_table_contents(deg)[(v.0, v.1, 0u64)].0 == pending_preds(self.view(), v, Set::empty()).len(),
    {
        let ghost g = self.view();
        let ghost all = all_vertices(g);
        let keys = adj_keys(&self.adj_map);
        proof {
            keys@.unique_seq_to_set();
        }
        // in-degrees of all vertices
        let mut deg = key_table_new();
        let mut i: usize = 0;
        while i < vs.len()
            invariant
                0 <= i <= vs.len(),
                vs@.to_set() == all,
                vs@.no_duplicates(),
                forall|v: (u64, u64)| #[trigger] key_table_contents(deg).dom().contains((v.0, v.1, 0u64)) <==> vs@.subrange(0, i as int).contains(v),
                forall|v: (u64, u64)| #[trigger] key_table_contents(deg).dom().contains((v.0, v.1, 0u64)) ==> key_table_contents(deg)[(v.0, v.1, 0u64)].0 == 0,
            decreases vs.len() - i,
        {
            let v = vs[i];
            let _ = key_table_insert(&mut deg, (v.0, v.1, 0), (0, 0, 0, 0));
            assert(vs@.subrange(0, i + 1) =~= vs@.subrange(0, i as int).push(v));
            i = i + 1;
        }
        assert(vs@.subrange(0, vs.len() as int) =~= vs@);
        proof {
            assert forall|v: (u64, u64)| #[trigger] key_table_contents(deg).dom().contains((v.0, v.1, 0u64)) <==> all.contains(v) by {
                assert(vs@.to_set().contains(v) <==> vs@.contains(v));
            }
            assert forall|v: (u64, u64)| #[trigger] all.contains(v) implies key_table_contents(deg)[(v.0, v.1, 0u64)].0
                == Set::new(|u: (u64, u64)| has_edge_spec(g, u, v) && keys@.subrange(0, 0).contains(u)).len() by {
                assert(vs@.to_set().contains(v) <==> vs@.contains(v));
                assert(vs@.subrange(0, vs.len() as int).contains(v));
                assert(key_table_contents(deg).dom().contains((v.0, v.1, 0u64)));
                assert(Set::new(|u: (u64, u64)| has_edge_spec(g, u, v) && keys@.subrange(0, 0).contains(u)) =~= Set::<(u64, u64)>::empty());
            }
            assert forall|v: (u64, u64)| #[trigger] all.contains(v) implies key_table_contents(deg)[(v.0, v.1, 0u64)].0 <= 0 by {
                assert(vs@.to_set().contains(v) <==> vs@.contains(v));
                assert(vs@.subrange(0, vs.len() as int).contains(v));
                assert(key_table_contents(deg).dom().contains((v.0, v.1, 0u64)));
            }
        }
        let mut i: usize = 0;
        while i < keys.len()
            invariant
                0 <= i <= keys.len(),
                keys@.no_duplicates(),
                keys@.to_set() == g.dom(),
                keys@.len() == g.dom().len(),
                g == self.view(),
                vs@.to_set() == all,
                all == all_vertices(g),
                forall|v: (u64, u64)| #[trigger] key_table_contents(deg).dom().contains((v.0, v.1, 0u64)) <==> all.contains(v),
                forall|v: (u64, u64)| #[trigger] all.contains(v) ==> key_table_contents(deg)[(v.0, v.1, 0u64)].0
                    == Set::new(|u: (u64, u64)| has_edge_spec(g, u, v) && keys@.subrange(0, i as int).contains(u)).len(),
                forall|v: (u64, u64)| #[trigger] all.contains(v) ==> key_table_contents(deg)[(v.0, v.1, 0u64)].0 <= i,
            decreases keys.len() - i,
        {
            let src = keys[i];
            let ghost done = keys@.subrange(0, i as int);
            let ghost done1 = keys@.subrange(0, i + 1);
            assert(done1 =~= done.push(src));
            assert(!done.contains(src));
            let succ = adj_successors(&self.adj_map, src);
            let mut j: usize = 0;
            while j < succ.len()
                invariant
                    0 <= j <= succ.len(),
                    i < keys.len(),
                    g == self.view(),
                    all == all_vertices(g),
                    done == keys@.subrange(0, i as int),
                    succ@.no_duplicates(),
                    succ@.to_set() == adj_succ(g, src),
                    g.dom().contains(src),
                    !done.contains(src),
                    done1 == done.push(src),
                    forall|v: (u64, u64)| #[trigger] key_table_contents(deg).dom().contains((v.0, v.1, 0u64)) <==> all.contains(v),
                    forall|v: (u64, u64)| #[trigger] all.contains(v) ==> key_table_contents(deg)[(v.0, v.1, 0u64)].0
                        == Set::new(|u: (u64, u64)| has_edge_spec(g, u, v) && done.contains(u)).len()
                            + (if succ@.subrange(0, j as int).contains(v) { 1int } else { 0int }),
                    forall|v: (u64, u64)| #[trigger] all.contains(v) ==> key_table_contents(deg)[(v.0, v.1, 0u64)].0 <= i + 1,
                decreases succ.len() - j,
            {
                let n = succ[j];
                assert(succ@.subrange(0, j + 1) =~= succ@.subrange(0, j as int).push(n));
                assert(!succ@.subrange(0, j as int).contains(n));
                assert(has_edge_spec(g, src, n));
                assert(all.contains(n));
                let cur = key_table_get(&deg, (n.0, n.1, 0));
                let c = match cur {
                    Some(q) => q.0,
                    None => 0,
                };
                proof {
                    let pn = Set::new(|u: (u64, u64)| has_edge_spec(g, u, n) && done.contains(u));
                    assert(pn.subset_of(done.to_set()));
                    done.lemma_cardinality_of_set();
                    lemma_len_subset(pn, done.to_set());
                    assert(c as int == pn.len());
                    assert(c <= i);
                }
                let _ = key_table_insert(&mut deg, (n.0, n.1, 0), (c + 1, 0, 0, 0));
                j = j + 1;
            }
            assert(succ@.subrange(0, succ.len() as int) =~= succ@);
            assert forall|v: (u64, u64)| #[trigger] all.contains(v) implies key_table_contents(deg)[(v.0, v.1, 0u64)].0
                == Set::new(|u: (u64, u64)| has_edge_spec(g, u, v) && done1.contains(u)).len() by {
                let p0 = Set::new(|u: (u64, u64)| has_edge_spec(g, u, v) && done.contains(u));
                let p1 = Set::new(|u: (u64, u64)| has_edge_spec(g, u, v) && done1.contains(u));
                assert(p0.subset_of(done.to_set()));
                lemma_len_subset(p0, done.to_set());
                if has_edge_spec(g, src, v) {
                    assert(succ@.to_set().contains(v));
                    assert(p1 =~= p0.insert(src));
                } else {
                    assert(p1 =~= p0);
                }
            }
            i = i + 1;
        }
        assert(keys@.subrange(0, keys.len() as int) =~= keys@);
        proof {
            assert forall|v: (u64, u64)| #[trigger] all.contains(v) implies
                key_table_contents(deg)[(v.0, v.1, 0u64)].0 == pending_preds(g, v, Set::empty()).len() by {
                assert(Set::new(|u: (u64, u64)| has_edge_spec(g, u, v) && keys@.subrange(0, keys.len() as int).contains(u))
                    =~= pending_preds(g, v, Set::empty())) by {
                    assert forall|u: (u64, u64)| has_edge_spec(g, u, v) implies keys@.contains(u) by {
                        assert(keys@.to_set().contains(u));
                    }
                }
            }
        }
        deg
    }

    /// The vertices whose in-degree is zero, each exactly once.
    fn zero_in_degree(vs: &Vec<(u64, u64)>, deg: &KeyTable, Ghost(all): Ghost<Set<(u64, u64)>>) -> (queue: Vec<(u64, u64)>)
        requires
            vs@.no_duplicates(),
            vs@.to_set() == all,
            forall|v: (u64, u64)| #[trigger] key_table_contents(*deg).dom().contains((v.0, v.1, 0u64)) <==> all.contains(v),
        ensures
            queue@.no_duplicates(),
            forall|v: (u64, u64)| #[trigger] queue@.contains(v) <==> all.contains(v) && key_table_contents(*deg)[(v.0, v.1, 0u64)].0 == 0,
    {
        let mut queue: Vec<(u64, u64)> = Vec::new();
        let mut i: usize = 0;
        while i < vs.len()
            invariant
                0 <= i <= vs.len(),
                vs@.no_duplicates(),
                vs@.to_set() == all,
                forall|v: (u64, u64)| #[trigger] key_table_contents(*deg).dom().contains((v.0, v.1, 0u64)) <==> all.contains(v),
                queue@.no_duplicates(),
                forall|v: (u64, u64)| #[trigger] queue@.contains(v) <==> vs@.subrange(0, i as int).contains(v)
                    && key_table_contents(*deg)[(v.0, v.1, 0u64)].0 == 0,
            decreases vs.len() - i,
        {
            let v = vs[i];
            assert(vs@.subrange(0, i + 1) =~= vs@.subrange(0, i as int).push(v));
            assert(!vs@.subrange(0, i as int).contains(v));
            assert(vs@.to_set().contains(v));
            assert(key_table_contents(*deg).dom().contains((v.0, v.1, 0u64)));
            assert(!queue@.contains(v));
            let ghost q0 = queue@;
            let d = key_table_get(deg, (v.0, v.1, 0));
            let dv = match d {
                Some(q) => q.0,
                None => 1,
            };
            if dv == 0 {
                queue.push(v);
                assert(queue@ =~= q0.push(v));
            }
            assert forall|w: (u64, u64)| #[trigger] queue@.contains(w) <==> vs@.subrange(0, i + 1).contains(w)
                && key_table_contents(*deg)[(w.0, w.1, 0u64)].0 == 0 by {
                assert(vs@.subrange(0, i + 1).contains(w) <==> vs@.subrange(0, i as int).contains(w) || w == v);
            }
            i = i + 1;
        }
        assert(vs@.subrange(0, vs.len() as int) =~= vs@);
        proof {
            assert forall|v: (u64, u64)| #[trigger] queue@.contains(v) <==> all.contains(v) && key_table_contents(*deg)[(v.0, v.1, 0u64)].0 == 0 by {
                assert(vs@.to_set().contains(v) <==> vs@.contains(v));
            }
        }
        queue
    }

    /// Kahn's algorithm: repeatedly takes a vertex all of whose predecessors
    /// were taken. Returns the vertices taken, in order.
    #[verifier::rlimit(60)]
    fn kahn_order(&self) -> (r: Vec<(u64, u64)>)
        ensures
            r@.no_duplicates(),
            r@.to_set().subset_of(all_vertices(self.view())),
            forall|i: int, u: (u64, u64)|
                0 <= i < r@.len() && #[trigger] has_edge_spec(self.view(), u, r@[i]) ==> r@.subrange(0, i).contains(u),
            (r@.to_set() == all_vertices(self.view())) <==> is_acyclic_spec(self.view()),
            all_vertices(self.view()).finite(),
            self.view().dom().finite(),
            forall|v: (u64, u64)|
                #[trigger] all_vertices(self.view()).contains(v) && !r@.contains(v) ==> exists|u: (u64, u64)|
                    has_edge_spec(self.view(), u, v) && !r@.contains(u),
    {
        let ghost g = self.view();
        let vs = self.all_vertex_list();
        let ghost all = all_vertices(g);
        let keys = adj_keys(&self.adj_map);
        proof {
            keys@.unique_seq_to_set();
            vs@.unique_seq_to_set();
        }
        let mut deg = self.in_degrees(&vs);
        let mut queue = Self::zero_in_degree(&vs, &deg, Ghost(all));
        let mut result: Vec<(u64, u64)> = Vec::new();
        proof {
            assert(result@.to_set() =~= Set::empty());
        }
        while queue.len() > 0
            invariant
                g == self.view(),
                vs@.to_set() == all,
                vs@.len() == all.len(),
                all == all_vertices(g),
                g.dom().finite(),
                keys@.to_set() == g.dom(),
                forall|v: (u64, u64)| #[trigger] key_table_contents(deg).dom().contains((v.0, v.1, 0u64)) <==> all.contains(v),
                forall|v: (u64, u64)| #[trigger] all.contains(v) ==>
                    key_table_contents(deg)[(v.0, v.1, 0u64)].0 == pending_preds(g, v, result@.to_set()).len(),
                queue@.no_duplicates(),
                result@.no_duplicates(),
                forall|v: (u64, u64)| #[trigger] queue@.contains(v) <==> all.contains(v) && !result@.contains(v)
                    && key_table_contents(deg)[(v.0, v.1, 0u64)].0 == 0,
                forall|v: (u64, u64)| #[trigger] result@.contains(v) ==> all.contains(v),
                forall|k: int, u: (u64, u64)|
                    0 <= k < result@.len() && #[trigger] has_edge_spec(g, u, result@[k]) ==> result@.subrange(0, k).contains(u),
            decreases all.len() - result@.len(),
        {
            let ghost qb = queue@;
            let v = queue.pop().unwrap();
            let ghost r0 = result@;
            let ghost done0 = r0.to_set();
            proof {
                assert(qb[qb.len() - 1] == v);
                assert(qb.contains(v));
                assert(queue@ =~= qb.drop_last());
                assert(!queue@.contains(v)) by {
                    if queue@.contains(v) {
                        let k = choose|k: int| 0 <= k < queue@.len() && queue@[k] == v;
                        assert(qb[k] == qb[qb.len() - 1]);
                    }
                }
                assert(key_table_contents(deg)[(v.0, v.1, 0u64)].0 == 0);
                assert(all.contains(v) && !r0.contains(v));
                assert(pending_preds(g, v, done0).len() == 0);
                assert forall|u: (u64, u64)| has_edge_spec(g, u, v) implies r0.contains(u) by {
                    let pv = pending_preds(g, v, done0);
                    assert(pv.subset_of(g.dom()));
                    lemma_len_subset(pv, g.dom());
                    if !r0.contains(u) {
                        assert(pv.contains(u));
                        assert(pv.remove(u).len() == pv.len() - 1);
                    }
                }
                r0.unique_seq_to_set();
                lemma_len_subset(r0.to_set(), all);
            }
            result.push(v);
            proof {
                assert(result@ =~= r0.push(v));
                assert(result@.subrange(0, r0.len() as int) =~= r0);
                assert forall|k: int, u: (u64, u64)|
                    0 <= k < result@.len() && #[trigger] has_edge_spec(g, u, result@[k]) implies result@.subrange(0, k).contains(u) by {
                    if k < r0.len() {
                        assert(result@.subrange(0, k) =~= r0.subrange(0, k));
                    }
                }
            }
            let succ = adj_successors(&self.adj_map, v);
            let ghost done1 = result@.to_set();
            proof {
                assert(succ@.subrange(0, 0) =~= Seq::<(u64, u64)>::empty());
                assert(done1 =~= done0.insert(v));
                assert forall|w: (u64, u64)| #[trigger] queue@.contains(w) <==> all.contains(w) && !done1.contains(w)
                    && key_table_contents(deg)[(w.0, w.1, 0u64)].0 == 0
                    && (succ@.subrange(0, 0).contains(w) || pending_preds(g, w, done0).len() == 0) by {
                    assert(queue@.contains(w) <==> qb.contains(w) && w != v) by {
                        if qb.contains(w) && w != v {
                            let k = choose|k: int| 0 <= k < qb.len() && qb[k] == w;
                            assert(k != qb.len() - 1);
                            assert(queue@[k] == w);
                        }
                        if queue@.contains(w) {
                            let k = choose|k: int| 0 <= k < queue@.len() && queue@[k] == w;
                            assert(qb[k] == w);
                        }
                    }
                    assert(r0.contains(w) <==> done0.contains(w));
                }
            }
            let mut j: usize = 0;
            while j < succ.len()
                invariant
                    0 <= j <= succ.len(),
                    g == self.view(),
                    all == all_vertices(g),
                    g.dom().finite(),
                    succ@.no_duplicates(),
                    succ@.to_set() == adj_succ(g, v),
                    done1 == done0.insert(v),
                    !done0.contains(v),
                    result@ == r0.push(v),
                    result@.to_set() == done1,
                    result@.no_duplicates(),
                    forall|w: (u64, u64)| #[trigger] result@.contains(w) ==> all.contains(w),
                    forall|k: int, u: (u64, u64)|
                        0 <= k < result@.len() && #[trigger] has_edge_spec(g, u, result@[k]) ==> result@.subrange(0, k).contains(u),
                    forall|w: (u64, u64)| #[trigger] key_table_contents(deg).dom().contains((w.0, w.1, 0u64)) <==> all.contains(w),
                    forall|w: (u64, u64)| #[trigger] all.contains(w) ==>
                        key_table_contents(deg)[(w.0, w.1, 0u64)].0 == (if succ@.subrange(0, j as int).contains(w) {
                            pending_preds(g, w, done1).len()
                        } else {
                            pending_preds(g, w, done0).len()
                        }),
                    queue@.no_duplicates(),
                    forall|w: (u64, u64)| #[trigger] queue@.contains(w) <==> all.contains(w) && !done1.contains(w)
                        && key_table_contents(deg)[(w.0, w.1, 0u64)].0 == 0
                        && (succ@.subrange(0, j as int).contains(w) || pending_preds(g, w, done0).len() == 0),
                decreases succ.len() - j,
            {
                let n = succ[j];
                let ghost q0 = queue@;
                assert(succ@.subrange(0, j + 1) =~= succ@.subrange(0, j as int).push(n));
                assert(!succ@.subrange(0, j as int).contains(n));
                assert(succ@.contains(n));
                assert(succ@.to_set().contains(n));
                assert(has_edge_spec(g, v, n));
                assert(all.contains(n));
                proof {
                    let p0 = pending_preds(g, n, done0);
                    let p1 = pending_preds(g, n, done1);
                    assert(p0.subset_of(g.dom()));
                    lemma_len_subset(p0, g.dom());
                    assert(p0.contains(v));
                    assert(p1 =~= p0.remove(v));
                    if result@.contains(n) {
                        // n was taken before v, so v is among the taken vertices
                        let k = choose|k: int| 0 <= k < result@.len() && result@[k] == n;
                        assert(result@.subrange(0, k).contains(v));
                        let k2 = choose|k2: int| 0 <= k2 < k && result@.subrange(0, k)[k2] == v;
                        assert(result@[k2] == v);
                        assert(result@[result@.len() - 1] == v);
                    }
                }
                let cur = key_table_get(&deg, (n.0, n.1, 0));
                let c = match cur {
                    Some(q) => q.0,
                    None => 1,
                };
                let _ = key_table_insert(&mut deg, (n.0, n.1, 0), (c - 1, 0, 0, 0));
                if c - 1 == 0 {
                    queue.push(n);
                    proof {
                        assert(!q0.contains(n));
                        assert(queue@ =~= q0.push(n));
                    }
                }
                j = j + 1;
            }
            proof {
                assert(succ@.subrange(0, succ.len() as int) =~= succ@);
                assert forall|w: (u64, u64)| #[trigger] all.contains(w) implies
                    key_table_contents(deg)[(w.0, w.1, 0u64)].0 == pending_preds(g, w, done1).len() by {
                    if !succ@.contains(w) {
                        assert(!has_edge_spec(g, v, w)) by {
                            if has_edge_spec(g, v, w) {
                                assert(succ@.to_set().contains(w));
                            }
                        }
                        assert(pending_preds(g, w, done1) =~= pending_preds(g, w, done0));
                    }
                }
                assert forall|w: (u64, u64)| #[trigger] queue@.contains(w) <==> all.contains(w) && !result@.contains(w)
                    && key_table_contents(deg)[(w.0, w.1, 0u64)].0 == 0 by {
                    assert(result@.contains(w) <==> done1.contains(w));
                }
                result@.unique_seq_to_set();
                r0.unique_seq_to_set();
                lemma_len_subset(result@.to_set(), all);
            }
        }
        proof {
            let rset = result@.to_set();
            assert(rset.subset_of(all));
            assert(g.dom().finite());
            assert(all.finite());
            // leftover vertices keep a pending predecessor
            assert forall|v: (u64, u64)| #[trigger] all.contains(v) && !result@.contains(v) implies exists|u: (u64, u64)|
                has_edge_spec(g, u, v) && !result@.contains(u) by {
                let p = pending_preds(g, v, rset);
                assert(p.subset_of(g.dom()));
                lemma_len_subset(p, g.dom());
                assert(!queue@.contains(v));
                assert(p.len() != 0);
                let u = p.choose();
                assert(p.contains(u));
            }
            if rset == all {
                let rank = |w: (u64, u64)| result@.index_of(w);
                assert forall|a: (u64, u64), b: (u64, u64)| #[trigger] has_edge_spec(g, a, b) implies rank(a) < rank(b) by {
                    assert(all.contains(b)) by {
                        assert(all_vertices(g).contains(b));
                    }
                    assert(rset.contains(b));
                    let kb = result@.index_of(b);
                    assert(result@.contains(b));
                    assert(result@[kb] == b);
                    assert(result@.subrange(0, kb).contains(a));
                    let ka = choose|ka: int| 0 <= ka < kb && result@.subrange(0, kb)[ka] == a;
                    assert(result@[ka] == a);
                    assert(result@.index_of(a) == ka);
                }
                assert(is_ranking(g, rank));
            } else {
                let left = all.difference(rset);
                assert(!left.is_empty()) by {
                    if left.is_empty() {
                        assert(rset =~= all) by {
                            assert forall|w: (u64, u64)| all.contains(w) implies rset.contains(w) by {
                                if !rset.contains(w) {
                                    assert(left.contains(w));
                                }
                            }
                        }
                    }
                }
                assert forall|v: (u64, u64)| #[trigger] left.contains(v) implies exists|u: (u64, u64)|
                    has_edge_spec(g, u, v) && left.contains(u) by {
                    assert(!rset.contains(v));
                    assert(rset.contains(v) <==> result@.contains(v));
                    assert(all.contains(v) && !result@.contains(v));
                    let u = choose|u: (u64, u64)| has_edge_spec(g, u, v) && !result@.contains(u);
                    assert(all.contains(u)) by {
                        assert(g.dom().contains(u));
                    }
                    assert(rset.contains(u) <==> result@.contains(u));
                    assert(has_edge_spec(g, u, v) && left.contains(u));
                }
                lemma_leftover_cyclic(g, rset, left);
            }
        }
        result
    }

    /// Turns a list of pairs into transaction identifiers, position by position.
    fn pairs_to_tids(v: &Vec<(u64, u64)>) -> (r: Vec<TransactionId>)
        ensures
            tid_views(r@) == v@,
    {
        let mut out: Vec<TransactionId> = Vec::new();
        let mut i: usize = 0;
        while i < v.len()
            invariant
                0 <= i <= v.len(),
                tid_views(out@) == v@.subrange(0, i as int),
            decreases v.len() - i,
        {
            let ghost o0 = out@;
            let t = TransactionId::from_pair(v[i]);
            out.push(t);
            assert(out@ =~= o0.push(t));
            assert(tid_views(out@) =~= tid_views(o0).push(t@));
            assert(v@.subrange(0, i + 1) =~= v@.subrange(0, i as int).push(v@[i as int]));
            i = i + 1;
        }
        assert(v@.subrange(0, v.len() as int) =~= v@);
        out
    }

    /// Returns a topological ordering of the vertices if the graph is acyclic,
    /// or `None` if it has a cycle (Kahn's algorithm).
    ///
    /// Where every successor is itself a vertex (which every graph built with
    /// [`add_edge`](Self::add_edge) and [`union`](Self::union) is), the result
    /// is `Some` exactly when the graph has no cycle, and then lists every vertex.
    pub fn topological_sort(&self) -> (r: Option<Vec<TransactionId>>)
        ensures
            r matches Some(o) ==> {
                &&& tid_views(o@).no_duplicates()
                &&& tid_views(o@).to_set() == all_vertices(self.view())
                &&& forall|i: int, u: (u64, u64)|
                    0 <= i < o@.len() && #[trigger] has_edge_spec(self.view(), u, o@[i]@) ==> tid_views(o@).subrange(0, i).contains(u)
            },
            r is Some <==> is_acyclic_spec(self.view()),
            successors_closed(self.view()) ==> (r matches Some(o) ==> tid_views(o@).to_set() == self.view().dom()
                && o@.len() == self.view().dom().len()),
    {
        let ghost g = self.view();
        let order = self.kahn_order();
        let all = self.all_vertex_list();
        proof {
            order@.unique_seq_to_set();
            all@.unique_seq_to_set();
            if order@.len() == all@.len() {
                lemma_subset_equality(order@.to_set(), all_vertices(g));
            }
            if is_acyclic_spec(g) {
                assert(order@.to_set() == all_vertices(g));
            }
            if successors_closed(g) {
                lemma_closed_all_vertices(g);
            }
        }
        if order.len() == all.len() {
            let o = Self::pairs_to_tids(&order);
            proof {
                assert forall|i: int, u: (u64, u64)|
                    0 <= i < o@.len() && #[trigger] has_edge_spec(g, u, o@[i]@) implies tid_views(o@).subrange(0, i).contains(u) by {
                    assert(tid_views(o@)[i] == o@[i]@);
                    assert(order@[i] == o@[i]@);
                }
                assert(tid_views(o@) == order@);
            }
            Some(o)
        } else {
            None
        }
    }

    /// Detects whether the graph has a cycle.
    pub fn has_cycle(&self) -> (r: bool)
        ensures
            r <==> !is_acyclic_spec(self.view()),
    {
        self.topological_sort().is_none()
    }

    /// Returns `true` if the graph has no cycle.
    pub fn is_acyclic(&self) -> (r: bool)
        ensures
            r <==> is_acyclic_spec(self.view()),
    {
        !self.has_cycle()
    }

    /// A vertex that Kahn's algorithm did not remove with an edge to `v`,
    /// if there is one.
    fn remaining_pred(&self, keys: &Vec<(u64, u64)>, removed: &TidSet, v: (u64, u64)) -> (r: Option<(u64, u64)>)
        requires
            keys@.to_set() == self.view().dom(),
        ensures
            r matches Some(u) ==> has_edge_spec(self.view(), u, v) && !tid_set_contents(*removed).contains(u),
            r is None ==> forall|u: (u64, u64)| has_edge_spec(self.view(), u, v) ==> tid_set_contents(*removed).contains(u),
    {
        let mut i: usize = 0;
        while i < keys.len()
            invariant
                0 <= i <= keys.len(),
                keys@.to_set() == self.view().dom(),
                forall|m: int| 0 <= m < i && has_edge_spec(self.view(), keys@[m], v) ==> tid_set_contents(*removed).contains(#[trigger] keys@[m]),
            decreases keys.len() - i,
        {
            let k = keys[i];
            if !tid_set_contains(removed, k) && adj_contains(&self.adj_map, k, v) {
                assert(keys@.to_set().contains(k));
                return Some(k);
            }
            i = i + 1;
        }
        proof {
            assert forall|u: (u64, u64)| has_edge_spec(self.view(), u, v) implies tid_set_contents(*removed).contains(u) by {
                assert(keys@.to_set().contains(u));
                let m = choose|m: int| 0 <= m < keys@.len() && keys@[m] == u;
            }
        }
        None
    }

    /// Returns an edge that lies on a cycle (from a vertex that its target
    /// reaches, or a loop), or `None` if the graph has no cycle.
    pub fn find_cycle_edge(&self) -> (r: Option<(TransactionId, TransactionId)>)
        ensures
            r is None <==> is_acyclic_spec(self.view()),
            r matches Some(e) ==> has_edge_spec(self.view(), e.0@, e.1@)
                && (e.0@ == e.1@ || reaches(edge_set(self.view()), e.1@, e.0@)),
    {
        let ghost g = self.view();
        let ghost es = edge_set(g);
        let order = self.kahn_order();
        let mut removed = tid_set_new();
        let mut i: usize = 0;
        while i < order.len()
            invariant
                0 <= i <= order.len(),
                tid_set_contents(removed) == order@.subrange(0, i as int).to_set(),
            decreases order.len() - i,
        {
            let _ = tid_set_insert(&mut removed, order[i]);
            assert(order@.subrange(0, i + 1) =~= order@.subrange(0, i as int).push(order@[i as int]));
            i = i + 1;
        }
        assert(order@.subrange(0, order.len() as int) =~= order@);
        let all = self.all_vertex_list();
        // a vertex that Kahn's algorithm did not remove
        let mut start: Option<(u64, u64)> = None;
        let mut i: usize = 0;
        while i < all.len()
            invariant
                0 <= i <= all.len(),
                start matches Some(v) ==> all_vertices(g).contains(v) && !order@.contains(v),
                start is None ==> forall|m: int| 0 <= m < i ==> order@.contains(#[trigger] all@[m]),
                tid_set_contents(removed) == order@.to_set(),
                all@.to_set() == all_vertices(g),
            decreases all.len() - i,
        {
            if start.is_none() && !tid_set_contains(&removed, all[i]) {
                assert(all@.to_set().contains(all@[i as int]));
                start = Some(all[i]);
            }
            i = i + 1;
        }
        let v0 = match start {
            None => {
                proof {
                    assert forall|v: (u64, u64)| all_vertices(g).contains(v) implies order@.to_set().contains(v) by {
                        assert(all@.to_set().contains(v));
                        let m = choose|m: int| 0 <= m < all@.len() && all@[m] == v;
                        assert(order@.contains(all@[m]));
                    }
                    assert(order@.to_set() =~= all_vertices(g));
                }
                return None;
            },
            Some(v) => v,
        };
        proof {
            assert(!order@.to_set().contains(v0));
            assert(order@.to_set() != all_vertices(g));
        }
        let keys = adj_keys(&self.adj_map);
        // walk back along edges among the remaining vertices until a vertex repeats
        let mut path: Vec<(u64, u64)> = Vec::new();
        let mut visited = tid_set_new();
        path.push(v0);
        let _ = tid_set_insert(&mut visited, v0);
        let mut cur = v0;
        proof {
            path@.unique_seq_to_set();
            all@.unique_seq_to_set();
            assert(path@.to_set().subset_of(all@.to_set()));
            vstd::set_lib::lemma_len_subset(path@.to_set(), all@.to_set());
        }
        loop
            invariant
                !is_acyclic_spec(g),
                path@.len() <= all@.len(),
                g == self.view(),
                es == edge_set(g),
                keys@.to_set() == g.dom(),
                tid_set_contents(removed) == order@.to_set(),
                all@.to_set() == all_vertices(g),
                all@.no_duplicates(),
                all_vertices(g).finite(),
                path@.len() >= 1,
                cur == path@[path@.len() - 1],
                path@.no_duplicates(),
                tid_set_contents(visited) == path@.to_set(),
                forall|m: int| 0 <= m < path@.len() ==> all_vertices(g).contains(#[trigger] path@[m]) && !order@.contains(path@[m]),
                forall|a: int, b: int| 0 <= a < b < path@.len() ==> reaches(es, #[trigger] path@[b], #[trigger] path@[a]),
                forall|v: (u64, u64)| #[trigger] all_vertices(g).contains(v) && !order@.contains(v) ==> exists|u: (u64, u64)|
                    has_edge_spec(g, u, v) && !order@.contains(u),
            decreases all@.len() - path@.len(),
        {
            let p = match self.remaining_pred(&keys, &removed, cur) {
                Some(p) => p,
                None => {
                    proof {
                        assert(all_vertices(g).contains(cur) && !order@.contains(cur));
                        let u = choose|u: (u64, u64)| has_edge_spec(g, u, cur) && !order@.contains(u);
                        assert(tid_set_contents(removed).contains(u));
                    }
                    return None;
                },
            };
            proof {
                assert(es.contains((p, cur)));
                lemma_edge_reaches(es, p, cur);
                assert(!order@.to_set().contains(p));
                assert(all_vertices(g).contains(p));
            }
            if tid_set_contains(&visited, p) {
                // `p` is on the path: the path from `p` back to `cur` and the edge
                // from `p` to `cur` close a cycle
                proof {
                    assert(path@.to_set().contains(p));
                    let j = choose|j: int| 0 <= j < path@.len() && path@[j] == p;
                    let last = path@.len() - 1;
                    if j != last {
                        assert(reaches(es, path@[last], path@[j]));
                    }
                }
                let a = TransactionId::from_pair(p);
                let b = TransactionId::from_pair(cur);
                return Some((a, b));
            }
            let ghost p0 = path@;
            path.push(p);
            let _ = tid_set_insert(&mut visited, p);
            proof {
                assert(path@.to_set() =~= p0.to_set().insert(p));
                assert(!p0.contains(p));
                assert forall|a: int, b: int| 0 <= a < b < path@.len() implies reaches(es, #[trigger] path@[b], #[trigger] path@[a]) by {
                    if b == path@.len() - 1 {
                        if a < p0.len() - 1 {
                            assert(reaches(es, p0[p0.len() - 1], p0[a]));
                            lemma_reaches_trans(es, p, cur, p0[a]);
                        }
                    } else {
                        assert(path@[a] == p0[a] && path@[b] == p0[b]);
                    }
                }
                assert forall|m: int| 0 <= m < path@.len() implies all_vertices(g).contains(#[trigger] path@[m]) && !order@.contains(path@[m]) by {
                    if m < p0.len() {
                        assert(path@[m] == p0[m]);
                    }
                }
                assert(path@.no_duplicates()) by {
                    assert forall|a: int, b: int| 0 <= a < b < path@.len() implies path@[a] != path@[b] by {
                        if b == path@.len() - 1 {
                            assert(path@[a] == p0[a]);
                            assert(p0.contains(p0[a]));
                        } else {
                            assert(path@[a] == p0[a] && path@[b] == p0[b]);
                        }
                    }
                }
                path@.unique_seq_to_set();
                all@.unique_seq_to_set();
                assert forall|v: (u64, u64)| path@.to_set().contains(v) implies all@.to_set().contains(v) by {
                    let m = choose|m: int| 0 <= m < path@.len() && path@[m] == v;
                    assert(all_vertices(g).contains(path@[m]));
                }
                vstd::set_lib::lemma_len_subset(path@.to_set(), all@.to_set());
            }
            cur = p;
        }
    }

    /// Adds to `reachable` every vertex reachable from `source` that it lacks,
    /// searching depth-first from each newly found vertex.
    #[verifier::loop_isolation(false)]
    fn find_all_reachable_helper(
        &self,
        source: (u64, u64),
        reachable: TidSet,
        Ghost(origin): Ghost<(u64, u64)>,
        Ghost(all): Ghost<Set<(u64, u64)>>,
    ) -> (r: TidSet)
        requires
            all == all_vertices(self.view()),
            all.finite(),
            tid_set_contents(reachable).subset_of(all),
            source == origin || reaches(edge_set(self.view()), origin, source),
            forall|x: (u64, u64)| #[trigger] tid_set_contents(reachable).contains(x) ==> reaches(edge_set(self.view()), origin, x),
        ensures
            tid_set_contents(reachable).subset_of(tid_set_contents(r)),
            tid_set_contents(r).subset_of(all),
            adj_succ(self.view(), source).subset_of(tid_set_contents(r)),
            forall|x: (u64, u64)| #[trigger] tid_set_contents(r).contains(x) && !tid_set_contents(reachable).contains(x)
                ==> adj_succ(self.view(), x).subset_of(tid_set_contents(r)),
            forall|x: (u64, u64)| #[trigger] tid_set_contents(r).contains(x) ==> reaches(edge_set(self.view()), origin, x),
        decreases all.len() - tid_set_contents(reachable).len(),
    {
        let ghost g = self.view();
        let ghost e = edge_set(g);
        let ghost r0 = tid_set_contents(reachable);
        let mut reachable = reachable;
        let neighbors = adj_successors(&self.adj_map, source);
        let mut i: usize = 0;
        while i < neighbors.len()
            invariant
                0 <= i <= neighbors.len(),
                g == self.view(),
                e == edge_set(g),
                all == all_vertices(g),
                all.finite(),
                neighbors@.to_set() == adj_succ(g, source),
                source == origin || reaches(e, origin, source),
                r0.subset_of(tid_set_contents(reachable)),
                tid_set_contents(reachable).subset_of(all),
                forall|k: int| 0 <= k < i ==> tid_set_contents(reachable).contains(#[trigger] neighbors@[k]),
                forall|x: (u64, u64)| #[trigger] tid_set_contents(reachable).contains(x) && !r0.contains(x)
                    ==> adj_succ(g, x).subset_of(tid_set_contents(reachable)),
                forall|x: (u64, u64)| #[trigger] tid_set_contents(reachable).contains(x) ==> reaches(e, origin, x),
            decreases neighbors.len() - i,
        {
            let n = neighbors[i];
            assert(neighbors@.to_set().contains(n));
            assert(has_edge_spec(g, source, n));
            assert(e.contains((source, n)));
            proof {
                lemma_edge_reaches(e, source, n);
                if source != origin {
                    lemma_reaches_trans(e, origin, source, n);
                }
                assert(all.contains(n));
            }
            let ghost before = tid_set_contents(reachable);
            if tid_set_insert(&mut reachable, n) {
                proof {
                    lemma_len_subset(before, all);
                    assert(tid_set_contents(reachable).len() == before.len() + 1);
                    lemma_len_subset(r0, before);
                    assert(tid_set_contents(reachable).subset_of(all));
                    lemma_len_subset(tid_set_contents(reachable), all);
                }
                let ghost mid = tid_set_contents(reachable);
                assert(r0.len() <= before.len());
                assert(mid.len() == before.len() + 1);
                assert(mid.len() <= all.len());
                assert(all.len() - mid.len() < all.len() - r0.len());
                reachable = self.find_all_reachable_helper(n, reachable, Ghost(origin), Ghost(all));
                proof {
                    assert forall|x: (u64, u64)| #[trigger] tid_set_contents(reachable).contains(x) && !r0.contains(x)
                        implies adj_succ(g, x).subset_of(tid_set_contents(reachable)) by {
                        if mid.contains(x) && x != n {
                            assert(before.contains(x));
                            assert(adj_succ(g, x).subset_of(before));
                        }
                    }
                }
            }
            i = i + 1;
        }
        proof {
            assert forall|x: (u64, u64)| adj_succ(g, source).contains(x) implies tid_set_contents(reachable).contains(x) by {
                assert(neighbors@.to_set().contains(x));
                let k = choose|k: int| 0 <= k < neighbors@.len() && neighbors@[k] == x;
            }
        }
        reachable
    }

    /// Computes the transitive closure of the graph.
    ///
    /// Returns a graph with the same vertices, where an edge `(u, v)` exists if
    /// and only if `v` is reachable from `u` in this graph.
    pub fn closure(&self) -> (r: Self)
        ensures
            r.view().dom() == self.view().dom(),
            forall|a: (u64, u64), b: (u64, u64)|
                #[trigger] has_edge_spec(r.view(), a, b) <==> self.view().dom().contains(a) && reaches(edge_set(self.view()), a, b),
            successors_closed(self.view()) ==> successors_closed(r.view()),
    {
        let ghost g = self.view();
        let ghost e = edge_set(g);
        let vs = self.all_vertex_list();
        let ghost all = all_vertices(g);
        let keys = adj_keys(&self.adj_map);
        let mut result = adj_new();
        let mut i: usize = 0;
        while i < keys.len()
            invariant
                0 <= i <= keys.len(),
                g == self.view(),
                e == edge_set(g),
                all == all_vertices(g),
                vs@.to_set() == all,
                keys@.to_set() == g.dom(),
                keys@.no_duplicates(),
                adj_contents(result).dom() == keys@.subrange(0, i as int).to_set(),
                forall|a: (u64, u64), b: (u64, u64)|
                    #[trigger] has_edge_spec(adj_contents(result), a, b) <==> keys@.subrange(0, i as int).contains(a) && reaches(e, a, b),
                forall|a: (u64, u64), b: (u64, u64)|
                    #[trigger] has_edge_spec(adj_contents(result), a, b) ==> all.contains(b),
            decreases keys.len() - i,
        {
            let src = keys[i];
            assert(keys@.subrange(0, i + 1) =~= keys@.subrange(0, i as int).push(src));
            assert(keys@.to_set().contains(src));
            let found = self.find_all_reachable_helper(src, tid_set_new(), Ghost(src), Ghost(all));
            let ghost rs = tid_set_contents(found);
            proof {
                // everything reachable from `src` was found
                assert forall|b: (u64, u64)| reaches(e, src, b) implies rs.contains(b) by {
                    let t = Set::new(|p: ((u64, u64), (u64, u64))| (rs.contains(p.0) || p.0 == src) ==> rs.contains(p.1));
                    assert(e.subset_of(t)) by {
                        assert forall|p: ((u64, u64), (u64, u64))| e.contains(p) implies t.contains(p) by {
                            if rs.contains(p.0) || p.0 == src {
                                assert(adj_succ(g, p.0).contains(p.1));
                            }
                        }
                    }
                    assert(is_transitive(t));
                    assert(t.contains((src, b)));
                }
            }
            let members = tid_set_elements(&found);
            let ghost before_add = adj_contents(result);
            adj_add_key(&mut result, src);
            let ghost base = adj_contents(result);
            proof {
                let kd = keys@.subrange(0, i as int);
                assert(!kd.contains(src)) by {
                    if kd.contains(src) {
                        let k = choose|k: int| 0 <= k < kd.len() && kd[k] == src;
                        assert(keys@[k] == keys@[i as int]);
                    }
                }
                assert(!before_add.dom().contains(src));
                assert(base[src] == Set::<(u64, u64)>::empty());
                assert forall|a: (u64, u64), b: (u64, u64)| a != src implies
                    (#[trigger] has_edge_spec(base, a, b) <==> has_edge_spec(before_add, a, b)) by {}
            }
            let mut j: usize = 0;
            while j < members.len()
                invariant
                    0 <= j <= members.len(),
                    members@.to_set() == rs,
                    adj_contents(result).dom() == base.dom(),
                    base.dom().contains(src),
                    forall|a: (u64, u64), b: (u64, u64)|
                        #[trigger] has_edge_spec(adj_contents(result), a, b) <==> has_edge_spec(base, a, b)
                            || (a == src && members@.subrange(0, j as int).contains(b)),
                decreases members.len() - j,
            {
                let ghost rj = adj_contents(result);
                let _ = adj_insert(&mut result, src, members[j]);
                assert(members@.subrange(0, j + 1) =~= members@.subrange(0, j as int).push(members@[j as int]));
                assert(adj_contents(result).dom() =~= base.dom());
                assert forall|a: (u64, u64), b: (u64, u64)|
                    #[trigger] has_edge_spec(adj_contents(result), a, b) <==> has_edge_spec(base, a, b)
                        || (a == src && members@.subrange(0, j + 1).contains(b)) by {
                    assert(has_edge_spec(adj_contents(result), a, b) <==> has_edge_spec(rj, a, b) || (a == src && b == members@[j as int]));
                    assert(members@.subrange(0, j + 1).contains(b) <==> members@.subrange(0, j as int).contains(b) || b == members@[j as int]);
                }
                j = j + 1;
            }
            assert(members@.subrange(0, members.len() as int) =~= members@);
            proof {
                let kd = keys@.subrange(0, i as int);
                assert(!kd.contains(src)) by {
                    if kd.contains(src) {
                        let k = choose|k: int| 0 <= k < kd.len() && kd[k] == src;
                        assert(keys@[k] == keys@[i as int]);
                    }
                }
                assert(adj_contents(result).dom() =~= keys@.subrange(0, i + 1).to_set()) by {
                    assert(adj_contents(result).dom() == base.dom());
                    assert(base.dom() =~= keys@.subrange(0, i as int).to_set().insert(src));
                }
                assert forall|a: (u64, u64), b: (u64, u64)|
                    #[trigger] has_edge_spec(adj_contents(result), a, b) <==> keys@.subrange(0, i + 1).contains(a) && reaches(e, a, b) by {
                    assert(keys@.subrange(0, i + 1).contains(a) <==> kd.contains(a) || a == src);
                    if a == src {
                        assert(!has_edge_spec(base, a, b));
                        assert(members@.contains(b) <==> members@.to_set().contains(b));
                        assert(members@.contains(b) <==> rs.contains(b));
                        assert(keys@.subrange(0, i + 1).contains(src));
                    } else {
                        assert(has_edge_spec(base, a, b) <==> has_edge_spec(adj_contents(result), a, b));
                        assert(has_edge_spec(base, a, b) <==> has_edge_spec(before_add, a, b));
                    }
                }
                assert forall|a: (u64, u64), b: (u64, u64)|
                    #[trigger] has_edge_spec(adj_contents(result), a, b) implies all.contains(b) by {
                    if a == src {
                        assert(!has_edge_spec(base, a, b));
                        assert(members@.contains(b));
                        assert(members@.to_set().contains(b));
                        assert(rs.contains(b));
                    } else {
                        assert(has_edge_spec(before_add, a, b));
                    }
                }
            }
            i = i + 1;
        }
        assert(keys@.subrange(0, keys.len() as int) =~= keys@);
        let r = DiGraph { adj_map: result };
        proof {
            assert(r.view().dom() =~= g.dom());
            if successors_closed(g) {
                lemma_closed_all_vertices(g);
            }
        }
        r
    }

    /// The vertices from which `u` is reachable, together with `u` itself.
    fn ancestors(&self, u: (u64, u64)) -> (r: TidSet)
        ensures
            tid_set_contents(r).contains(u),
            forall|x: (u64, u64), y: (u64, u64)|
                #[trigger] has_edge_spec(self.view(), x, y) && tid_set_contents(r).contains(y) ==> tid_set_contents(r).contains(x),
            forall|a: (u64, u64)| #[trigger] tid_set_contents(r).contains(a) ==> a == u || reaches(edge_set(self.view()), a, u),
    {
        let ghost g = self.view();
        let ghost e = edge_set(g);
        let vs = self.all_vertex_list();
        let ghost allu = vs@.to_set().insert(u);
        let keys = adj_keys(&self.adj_map);
        let mut found = tid_set_new();
        let mut stack: Vec<(u64, u64)> = Vec::new();
        stack.push(u);
        while stack.len() > 0
            invariant
                g == self.view(),
                e == edge_set(g),
                allu == all_vertices(g).insert(u),
                allu.finite(),
                keys@.to_set() == g.dom(),
                tid_set_contents(found).subset_of(allu),
                forall|x: (u64, u64)| #[trigger] stack@.contains(x) ==> allu.contains(x),
                forall|x: (u64, u64)| #[trigger] stack@.contains(x) ==> x == u || reaches(e, x, u),
                forall|x: (u64, u64)| #[trigger] tid_set_contents(found).contains(x) ==> x == u || reaches(e, x, u),
                tid_set_contents(found).contains(u) || stack@.contains(u),
                forall|x: (u64, u64), y: (u64, u64)|
                    #[trigger] has_edge_spec(g, x, y) && tid_set_contents(found).contains(y) ==> tid_set_contents(found).contains(x) || stack@.contains(x),
            decreases allu.len() - tid_set_contents(found).len(), stack.len(),
        {
            let ghost sb = stack@;
            let node = stack.pop().unwrap();
            proof {
                assert(sb[sb.len() - 1] == node);
                assert(stack@ =~= sb.drop_last());
                assert(sb.contains(node));
                assert forall|x: (u64, u64)| #[trigger] sb.contains(x) && x != node implies stack@.contains(x) by {
                    let k = choose|k: int| 0 <= k < sb.len() && sb[k] == x;
                    assert(k < sb.len() - 1);
                    assert(stack@[k] == x);
                }
            }
            let ghost f0 = tid_set_contents(found);
            if tid_set_insert(&mut found, node) {
                proof {
                    lemma_len_subset(f0, allu);
                    lemma_len_subset(tid_set_contents(found), allu);
                }
                let ghost s1 = stack@;
                let mut i: usize = 0;
                while i < keys.len()
                    invariant
                        0 <= i <= keys.len(),
                        g == self.view(),
                        e == edge_set(g),
                        keys@.to_set() == g.dom(),
                        tid_set_contents(found) == f0.insert(node),
                        node == u || reaches(e, node, u),
                        s1.len() <= stack@.len(),
                        forall|k: int| 0 <= k < s1.len() ==> #[trigger] stack@[k] == s1[k],
                        forall|x: (u64, u64)| #[trigger] stack@.contains(x) && !s1.contains(x) ==> has_edge_spec(g, x, node),
                        forall|j: int| 0 <= j < i && has_edge_spec(g, keys@[j], node) ==> stack@.contains(#[trigger] keys@[j]),
                    decreases keys.len() - i,
                {
                    let k = keys[i];
                    if adj_contains(&self.adj_map, k, node) {
                        let ghost st = stack@;
                        stack.push(k);
                        proof {
                            assert(stack@ =~= st.push(k));
                            assert(stack@[st.len() as int] == k);
                            assert forall|x: (u64, u64)| #[trigger] stack@.contains(x) implies st.contains(x) || x == k by {
                                let j = choose|j: int| 0 <= j < stack@.len() && stack@[j] == x;
                                if j < st.len() {
                                    assert(st[j] == x);
                                }
                            }
                            assert forall|j: int| 0 <= j < i && has_edge_spec(g, keys@[j], node) implies stack@.contains(#[trigger] keys@[j]) by {
                                let x = keys@[j];
                                assert(st.contains(x));
                                let m = choose|m: int| 0 <= m < st.len() && st[m] == x;
                                assert(stack@[m] == x);
                            }
                            assert(stack@.contains(k));
                        }
                    }
                    i = i + 1;
                }
                proof {
                    assert forall|x: (u64, u64)| #[trigger] stack@.contains(x) implies allu.contains(x) && (x == u || reaches(e, x, u)) by {
                        if !s1.contains(x) {
                            assert(has_edge_spec(g, x, node));
                            assert(all_vertices(g).contains(x));
                            assert(e.contains((x, node)));
                            lemma_edge_reaches(e, x, node);
                            if node != u {
                                lemma_reaches_trans(e, x, node, u);
                            }
                        } else {
                            let k = choose|k: int| 0 <= k < s1.len() && s1[k] == x;
                            assert(sb[k] == x);
                            assert(sb.contains(x));
                        }
                    }
                    assert forall|x: (u64, u64)| #[trigger] s1.contains(x) implies stack@.contains(x) by {
                        let k = choose|k: int| 0 <= k < s1.len() && s1[k] == x;
                        assert(stack@[k] == x);
                    }
                    assert forall|x: (u64, u64), y: (u64, u64)|
                        #[trigger] has_edge_spec(g, x, y) && tid_set_contents(found).contains(y) implies tid_set_contents(found).contains(x) || stack@.contains(x) by {
                        if y == node {
                            assert(g.dom().contains(x));
                            assert(keys@.to_set().contains(x));
                            assert(keys@.contains(x));
                            let j = choose|j: int| 0 <= j < keys@.len() && keys@[j] == x;
                            assert(stack@.contains(keys@[j]));
                        } else if !tid_set_contents(found).contains(x) {
                            assert(f0.contains(y));
                            assert(sb.contains(x) && x != node);
                            assert(s1.contains(x));
                        } else {
                            assert(f0.contains(y));
                        }
                    }
                }
            } else {
                proof {
                    assert forall|x: (u64, u64)| #[trigger] stack@.contains(x) implies sb.contains(x) by {
                        let k = choose|k: int| 0 <= k < stack@.len() && stack@[k] == x;
                        assert(sb[k] == x);
                    }
                    assert forall|x: (u64, u64), y: (u64, u64)|
                        #[trigger] has_edge_spec(g, x, y) && tid_set_contents(found).contains(y) implies tid_set_contents(found).contains(x) || stack@.contains(x) by {
                        if !tid_set_contents(found).contains(x) {
                            assert(sb.contains(x) && x != node);
                        }
                    }
                }
            }
        }
        found
    }

    /// The vertices reachable from `v`, together with `v` itself.
    fn descendants(&self, v: (u64, u64)) -> (r: TidSet)
        ensures
            tid_set_contents(r).contains(v),
            forall|x: (u64, u64), y: (u64, u64)|
                #[trigger] has_edge_spec(self.view(), x, y) && tid_set_contents(r).contains(x) ==> tid_set_contents(r).contains(y),
            forall|d: (u64, u64)| #[trigger] tid_set_contents(r).contains(d) ==> d == v || reaches(edge_set(self.view()), v, d),
    {
        let ghost g = self.view();
        let ghost e = edge_set(g);
        let vs = self.all_vertex_list();
        let ghost allv = vs@.to_set().insert(v);
        let mut found = tid_set_new();
        let mut stack: Vec<(u64, u64)> = Vec::new();
        stack.push(v);
        while stack.len() > 0
            invariant
                g == self.view(),
                e == edge_set(g),
                allv == all_vertices(g).insert(v),
                allv.finite(),
                tid_set_contents(found).subset_of(allv),
                forall|x: (u64, u64)| #[trigger] stack@.contains(x) ==> allv.contains(x),
                forall|x: (u64, u64)| #[trigger] stack@.contains(x) ==> x == v || reaches(e, v, x),
                forall|x: (u64, u64)| #[trigger] tid_set_contents(found).contains(x) ==> x == v || reaches(e, v, x),
                tid_set_contents(found).contains(v) || stack@.contains(v),
                forall|x: (u64, u64), y: (u64, u64)|
                    #[trigger] has_edge_spec(g, x, y) && tid_set_contents(found).contains(x) ==> tid_set_contents(found).contains(y) || stack@.contains(y),
            decreases allv.len() - tid_set_contents(found).len(), stack.len(),
        {
            let ghost sb = stack@;
            let node = stack.pop().unwrap();
            proof {
                assert(sb[sb.len() - 1] == node);
                assert(stack@ =~= sb.drop_last());
                assert(sb.contains(node));
                assert forall|x: (u64, u64)| #[trigger] sb.contains(x) && x != node implies stack@.contains(x) by {
                    let k = choose|k: int| 0 <= k < sb.len() && sb[k] == x;
                    assert(k < sb.len() - 1);
                    assert(stack@[k] == x);
                }
            }
            let ghost f0 = tid_set_contents(found);
            if tid_set_insert(&mut found, node) {
                proof {
                    lemma_len_subset(f0, allv);
                    lemma_len_subset(tid_set_contents(found), allv);
                }
                let ghost s1 = stack@;
                let succ = adj_successors(&self.adj_map, node);
                let mut i: usize = 0;
                while i < succ.len()
                    invariant
                        0 <= i <= succ.len(),
                        g == self.view(),
                        e == edge_set(g),
                        succ@.to_set() == adj_succ(g, node),
                        tid_set_contents(found) == f0.insert(node),
                        s1.len() <= stack@.len(),
                        forall|k: int| 0 <= k < s1.len() ==> #[trigger] stack@[k] == s1[k],
                        forall|x: (u64, u64)| #[trigger] stack@.contains(x) && !s1.contains(x) ==> has_edge_spec(g, node, x),
                        forall|j: int| 0 <= j < i ==> stack@.contains(#[trigger] succ@[j]),
                    decreases succ.len() - i,
                {
                    let k = succ[i];
                    assert(succ@.to_set().contains(k));
                    let ghost st = stack@;
                    stack.push(k);
                    proof {
                        assert(stack@ =~= st.push(k));
                        assert(stack@[st.len() as int] == k);
                        assert forall|x: (u64, u64)| #[trigger] stack@.contains(x) implies st.contains(x) || x == k by {
                            let j = choose|j: int| 0 <= j < stack@.len() && stack@[j] == x;
                            if j < st.len() {
                                assert(st[j] == x);
                            }
                        }
                        assert forall|j: int| 0 <= j < i implies stack@.contains(#[trigger] succ@[j]) by {
                            let x = succ@[j];
                            assert(st.contains(x));
                            let m = choose|m: int| 0 <= m < st.len() && st[m] == x;
                            assert(stack@[m] == x);
                        }
                        assert(stack@.contains(k));
                    }
                    i = i + 1;
                }
                proof {
                    assert forall|x: (u64, u64)| #[trigger] stack@.contains(x) implies allv.contains(x) && (x == v || reaches(e, v, x)) by {
                        if !s1.contains(x) {
                            assert(has_edge_spec(g, node, x));
                            assert(all_vertices(g).contains(x));
                            assert(e.contains((node, x)));
                            lemma_edge_reaches(e, node, x);
                            if node != v {
                                lemma_reaches_trans(e, v, node, x);
                            }
                        } else {
                            let k = choose|k: int| 0 <= k < s1.len() && s1[k] == x;
                            assert(sb[k] == x);
                            assert(sb.contains(x));
                        }
                    }
                    assert forall|x: (u64, u64)| #[trigger] s1.contains(x) implies stack@.contains(x) by {
                        let k = choose|k: int| 0 <= k < s1.len() && s1[k] == x;
                        assert(stack@[k] == x);
                    }
                    assert forall|x: (u64, u64), y: (u64, u64)|
                        #[trigger] has_edge_spec(g, x, y) && tid_set_contents(found).contains(x) implies tid_set_contents(found).contains(y) || stack@.contains(y) by {
                        if x == node {
                            assert(adj_succ(g, node).contains(y));
                            assert(succ@.to_set().contains(y));
                            assert(succ@.contains(y));
                            let j = choose|j: int| 0 <= j < succ@.len() && succ@[j] == y;
                            assert(stack@.contains(succ@[j]));
                        } else if !tid_set_contents(found).contains(y) {
                            assert(f0.contains(x));
                            assert(sb.contains(y) && y != node);
                            assert(s1.contains(y));
                        } else {
                            assert(f0.contains(x));
                        }
                    }
                }
            } else {
                proof {
                    assert forall|x: (u64, u64)| #[trigger] stack@.contains(x) implies sb.contains(x) by {
                        let k = choose|k: int| 0 <= k < stack@.len() && stack@[k] == x;
                        assert(sb[k] == x);
                    }
                    assert forall|x: (u64, u64), y: (u64, u64)|
                        #[trigger] has_edge_spec(g, x, y) && tid_set_contents(found).contains(x) implies tid_set_contents(found).contains(y) || stack@.contains(y) by {
                        if !tid_set_contents(found).contains(y) {
                            assert(sb.contains(y) && y != node);
                        }
                    }
                }
            }
        }
        found
    }

    /// Adds every edge from an ancestor of `u` (or `u`) to a descendant of `v`
    /// (or `v`); reports whether an edge was new.
    fn close_over_edge(&mut self, u: (u64, u64), v: (u64, u64)) -> (changed: bool)
        ensures
            edge_set(old(self).view()).subset_of(edge_set(final(self).view())),
            edge_set(final(self).view()).contains((u, v)),
            forall|a: (u64, u64), b: (u64, u64)| #[trigger] edge_set(final(self).view()).contains((a, b))
                ==> edge_set(old(self).view()).contains((a, b))
                    || ((a == u || reaches(edge_set(old(self).view()), a, u)) && (b == v || reaches(edge_set(old(self).view()), v, b))),
            is_transitive(edge_set(old(self).view())) ==> is_transitive(edge_set(final(self).view())),
            successors_closed(old(self).view()) ==> successors_closed(final(self).view()),
            changed <==> edge_set(final(self).view()) != edge_set(old(self).view()),
            old(self).view().dom().subset_of(final(self).view().dom()),
    {
        let ghost g0 = self.view();
        let ghost e0 = edge_set(g0);
        let anc = self.ancestors(u);
        let desc = self.descendants(v);
        let ghost aset = tid_set_contents(anc);
        let ghost dset = tid_set_contents(desc);
        let al = tid_set_elements(&anc);
        let dl = tid_set_elements(&desc);
        let mut changed = false;
        let mut i: usize = 0;
        while i < al.len()
            invariant
                0 <= i <= al.len(),
                al@.to_set() == aset,
                dl@.to_set() == dset,
                e0 == edge_set(g0),
                e0.subset_of(edge_set(self.view())),
                edge_set(self.view()).subset_of(e0.union(product(aset, dset))),
                forall|j: int, d: (u64, u64)| 0 <= j < i && dset.contains(d) ==> #[trigger] edge_set(self.view()).contains((al@[j], d)),
                self.view().dom().subset_of(g0.dom().union(aset).union(dset)),
                g0.dom().subset_of(self.view().dom()),
                forall|x: (u64, u64), y: (u64, u64)| #[trigger] has_edge_spec(self.view(), x, y) && !e0.contains((x, y)) ==> self.view().dom().contains(y),
                changed <==> edge_set(self.view()) != e0,
            decreases al.len() - i,
        {
            let a = al[i];
            let mut k: usize = 0;
            while k < dl.len()
                invariant
                    0 <= i < al.len(),
                    a == al@[i as int],
                    0 <= k <= dl.len(),
                    al@.to_set() == aset,
                    dl@.to_set() == dset,
                    e0 == edge_set(g0),
                    e0.subset_of(edge_set(self.view())),
                    edge_set(self.view()).subset_of(e0.union(product(aset, dset))),
                    forall|j: int, d: (u64, u64)| 0 <= j < i && dset.contains(d) ==> #[trigger] edge_set(self.view()).contains((al@[j], d)),
                    forall|m: int| 0 <= m < k ==> #[trigger] edge_set(self.view()).contains((a, dl@[m])),
                    self.view().dom().subset_of(g0.dom().union(aset).union(dset)),
                    g0.dom().subset_of(self.view().dom()),
                    forall|x: (u64, u64), y: (u64, u64)| #[trigger] has_edge_spec(self.view(), x, y) && !e0.contains((x, y)) ==> self.view().dom().contains(y),
                    changed <==> edge_set(self.view()) != e0,
                decreases dl.len() - k,
            {
                let d = dl[k];
                assert(al@.to_set().contains(a));
                assert(dl@.to_set().contains(d));
                let ta = TransactionId::from_pair(a);
                let td = TransactionId::from_pair(d);
                if !self.has_edge(&ta, &td) {
                    let ghost before = edge_set(self.view());
                    let ghost gb = self.view();
                    self.add_edge(ta, td);
                    changed = true;
                    proof {
                        assert(!before.contains((a, d)));
                        assert(edge_set(self.view()).contains((a, d)));
                        assert(edge_set(self.view()) != e0) by {
                            assert(!e0.contains((a, d)));
                        }
                        assert forall|x: (u64, u64), y: (u64, u64)| #[trigger] has_edge_spec(self.view(), x, y) && !e0.contains((x, y))
                            implies self.view().dom().contains(y) by {
                            if x != a || y != d {
                                assert(edge_set(self.view()).contains((x, y)));
                                assert(before.contains((x, y)));
                                assert(has_edge_spec(gb, x, y));
                            }
                        }
                    }
                }
                k = k + 1;
            }
            proof {
                assert forall|j: int, d: (u64, u64)| 0 <= j < i + 1 && dset.contains(d) implies #[trigger] edge_set(self.view()).contains((al@[j], d)) by {
                    if j == i {
                        assert(dl@.to_set().contains(d));
                        let m = choose|m: int| 0 <= m < dl@.len() && dl@[m] == d;
                        assert(edge_set(self.view()).contains((a, dl@[m])));
                    }
                }
            }
            i = i + 1;
        }
        proof {
            let ef = edge_set(self.view());
            let pr = product(aset, dset);
            assert(ef =~= e0.union(pr)) by {
                assert forall|p: ((u64, u64), (u64, u64))| pr.contains(p) implies ef.contains(p) by {
                    assert(al@.to_set().contains(p.0));
                    let j = choose|j: int| 0 <= j < al@.len() && al@[j] == p.0;
                    assert(ef.contains((al@[j], p.1)));
                }
            }
            assert(pr.contains((u, v)));
            assert forall|a: (u64, u64), b: (u64, u64)| #[trigger] ef.contains((a, b))
                implies e0.contains((a, b)) || ((a == u || reaches(e0, a, u)) && (b == v || reaches(e0, v, b))) by {
                if !e0.contains((a, b)) {
                    assert(pr.contains((a, b)));
                }
            }
            if is_transitive(e0) {
                assert forall|x: (u64, u64), y: (u64, u64)| #[trigger] e0.contains((x, y)) && aset.contains(y) implies aset.contains(x) by {
                    assert(has_edge_spec(g0, x, y));
                }
                assert forall|x: (u64, u64), y: (u64, u64)| #[trigger] e0.contains((x, y)) && dset.contains(x) implies dset.contains(y) by {
                    assert(has_edge_spec(g0, x, y));
                }
                lemma_product_transitive(e0, aset, dset);
            }
            if successors_closed(g0) {
                assert forall|x: (u64, u64), y: (u64, u64)| #[trigger] has_edge_spec(self.view(), x, y) implies self.view().dom().contains(y) by {
                    if e0.contains((x, y)) {
                        assert(has_edge_spec(g0, x, y));
                        assert(g0.dom().contains(y));
                        assert(ef.contains((x, y)));
                    }
                }
            }
        }
        changed
    }

    /// Adds `new_edges` to a graph and closes it again under transitivity,
    /// touching only what the new edges make reachable. Reports whether any
    /// edge was added.
    ///
    /// On a transitively closed graph the result is the transitive closure of
    /// the graph with the new edges.
    pub fn incremental_closure(&mut self, new_edges: Vec<(TransactionId, TransactionId)>) -> (changed: bool)
        ensures
            edge_set(old(self).view()).subset_of(edge_set(final(self).view())),
            forall|j: int| 0 <= j < new_edges@.len() ==> #[trigger] edge_set(final(self).view()).contains(edge_pairs(new_edges@)[j]),
            forall|a: (u64, u64), b: (u64, u64)| #[trigger] edge_set(final(self).view()).contains((a, b))
                ==> reaches(edge_set(old(self).view()).union(edge_pairs(new_edges@).to_set()), a, b),
            is_transitive(edge_set(old(self).view())) ==> is_transitive(edge_set(final(self).view())),
            successors_closed(old(self).view()) ==> successors_closed(final(self).view()),
            changed <==> edge_set(final(self).view()) != edge_set(old(self).view()),
            old(self).view().dom().subset_of(final(self).view().dom()),
            forall|j: int| 0 <= j < new_edges@.len() ==> final(self).view().dom().contains(#[trigger] edge_pairs(new_edges@)[j].0),
    {
        let ghost e0 = edge_set(self.view());
        let ghost ns = edge_pairs(new_edges@).to_set();
        let ghost full = e0.union(ns);
        let mut changed = false;
        let mut i: usize = 0;
        while i < new_edges.len()
            invariant
                0 <= i <= new_edges.len(),
                ns == edge_pairs(new_edges@).to_set(),
                full == e0.union(ns),
                e0.subset_of(edge_set(self.view())),
                forall|j: int| 0 <= j < i ==> #[trigger] edge_set(self.view()).contains(edge_pairs(new_edges@)[j]),
                forall|a: (u64, u64), b: (u64, u64)| #[trigger] edge_set(self.view()).contains((a, b)) ==> reaches(full, a, b),
                is_transitive(e0) ==> is_transitive(edge_set(self.view())),
                successors_closed(old(self).view()) ==> successors_closed(self.view()),
                e0 == edge_set(old(self).view()),
                changed <==> edge_set(self.view()) != e0,
                old(self).view().dom().subset_of(self.view().dom()),
            decreases new_edges.len() - i,
        {
            let (tu, tv) = new_edges[i];
            let u = tu.to_pair();
            let v = tv.to_pair();
            let ghost eb = edge_set(self.view());
            let c = self.close_over_edge(u, v);
            proof {
                let ea = edge_set(self.view());
                assert(edge_pairs(new_edges@)[i as int] == (u, v));
                assert(ns.contains((u, v)));
                assert(full.contains((u, v)));
                lemma_edge_reaches(full, u, v);
                assert forall|p: ((u64, u64), (u64, u64))| #[trigger] eb.contains(p) implies reaches(full, p.0, p.1) by {
                    assert(eb.contains((p.0, p.1)));
                }
                assert forall|a: (u64, u64), b: (u64, u64)| #[trigger] ea.contains((a, b)) implies reaches(full, a, b) by {
                    if !eb.contains((a, b)) {
                        if a != u {
                            lemma_reaches_through(eb, full, a, u);
                            lemma_reaches_trans(full, a, u, v);
                        }
                        if b != v {
                            lemma_reaches_through(eb, full, v, b);
                            lemma_reaches_trans(full, a, v, b);
                        }
                    }
                }
                assert forall|j: int| 0 <= j < i + 1 implies #[trigger] ea.contains(edge_pairs(new_edges@)[j]) by {
                    if j < i {
                        assert(eb.contains(edge_pairs(new_edges@)[j]));
                    }
                }
            }
            proof {
                let ea = edge_set(self.view());
                if eb != e0 {
                    assert(!eb.subset_of(e0)) by {
                        if eb.subset_of(e0) {
                            assert(eb =~= e0);
                        }
                    }
                    let p = choose|p: ((u64, u64), (u64, u64))| eb.contains(p) && !e0.contains(p);
                    assert(ea.contains(p));
                }
                if ea != eb {
                    assert(!ea.subset_of(eb)) by {
                        if ea.subset_of(eb) {
                            assert(ea =~= eb);
                        }
                    }
                    let p = choose|p: ((u64, u64), (u64, u64))| ea.contains(p) && !eb.contains(p);
                    assert(!e0.contains(p));
                }
            }
            changed = changed || c;
            i = i + 1;
        }
        proof {
            assert forall|j: int| 0 <= j < new_edges@.len() implies self.view().dom().contains(#[trigger] edge_pairs(new_edges@)[j].0) by {
                let e = edge_pairs(new_edges@)[j];
                assert(edge_set(self.view()).contains(e));
                assert(edge_set(self.view()).contains((e.0, e.1)));
                assert(has_edge_spec(self.view(), e.0, e.1));
            }
        }
        changed
    }
}

impl Clone for DiGraph {
    /// A graph with the same vertices and edges.
    fn clone(&self) -> (r: Self)
        ensures
            r.view() == self.view(),
    {
        DiGraph { adj_map: adj_clone(&self.adj_map) }
    }
}

impl PartialEq for DiGraph {
    /// Two graphs are equal when they have the same vertices and edges.
    fn eq(&self, other: &Self) -> (r: bool) {
        adj_eq(&self.adj_map, &other.adj_map)
    }
}

impl vstd::std_specs::cmp::PartialEqSpecImpl for DiGraph {
    open spec fn obeys_eq_spec() -> bool {
        true
    }

    open spec fn eq_spec(&self, other: &Self) -> bool {
        self.view() == other.view()
    }
}

impl Default for DiGraph {
    /// A graph with no vertex.
    fn default() -> (g: Self)
        ensures
            g.view().dom().is_empty(),
    {
        DiGraph::new()
    }
}

} // verus!
