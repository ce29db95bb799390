//! Undirected graphs over `u64` vertices, backed by an adjacency table.
use vstd::prelude::*;

use crate::collections::{uadj_add_key, uadj_contains, uadj_contents, uadj_has_key, uadj_insert, uadj_keys, uadj_new, uadj_succ, uadj_successors, U64AdjMap};

verus! {

broadcast use vstd::seq_lib::group_seq_properties, vstd::set_lib::group_set_lib_default, vstd::set::group_set_axioms;

/// The mathematical view of an undirected graph: each vertex with its
/// neighbour set.
pub type UGraphView = Map<u64, Set<u64>>;

/// The neighbourhood relation is symmetric: `b` is a neighbour of `a`
/// exactly when `a` is one of `b`, and both are vertices.
pub open spec fn is_symmetric(g: UGraphView) -> bool {
    forall|a: u64, b: u64| #[trigger] uadj_succ(g, a).contains(b) ==> g.dom().contains(a) && g.dom().contains(b) && uadj_succ(g, b).contains(a)
}

/// The graph with `v` as a vertex, its neighbours unchanged.
pub open spec fn with_vertex(g: UGraphView, v: u64) -> UGraphView {
    g.insert(v, uadj_succ(g, v))
}

/// The graph with the edge between `s` and `t`.
pub open spec fn with_edge(g: UGraphView, s: u64, t: u64) -> UGraphView {
    let g1 = g.insert(s, uadj_succ(g, s).insert(t));
    g1.insert(t, uadj_succ(g1, t).insert(s))
}

/// The graph with the edges from `s` to each of `ts`, in order.
pub open spec fn with_edges(g: UGraphView, s: u64, ts: Seq<u64>) -> UGraphView
    decreases ts.len(),
{
    if ts.len() == 0 {
        g
    } else {
        with_edge(with_edges(g, s, ts.drop_last()), s, ts.last())
    }
}

/// An undirected graph: each vertex maps to the set of its neighbours, and
/// each edge is held in both directions.
#[derive(Debug)]
pub struct UGraph {
    adj_map: U64AdjMap,
}

impl View for UGraph {
    type V = UGraphView;

    closed spec fn view(&self) -> UGraphView {
        uadj_contents(self.adj_map)
    }
}

impl Default for UGraph {
    /// The graph without vertices.
    fn default() -> (g: Self)
        ensures
            g@.dom().is_empty(),
    {
        UGraph { adj_map: uadj_new() }
    }
}

impl UGraph {
    /// Every edge is held in both directions.
    #[verifier::type_invariant]
    spec fn symmetric(self) -> bool {
        is_symmetric(uadj_contents(self.adj_map))
    }

    /// The graph without vertices.
    pub fn new() -> (g: Self)
        ensures
            g@.dom().is_empty(),
    {
        UGraph { adj_map: uadj_new() }
    }

    /// Adds the edge between `source` and `target`, and both as vertices.
    pub fn add_edge(&mut self, source: u64, target: u64)
        ensures
            final(self)@ == with_edge(old(self)@, source, target),
    {
        proof {
            use_type_invariant(&*self);
            lemma_with_edge_symmetric(self@, source, target);
        }
        let mut m = uadj_new();
        std::mem::swap(&mut m, &mut self.adj_map);
        uadj_insert(&mut m, source, target);
        uadj_insert(&mut m, target, source);
        self.adj_map = m;
    }

    /// Adds the edges from `source` to each of `targets`.
    pub fn add_edges(&mut self, source: &u64, targets: &[u64])
        ensures
            final(self)@ == with_edges(old(self)@, *source, targets@),
    {
        let mut i: usize = 0;
        while i < targets.len()
            invariant
                0 <= i <= targets@.len(),
                self@ == with_edges(old(self)@, *source, targets@.subrange(0, i as int)),
            decreases targets@.len() - i,
        {
            proof {
                let ts = targets@.subrange(0, i + 1);
                assert(ts.drop_last() =~= targets@.subrange(0, i as int));
            }
            self.add_edge(*source, targets[i]);
            i = i + 1;
        }
        assert(targets@.subrange(0, targets@.len() as int) =~= targets@);
    }

    /// Adds `vertex`, keeping its neighbours if it was a vertex already.
    pub fn add_vertex(&mut self, vertex: u64)
        ensures
            final(self)@ == with_vertex(old(self)@, vertex),
    {
        proof {
            use_type_invariant(&*self);
            lemma_with_vertex_symmetric(self@, vertex);
        }
        let mut m = uadj_new();
        std::mem::swap(&mut m, &mut self.adj_map);
        uadj_add_key(&mut m, vertex);
        self.adj_map = m;
    }

    /// Whether `v` is a vertex.
    pub fn has_vertex(&self, v: u64) -> (r: bool)
        ensures
            r == self@.dom().contains(v),
    {
        uadj_has_key(&self.adj_map, v)
    }

    /// Whether `b` is a neighbour of `a`.
    pub fn has_edge(&self, a: u64, b: u64) -> (r: bool)
        ensures
            r == uadj_succ(self@, a).contains(b),
    {
        uadj_contains(&self.adj_map, a, b)
    }

    /// Every vertex, each once, in no promised order.
    pub fn vertices(&self) -> (r: Vec<u64>)
        ensures
            r@.no_duplicates(),
            r@.to_set() == self@.dom(),
            is_symmetric(self@),
    {
        proof {
            use_type_invariant(self);
        }
        uadj_keys(&self.adj_map)
    }

    /// The neighbours of `v`, each once, in no promised order.
    pub fn neighbours(&self, v: u64) -> (r: Vec<u64>)
        ensures
            r@.no_duplicates(),
            r@.to_set() == uadj_succ(self@, v),
            is_symmetric(self@),
    {
        proof {
            use_type_invariant(self);
        }
        uadj_successors(&self.adj_map, v)
    }
}

/// Adding a vertex keeps the graph symmetric.
pub proof fn lemma_with_vertex_symmetric(g: UGraphView, v: u64)
    requires
        is_symmetric(g),
    ensures
        is_symmetric(with_vertex(g, v)),
        with_vertex(g, v).dom() == g.dom().insert(v),
        forall|a: u64| #[trigger] uadj_succ(with_vertex(g, v), a) == uadj_succ(g, a),
{
    let h = with_vertex(g, v);
    assert forall|a: u64| #[trigger] uadj_succ(h, a) == uadj_succ(g, a) by {}
    assert(h.dom() =~= g.dom().insert(v));
}

/// Adding an edge keeps the graph symmetric, adds its two ends as vertices,
/// and adds exactly the two directions of the edge.
pub proof fn lemma_with_edge_symmetric(g: UGraphView, s: u64, t: u64)
    requires
        is_symmetric(g),
    ensures
        is_symmetric(with_edge(g, s, t)),
        with_edge(g, s, t).dom() == g.dom().insert(s).insert(t),
        forall|a: u64, b: u64| #[trigger] uadj_succ(with_edge(g, s, t), a).contains(b)
            <==> uadj_succ(g, a).contains(b) || (a == s && b == t) || (a == t && b == s),
{
    let h = with_edge(g, s, t);
    assert forall|a: u64, b: u64| #[trigger] uadj_succ(h, a).contains(b)
        <==> uadj_succ(g, a).contains(b) || (a == s && b == t) || (a == t && b == s) by {}
    assert(h.dom() =~= g.dom().insert(s).insert(t));
}

/// Adding an edge adds its two ends as vertices and exactly the two
/// directions of the edge.
pub proof fn lemma_with_edge_succ(g: UGraphView, s: u64, t: u64)
    ensures
        with_edge(g, s, t).dom() == g.dom().insert(s).insert(t),
        forall|a: u64, b: u64| #[trigger] uadj_succ(with_edge(g, s, t), a).contains(b)
            <==> uadj_succ(g, a).contains(b) || (a == s && b == t) || (a == t && b == s),
{
    let h = with_edge(g, s, t);
    assert forall|a: u64, b: u64| #[trigger] uadj_succ(h, a).contains(b)
        <==> uadj_succ(g, a).contains(b) || (a == s && b == t) || (a == t && b == s) by {}
    assert(h.dom() =~= g.dom().insert(s).insert(t));
}

/// Each element is smaller than the next.
pub open spec fn strictly_increasing(s: Seq<u64>) -> bool {
    forall|i: int, j: int| 0 <= i < j < s.len() ==> #[trigger] s[i] < #[trigger] s[j]
}

/// Sorts distinct values into increasing order.
pub fn sort_increasing(v: Vec<u64>) -> (r: Vec<u64>)
    requires
        v@.no_duplicates(),
    ensures
        strictly_increasing(r@),
        r@.to_set() == v@.to_set(),
{
    let mut r: Vec<u64> = Vec::new();
    let mut i: usize = 0;
    while i < v.len()
        invariant
            0 <= i <= v@.len(),
            v@.no_duplicates(),
            strictly_increasing(r@),
            forall|x: u64| r@.contains(x) <==> v@.subrange(0, i as int).contains(x),
        decreases v@.len() - i,
    {
        let e = v[i];
        let mut pos: usize = 0;
        while pos < r.len() && r[pos] < e
            invariant
                0 <= pos <= r@.len(),
                forall|k: int| 0 <= k < pos ==> #[trigger] r@[k] < e,
            decreases r@.len() - pos,
        {
            pos = pos + 1;
        }
        proof {
            assert(!r@.contains(e)) by {
                if r@.contains(e) {
                    let k = choose|k: int| 0 <= k < i && v@.subrange(0, i as int)[k] == e;
                    assert(v@[k] == v@[i as int]);
                }
            }
            if pos < r@.len() {
                assert(r@[pos as int] != e);
                assert(r@[pos as int] > e);
            }
        }
        let ghost r0 = r@;
        r.insert(pos, e);
        proof {
            r0.insert_ensures(pos as int, e);
            assert forall|a: int, b: int| 0 <= a < b < r@.len() implies #[trigger] r@[a] < #[trigger] r@[b] by {
                if b < pos {
                    assert(r0[a] < r0[b]);
                } else if b == pos {
                    assert(r0[a] < e);
                } else if a < pos {
                    assert(r0[a] < e);
                    assert(r0[pos as int] <= r0[b - 1]);
                } else if a == pos {
                    assert(r0[pos as int] <= r0[b - 1]);
                } else {
                    assert(r0[a - 1] < r0[b - 1]);
                }
            }
            assert forall|x: u64| r@.contains(x) <==> v@.subrange(0, i + 1).contains(x) by {
                assert(v@.subrange(0, i + 1) =~= v@.subrange(0, i as int).push(e));
                if r@.contains(x) {
                    let k = choose|k: int| 0 <= k < r@.len() && r@[k] == x;
                    if k < pos {
                        assert(r0[k] == x);
                    } else if k > pos {
                        assert(r0[k - 1] == x);
                    }
                }
                if r0.contains(x) {
                    let k = choose|k: int| 0 <= k < r0.len() && r0[k] == x;
                    if k < pos {
                        assert(r@[k] == x);
                    } else {
                        assert(r@[k + 1] == x);
                    }
                }
                if x == e {
                    assert(r@[pos as int] == e);
                }
            }
        }
        i = i + 1;
    }
    assert(v@.subrange(0, v@.len() as int) =~= v@);
    assert(r@.to_set() =~= v@.to_set());
    r
}

} // verus!
