//! Biconnected components of an undirected graph, by a depth-first walk that
//! tracks each vertex's depth and lowpoint.
use vstd::prelude::*;

use crate::collections::{u64_map_contents, u64_map_get, u64_map_insert, u64_map_new, u64_set_contains, u64_set_contents, u64_set_elements, u64_set_insert, u64_set_new, uadj_succ, U64Map, U64Set};
use crate::graph::ugraph::{is_symmetric, sort_increasing, strictly_increasing, UGraph};

verus! {

broadcast use vstd::seq_lib::group_seq_properties, vstd::set_lib::group_set_lib_default, vstd::set::group_set_axioms;

/// A list of vertices of the graph `dom`: at least `min_len` of them, in
/// increasing order.
pub open spec fn vertex_list(dom: Set<u64>, c: Seq<u64>, min_len: nat) -> bool {
    &&& c.len() >= min_len
    &&& strictly_increasing(c)
    &&& forall|i: int| 0 <= i < c.len() ==> dom.contains(#[trigger] c[i])
}

/// Whether two lists are equal.
fn same_list(a: &Vec<u64>, b: &Vec<u64>) -> (r: bool)
    ensures
        r == (a@ == b@),
{
    if a.len() != b.len() {
        return false;
    }
    let mut i: usize = 0;
    while i < a.len()
        invariant
            a@.len() == b@.len(),
            0 <= i <= a@.len(),
            forall|j: int| 0 <= j < i ==> #[trigger] a@[j] == b@[j],
        decreases a@.len() - i,
    {
        if a[i] != b[i] {
            return false;
        }
        i = i + 1;
    }
    assert(a@ =~= b@);
    true
}

/// Some list of `cs` equals `x`.
pub open spec fn has_list(cs: Seq<Vec<u64>>, x: Seq<u64>) -> bool {
    exists|i: int| 0 <= i < cs.len() && #[trigger] cs[i]@ == x
}

/// No two lists of `cs` are equal.
pub open spec fn distinct_lists(cs: Seq<Vec<u64>>) -> bool {
    forall|i: int, j: int| 0 <= i < j < cs.len() ==> #[trigger] cs[i]@ != #[trigger] cs[j]@
}

/// Adds `c` to `set` unless an equal list is there already.
fn insert_list(set: &mut Vec<Vec<u64>>, c: Vec<u64>)
    ensures
        forall|x: Seq<u64>| #[trigger] has_list(final(set)@, x) <==> has_list(old(set)@, x) || x == c@,
        forall|i: int| 0 <= i < old(set)@.len() ==> #[trigger] final(set)@[i] == old(set)@[i],
        final(set)@.len() == old(set)@.len() || (final(set)@.len() == old(set)@.len() + 1 && final(set)@.last()@ == c@),
        distinct_lists(old(set)@) ==> distinct_lists(final(set)@),
{
    let mut i: usize = 0;
    while i < set.len()
        invariant
            0 <= i <= set@.len(),
            forall|j: int| 0 <= j < i ==> #[trigger] set@[j]@ != c@,
        decreases set@.len() - i,
    {
        if same_list(&set[i], &c) {
            return;
        }
        i = i + 1;
    }
    let ghost s0 = set@;
    set.push(c);
    assert forall|x: Seq<u64>| #[trigger] has_list(set@, x) <==> has_list(s0, x) || x == set@.last()@ by {
        if exists|i: int| 0 <= i < set@.len() && #[trigger] set@[i]@ == x {
            let i = choose|i: int| 0 <= i < set@.len() && #[trigger] set@[i]@ == x;
            if i < s0.len() {
                assert(s0[i]@ == x);
            }
        }
        if exists|i: int| 0 <= i < s0.len() && #[trigger] s0[i]@ == x {
            let i = choose|i: int| 0 <= i < s0.len() && #[trigger] s0[i]@ == x;
            assert(set@[i]@ == x);
        }
        if x == set@.last()@ {
            assert(set@[set@.len() - 1]@ == x);
        }
    }
    assert(distinct_lists(s0) ==> distinct_lists(set@)) by {
        if distinct_lists(s0) {
            assert forall|i: int, j: int| 0 <= i < j < set@.len() implies #[trigger] set@[i]@ != #[trigger] set@[j]@ by {
                if j == set@.len() - 1 {
                    assert(set@[i]@ != c@);
                } else {
                    assert(s0[i]@ != s0[j]@);
                }
            }
        }
    }
}

/// The set `{a, b}` listed in increasing order.
pub open spec fn pair_list(a: u64, b: u64) -> Seq<u64> {
    if a < b {
        seq![a, b]
    } else if a == b {
        seq![a]
    } else {
        seq![b, a]
    }
}

/// What vertex `v` contributes to the non-groups: `[v]` when it has no
/// neighbour, and the set of `v` and `p` when `p` is its only neighbour and
/// `v` the only neighbour of `p`.
pub open spec fn non_group_of(g: Map<u64, Set<u64>>, v: u64, c: Seq<u64>) -> bool {
    ||| (uadj_succ(g, v) == Set::<u64>::empty() && c == seq![v])
    ||| exists|p: u64| #![trigger uadj_succ(g, p)] uadj_succ(g, v) == set![p] && uadj_succ(g, p) == set![v] && c == pair_list(v, p)
}

/// The state of a depth-first walk that splits a graph into biconnected
/// components.
pub struct BiconnectedComponentWalker<'a> {
    graph: &'a UGraph,
    visited: U64Set,
    depth: U64Map,
    lowpoint: U64Map,
    parent: U64Map,
    dfs_stack: Vec<u64>,
    components: Vec<Vec<u64>>,
    articulation_points: U64Set,
    non_group: Vec<Vec<u64>>,
}

impl<'a> BiconnectedComponentWalker<'a> {
    /// The bookkeeping of the walk is consistent: visited vertices are
    /// vertices with a depth and a lowpoint; the stack holds visited
    /// vertices, each once; components are lists of at least two vertices.
    spec fn wf(&self) -> bool {
        let g = self.graph@;
        let vis = u64_set_contents(self.visited);
        &&& is_symmetric(g)
        &&& g.dom().finite()
        &&& g.dom().len() <= u64::MAX
        &&& vis.subset_of(g.dom())
        &&& forall|u: u64| #[trigger] vis.contains(u) ==> u64_map_contents(self.depth).dom().contains(u)
            && u64_map_contents(self.lowpoint).dom().contains(u)
        &&& self.dfs_stack@.no_duplicates()
        &&& forall|i: int| 0 <= i < self.dfs_stack@.len() ==> vis.contains(#[trigger] self.dfs_stack@[i])
        &&& forall|i: int| 0 <= i < self.components@.len() ==> vertex_list(g.dom(), #[trigger] self.components@[i]@, 2)
        &&& distinct_lists(self.components@)
        &&& u64_set_contents(self.articulation_points).subset_of(g.dom())
    }

    /// Walks from `vertex` at `depth`, unless it is visited already. Each
    /// time the subtree of a child cannot reach above `vertex`, the stack is
    /// popped down to `vertex` into a new component and `vertex` is recorded
    /// as an articulation point.
    fn vertex_components_helper(&mut self, vertex: u64, depth: u64)
        requires
            old(self).wf(),
            old(self).graph@.dom().contains(vertex),
            depth <= u64_set_contents(old(self).visited).len(),
        ensures
            final(self).wf(),
            final(self).graph == old(self).graph,
            final(self).non_group == old(self).non_group,
            u64_set_contents(old(self).visited).subset_of(u64_set_contents(final(self).visited)),
            u64_set_contents(final(self).visited).contains(vertex),
            forall|u: u64| u64_set_contents(old(self).visited).contains(u)
                ==> #[trigger] u64_map_contents(final(self).depth)[u] == u64_map_contents(old(self).depth)[u],
            u64_set_contents(old(self).visited).contains(vertex) ==> final(self).dfs_stack@ == old(self).dfs_stack@,
            !u64_set_contents(old(self).visited).contains(vertex) && depth != 0 ==> {
                &&& final(self).dfs_stack@.len() > old(self).dfs_stack@.len()
                &&& final(self).dfs_stack@.subrange(0, old(self).dfs_stack@.len() + 1int) == old(self).dfs_stack@.push(vertex)
            },
            depth == 0 ==> final(self).dfs_stack@ == old(self).dfs_stack@,
        decreases old(self).graph@.dom().difference(u64_set_contents(old(self).visited)).len(),
    {
        let ghost g = self.graph@;
        let ghost v_old = u64_set_contents(self.visited);
        let ghost s_old = self.dfs_stack@;
        let ghost d_old = u64_map_contents(self.depth);
        if !u64_set_insert(&mut self.visited, vertex) {
            assert(u64_set_contents(self.visited) =~= v_old);
            return;
        }
        u64_map_insert(&mut self.depth, vertex, depth);
        u64_map_insert(&mut self.lowpoint, vertex, depth);
        self.dfs_stack.push(vertex);
        proof {
            assert forall|u: u64| #[trigger] u64_set_contents(self.visited).contains(u) implies u64_map_contents(self.depth).dom().contains(u)
                && u64_map_contents(self.lowpoint).dom().contains(u) by {}
            assert(self.dfs_stack@.no_duplicates()) by {
                assert forall|i: int, j: int| 0 <= i < j < self.dfs_stack@.len() implies self.dfs_stack@[i] != self.dfs_stack@[j] by {
                    if j == self.dfs_stack@.len() - 1 {
                        assert(v_old.contains(s_old[i]));
                    } else {
                        assert(s_old[i] != s_old[j]);
                    }
                }
            }
            assert(self.dfs_stack@.subrange(0, s_old.len() + 1int) =~= s_old.push(vertex));
        }
        // neighbours in increasing order, so that the walk is the same on
        // every run
        let ns = sort_increasing(self.graph.neighbours(vertex));
        let mut k: usize = 0;
        while k < ns.len()
            invariant
                0 <= k <= ns@.len(),
                ns@.to_set() == uadj_succ(g, vertex),
                self.wf(),
                self.graph == old(self).graph,
                self.graph@ == g,
                v_old == u64_set_contents(old(self).visited),
                g.dom().contains(vertex),
                v_old.subset_of(u64_set_contents(self.visited)),
                !v_old.contains(vertex),
                u64_set_contents(self.visited).contains(vertex),
                depth <= v_old.len(),
                u64_map_contents(self.depth)[vertex] == depth,
                forall|u: u64| v_old.contains(u) ==> #[trigger] u64_map_contents(self.depth)[u] == d_old[u],
                self.dfs_stack@.len() > s_old.len(),
                self.dfs_stack@.subrange(0, s_old.len() + 1int) == s_old.push(vertex),
                depth == 0 ==> self.dfs_stack@ == s_old.push(vertex),
                self.non_group == old(self).non_group,
            decreases ns@.len() - k,
        {
            let neighbor = ns[k];
            assert(ns@.to_set().contains(neighbor));
            if !u64_set_contains(&self.visited, neighbor) {
                let ghost v_now = u64_set_contents(self.visited);
                let ghost s_now = self.dfs_stack@;
                proof {
                    assert(g.dom().contains(neighbor));
                    vstd::set_lib::lemma_len_subset(v_now, g.dom());
                    vstd::set_lib::lemma_len_subset(v_old.insert(vertex), v_now);
                    vstd::set_lib::lemma_len_subset(v_now.insert(neighbor), g.dom());
                    let rest = g.dom().difference(v_old);
                    assert(g.dom().difference(v_now).subset_of(rest.remove(vertex)));
                    vstd::set_lib::lemma_len_subset(rest, g.dom());
                    assert(rest.contains(vertex));
                    assert(rest.remove(vertex).len() == rest.len() - 1);
                    vstd::set_lib::lemma_len_subset(g.dom().difference(v_now), rest.remove(vertex));
                    assert(g.dom().difference(v_now).len() < rest.len());
                }
                u64_map_insert(&mut self.parent, neighbor, vertex);
                assert(self.graph@.dom().difference(u64_set_contents(self.visited)).len()
                    < old(self).graph@.dom().difference(u64_set_contents(old(self).visited)).len());
                self.vertex_components_helper(neighbor, depth + 1);
                let ghost s_child = self.dfs_stack@;
                proof {
                    assert(s_child.subrange(0, s_now.len() + 1int) == s_now.push(neighbor));
                    assert(s_now.subrange(0, s_old.len() + 1int) == s_old.push(vertex));
                    assert forall|j: int| 0 <= j < s_old.len() + 1 implies s_child[j] == #[trigger] s_old.push(vertex)[j] by {
                        assert(s_child.subrange(0, s_now.len() + 1int)[j] == s_now.push(neighbor)[j]);
                        assert(s_now.subrange(0, s_old.len() + 1int)[j] == s_old.push(vertex)[j]);
                    }
                    assert(s_child.subrange(0, s_old.len() + 1int) =~= s_old.push(vertex));
                    assert(s_child.subrange(0, s_now.len() + 1int)[s_now.len() as int] == s_now.push(neighbor)[s_now.len() as int]);
                    assert(s_child[s_now.len() as int] == neighbor);
                }
                let low_n = u64_map_get(&self.lowpoint, neighbor).unwrap();
                let depth_v = u64_map_get(&self.depth, vertex).unwrap();
                if low_n >= depth_v {
                    let mut component: Vec<u64> = Vec::new();
                    let ghost w0 = *self;
                    proof {
                        assert(component@ =~= s_child.subrange(s_child.len() as int, s_child.len() as int).reverse());
                        assert(self.dfs_stack@ =~= s_child.subrange(0, s_child.len() as int));
                    }
                    loop
                        invariant_except_break
                            s_old.len() < self.dfs_stack@.len(),
                        invariant
                            self.wf(),
                            self.graph == w0.graph,
                            self.visited == w0.visited,
                            self.depth == w0.depth,
                            self.lowpoint == w0.lowpoint,
                            self.parent == w0.parent,
                            self.components == w0.components,
                            self.articulation_points == w0.articulation_points,
                            self.non_group == w0.non_group,
                            s_child.no_duplicates(),
                            s_child.len() > s_now.len() >= s_old.len() + 1,
                            s_child[s_old.len() as int] == vertex,
                            s_child.subrange(0, s_old.len() + 1int) == s_old.push(vertex),
                            self.dfs_stack@.len() <= s_child.len(),
                            self.dfs_stack@ == s_child.subrange(0, self.dfs_stack@.len() as int),
                            component@ == s_child.subrange(self.dfs_stack@.len() as int, s_child.len() as int).reverse(),
                        ensures
                            self.wf(),
                            self.graph == w0.graph,
                            self.visited == w0.visited,
                            self.depth == w0.depth,
                            self.lowpoint == w0.lowpoint,
                            self.parent == w0.parent,
                            self.components == w0.components,
                            self.articulation_points == w0.articulation_points,
                            self.non_group == w0.non_group,
                            self.dfs_stack@ == s_old,
                            component@ == s_child.subrange(s_old.len() as int, s_child.len() as int).reverse(),
                        decreases self.dfs_stack@.len(),
                    {
                        let ghost before = self.dfs_stack@;
                        match self.dfs_stack.pop() {
                            Some(v) => {
                                proof {
                                    assert(before =~= self.dfs_stack@.push(v));
                                    assert(v == s_child[self.dfs_stack@.len() as int]);
                                    assert(s_child.subrange(self.dfs_stack@.len() as int, s_child.len() as int).reverse()
                                        =~= s_child.subrange(before.len() as int, s_child.len() as int).reverse().push(v));
                                    assert(self.dfs_stack@ =~= s_child.subrange(0, self.dfs_stack@.len() as int));
                                    if self.dfs_stack@.len() > s_old.len() {
                                        assert(s_child[self.dfs_stack@.len() as int] != s_child[s_old.len() as int]);
                                    } else {
                                        assert(self.dfs_stack@ =~= s_old);
                                    }
                                    assert forall|i: int| 0 <= i < self.dfs_stack@.len() implies u64_set_contents(self.visited).contains(#[trigger] self.dfs_stack@[i]) by {
                                        assert(self.dfs_stack@[i] == before[i]);
                                    }
                                }
                                component.push(v);
                                if v == vertex {
                                    break;
                                }
                            },
                            None => {
                                assert(false);
                                break;
                            },
                        }
                    }
                    proof {
                        let seg = s_child.subrange(s_old.len() as int, s_child.len() as int);
                        assert(seg.no_duplicates()) by {
                            assert forall|i: int, j: int| 0 <= i < j < seg.len() implies seg[i] != seg[j] by {
                                assert(s_child[s_old.len() + i] != s_child[s_old.len() + j]);
                            }
                        }
                        assert(component@.no_duplicates()) by {
                            assert forall|i: int, j: int| 0 <= i < j < component@.len() implies component@[i] != component@[j] by {
                                assert(component@[i] == seg[seg.len() - 1 - i]);
                                assert(component@[j] == seg[seg.len() - 1 - j]);
                            }
                        }
                        assert(component@.contains(vertex)) by {
                            assert(component@[seg.len() - 1] == seg[0]);
                        }
                        assert(component@.contains(neighbor)) by {
                            assert(component@[seg.len() - 1 - (s_now.len() - s_old.len())] == seg[s_now.len() - s_old.len()]);
                        }
                    }
                    let sorted = sort_increasing(component);
                    proof {
                        assert(sorted@.to_set().contains(vertex));
                        assert(sorted@.to_set().contains(neighbor));
                        assert(sorted@.len() >= 2) by {
                            if sorted@.len() < 2 {
                                assert(sorted@.contains(vertex));
                                assert(sorted@.contains(neighbor));
                                let a = choose|a: int| 0 <= a < sorted@.len() && sorted@[a] == vertex;
                                let b = choose|b: int| 0 <= b < sorted@.len() && sorted@[b] == neighbor;
                            }
                        }
                        assert forall|i: int| 0 <= i < sorted@.len() implies g.dom().contains(#[trigger] sorted@[i]) by {
                            assert(sorted@.to_set().contains(sorted@[i]));
                            assert(component@.contains(sorted@[i]));
                            let j = choose|j: int| 0 <= j < component@.len() && component@[j] == sorted@[i];
                            let seg = s_child.subrange(s_old.len() as int, s_child.len() as int);
                            assert(component@[j] == seg[seg.len() - 1 - j]);
                            assert(u64_set_contents(self.visited).contains(s_child[s_old.len() + seg.len() - 1 - j]));
                        }
                    }
                    let ghost comps0 = self.components@;
                    insert_list(&mut self.components, sorted);
                    proof {
                        assert forall|i: int| 0 <= i < self.components@.len() implies vertex_list(g.dom(), #[trigger] self.components@[i]@, 2) by {
                            if i < comps0.len() {
                                assert(self.components@[i] == comps0[i]);
                            }
                        }
                    }
                    self.dfs_stack.push(vertex);
                    u64_set_insert(&mut self.articulation_points, vertex);
                    proof {
                        assert(self.dfs_stack@ == s_old.push(vertex));
                        assert(self.dfs_stack@.subrange(0, s_old.len() + 1int) =~= s_old.push(vertex));
                        assert(self.dfs_stack@.no_duplicates()) by {
                            assert forall|i: int, j: int| 0 <= i < j < self.dfs_stack@.len() implies self.dfs_stack@[i] != self.dfs_stack@[j] by {
                                assert(s_child[i] != s_child[j]);
                            }
                        }
                        assert forall|i: int| 0 <= i < self.dfs_stack@.len() implies u64_set_contents(self.visited).contains(#[trigger] self.dfs_stack@[i]) by {
                            assert(self.dfs_stack@[i] == s_child[i]);
                        }
                    }
                } else {
                    proof {
                        // only a root compares a lowpoint with depth zero
                        assert(depth != 0);
                    }
                }
                let low_v = u64_map_get(&self.lowpoint, vertex).unwrap();
                let low_n = u64_map_get(&self.lowpoint, neighbor).unwrap();
                u64_map_insert(&mut self.lowpoint, vertex, if low_v < low_n { low_v } else { low_n });
            } else if u64_map_get(&self.parent, vertex) != Some(neighbor) {
                let low_v = u64_map_get(&self.lowpoint, vertex).unwrap();
                let depth_n = u64_map_get(&self.depth, neighbor).unwrap();
                u64_map_insert(&mut self.lowpoint, vertex, if low_v < depth_n { low_v } else { depth_n });
            }
            k = k + 1;
        }
        if depth == 0 {
            let top = self.dfs_stack.pop();
            proof {
                assert(top == Some(vertex));
                assert(self.dfs_stack@ =~= s_old);
            }
        }
    }

    /// Splits the graph into its non-trivial biconnected components, found
    /// by depth-first walks from each vertex with two neighbours or more in
    /// increasing order, and its non-groups: isolated vertices and isolated
    /// pairs. Returns the articulation points met (each once; the start of
    /// a walk is always one of them), the components (each once, in
    /// increasing order), and the non-groups (each once).
    pub fn get_vertex_components(graph: &'a UGraph) -> (r: (Vec<u64>, Vec<Vec<u64>>, Vec<Vec<u64>>))
        ensures
            r.0@.no_duplicates(),
            forall|i: int| 0 <= i < r.0@.len() ==> graph@.dom().contains(#[trigger] r.0@[i]),
            distinct_lists(r.1@),
            forall|i: int| 0 <= i < r.1@.len() ==> vertex_list(graph@.dom(), #[trigger] r.1@[i]@, 2),
            distinct_lists(r.2@),
            forall|c: Seq<u64>| #[trigger] has_list(r.2@, c) <==> exists|v: u64| graph@.dom().contains(v) && #[trigger] non_group_of(graph@, v, c),
    {
        let ghost g = graph@;
        let verts = graph.vertices();
        let n_verts = verts.len();
        proof {
            vstd::seq_lib::seq_to_set_is_finite(verts@);
            verts@.unique_seq_to_set();
            assert(g.dom().len() == n_verts);
        }
        let all = sort_increasing(verts);
        let mut solver = BiconnectedComponentWalker {
            graph,
            visited: u64_set_new(),
            depth: u64_map_new(),
            lowpoint: u64_map_new(),
            parent: u64_map_new(),
            dfs_stack: Vec::new(),
            components: Vec::new(),
            articulation_points: u64_set_new(),
            non_group: Vec::new(),
        };
        proof {
            assert(u64_set_contents(solver.visited) =~= Set::<u64>::empty());
        }
        let mut idx: usize = 0;
        while idx < all.len()
            invariant
                solver.wf(),
                solver.graph == graph,
                g == graph@,
                all@.to_set() == g.dom(),
                0 <= idx <= all@.len(),
                solver.dfs_stack@.len() == 0,
                distinct_lists(solver.non_group@),
                forall|c: Seq<u64>| #[trigger] has_list(solver.non_group@, c)
                    <==> exists|k: int| 0 <= k < idx && #[trigger] non_group_of(g, all@[k], c),
                forall|i: int| 0 <= i < solver.components@.len() ==> vertex_list(g.dom(), #[trigger] solver.components@[i]@, 2),
                distinct_lists(solver.components@),
            decreases all@.len() - idx,
        {
            let vertex = all[idx];
            proof {
                assert(all@.to_set().contains(vertex));
            }
            let ns = graph.neighbours(vertex);
            proof {
                ns@.unique_seq_to_set();
            }
            let ghost ng0 = solver.non_group@;
            if ns.len() == 0 {
                let mut single: Vec<u64> = Vec::new();
                single.push(vertex);
                proof {
                    assert(uadj_succ(g, vertex) =~= Set::<u64>::empty());
                    assert(single@ =~= seq![vertex]);
                }
                insert_list(&mut solver.non_group, single);
                proof {
                    assert forall|c: Seq<u64>| #[trigger] has_list(solver.non_group@, c) <==> has_list(ng0, c) || non_group_of(g, vertex, c) by {
                        if exists|p: u64| #![trigger uadj_succ(g, p)] uadj_succ(g, vertex) == set![p] && uadj_succ(g, p) == set![vertex]
                            && c == pair_list(vertex, p) {
                            let p = choose|p: u64| #![trigger uadj_succ(g, p)] uadj_succ(g, vertex) == set![p] && uadj_succ(g, p) == set![vertex]
                                && c == pair_list(vertex, p);
                            assert(set![p].contains(p));
                        }
                    }
                }
            } else if ns.len() == 1 {
                let partner = ns[0];
                proof {
                    assert(ns@.to_set() =~= set![partner]);
                }
                let pn = graph.neighbours(partner);
                proof {
                    pn@.unique_seq_to_set();
                    assert(ns@.to_set().contains(partner));
                    assert(uadj_succ(g, vertex).contains(partner));
                    assert(uadj_succ(g, partner).contains(vertex));
                }
                if pn.len() == 1 {
                    proof {
                        assert(pn@.to_set().contains(vertex));
                        assert(pn@[0] == vertex);
                        assert(pn@.to_set() =~= set![vertex]);
                    }
                    let mut pair: Vec<u64> = Vec::new();
                    if vertex < partner {
                        pair.push(vertex);
                        pair.push(partner);
                    } else if vertex == partner {
                        pair.push(vertex);
                    } else {
                        pair.push(partner);
                        pair.push(vertex);
                    }
                    proof {
                        assert(pair@ =~= pair_list(vertex, partner));
                    }
                    insert_list(&mut solver.non_group, pair);
                    proof {
                        assert forall|c: Seq<u64>| #[trigger] has_list(solver.non_group@, c) <==> has_list(ng0, c) || non_group_of(g, vertex, c) by {
                            assert(set![partner].contains(partner));
                            if exists|p: u64| #![trigger uadj_succ(g, p)] uadj_succ(g, vertex) == set![p] && uadj_succ(g, p) == set![vertex]
                                && c == pair_list(vertex, p) {
                                let p = choose|p: u64| #![trigger uadj_succ(g, p)] uadj_succ(g, vertex) == set![p] && uadj_succ(g, p) == set![vertex]
                                    && c == pair_list(vertex, p);
                                assert(set![p].contains(p));
                                assert(set![partner].contains(p));
                            }
                            if c == pair@ {
                                assert(uadj_succ(g, vertex) == set![partner] && uadj_succ(g, partner) == set![vertex]);
                            }
                        }
                    }
                } else {
                    proof {
                        assert forall|c: Seq<u64>| #[trigger] has_list(solver.non_group@, c) <==> has_list(ng0, c) || non_group_of(g, vertex, c) by {
                            assert(set![partner].contains(partner));
                            if exists|p: u64| #![trigger uadj_succ(g, p)] uadj_succ(g, vertex) == set![p] && uadj_succ(g, p) == set![vertex]
                                && c == pair_list(vertex, p) {
                                let p = choose|p: u64| #![trigger uadj_succ(g, p)] uadj_succ(g, vertex) == set![p] && uadj_succ(g, p) == set![vertex]
                                    && c == pair_list(vertex, p);
                                assert(set![p].contains(p));
                                assert(set![partner].contains(p));
                                assert(p == partner);
                                assert(set![vertex].len() == 1);
                            }
                        }
                    }
                }
            } else {
                solver.vertex_components_helper(vertex, 0);
                proof {
                    assert(ns@.to_set().contains(ns@[0]));
                    assert forall|c: Seq<u64>| #[trigger] has_list(solver.non_group@, c) <==> has_list(ng0, c) || non_group_of(g, vertex, c) by {
                        if exists|p: u64| #![trigger uadj_succ(g, p)] uadj_succ(g, vertex) == set![p] && uadj_succ(g, p) == set![vertex]
                            && c == pair_list(vertex, p) {
                            let p = choose|p: u64| #![trigger uadj_succ(g, p)] uadj_succ(g, vertex) == set![p] && uadj_succ(g, p) == set![vertex]
                                && c == pair_list(vertex, p);
                            assert(set![p].len() == 1);
                        }
                    }
                }
            }
            proof {
                let added = solver.non_group@;
                assert(all@[idx as int] == vertex);
                assert forall|c: Seq<u64>| #[trigger] has_list(added, c)
                    <==> exists|k: int| 0 <= k < idx + 1 && #[trigger] non_group_of(g, all@[k], c) by {
                    if exists|k: int| 0 <= k < idx + 1 && #[trigger] non_group_of(g, all@[k], c) {
                        let k = choose|k: int| 0 <= k < idx + 1 && #[trigger] non_group_of(g, all@[k], c);
                        if k < idx {
                            assert(has_list(ng0, c));
                        }
                    }
                    if has_list(ng0, c) {
                        let k = choose|k: int| 0 <= k < idx && #[trigger] non_group_of(g, all@[k], c);
                        assert(0 <= k < idx + 1);
                    }
                }
            }
            idx = idx + 1;
        }
        proof {
            assert forall|c: Seq<u64>| #[trigger] has_list(solver.non_group@, c)
                <==> exists|v: u64| g.dom().contains(v) && #[trigger] non_group_of(g, v, c) by {
                if has_list(solver.non_group@, c) {
                    let k = choose|k: int| 0 <= k < all@.len() && #[trigger] non_group_of(g, all@[k], c);
                    assert(all@.to_set().contains(all@[k]));
                }
                if exists|v: u64| g.dom().contains(v) && #[trigger] non_group_of(g, v, c) {
                    let v = choose|v: u64| g.dom().contains(v) && #[trigger] non_group_of(g, v, c);
                    assert(all@.to_set().contains(v));
                    let k = choose|k: int| 0 <= k < all@.len() && all@[k] == v;
                    assert(non_group_of(g, all@[k], c));
                }
            }
        }
        let aps = u64_set_elements(&solver.articulation_points);
        proof {
            assert forall|i: int| 0 <= i < aps@.len() implies g.dom().contains(#[trigger] aps@[i]) by {
                assert(aps@.to_set().contains(aps@[i]));
            }
        }
        (aps, solver.components, solver.non_group)
    }
}

} // verus!
