//! Causal consistency: visibility holds the session order and the write-read
//! relation, is transitive, and holds every write-write edge that it forces.
//! The check computes the least such relation by saturation and tests it for
//! acyclicity.
use vstd::prelude::*;
use vstd::set_lib::*;

use crate::consistency::error::Error;
use crate::consistency::saturation::committed_read::committed_order;
use crate::consistency::Consistency;
use crate::graph::digraph::{acyclic_rel, edge_pairs, edge_set, has_edge_spec, is_transitive, lemma_reaches_in_transitive, ranks_rel, reaches, DiGraph};
use crate::history::atomic::types::{atomic_ok, atomic_view_of, AtomicTransactionHistory, AtomicView, TransactionId};
use crate::history::atomic::{mentions_var, so_rel, txn_mentions, wr_rel, writes_var, ww_edge, ww_rel, ww_rel_of, AtomicTransactionPO};
use crate::history::raw::types::Session;
use crate::label::Label;

verus! {

/// A relation that Causal consistency accepts as visibility: it holds the
/// session order and the write-read relation, is transitive, and holds every
/// write-write edge it forces.
pub open spec fn causally_closed(av: AtomicView, r: Set<((u64, u64), (u64, u64))>) -> bool {
    &&& so_rel(av).subset_of(r)
    &&& wr_rel(av).subset_of(r)
    &&& is_transitive(r)
    &&& ww_rel(av, r).subset_of(r)
}

/// Some acyclic relation is causally closed.
pub open spec fn causal_ok(av: AtomicView) -> bool {
    exists|r: Set<((u64, u64), (u64, u64))>| #[trigger] causally_closed(av, r) && acyclic_rel(r)
}

/// Every pair of elements of two finite types forms a finite type.
pub proof fn lemma_full_pair_finite<A, B>()
    requires
        Set::<A>::full().finite(),
        Set::<B>::full().finite(),
    ensures
        Set::<(A, B)>::full().finite(),
{
    let fa = Set::<A>::full();
    let fb = Set::<B>::full();
    let f = |a: A| fb.map(|b: B| (a, b));
    let rows = fa.map(f);
    fa.lemma_map_finite(f);
    assert forall|s: Set<(A, B)>| rows.contains(s) implies #[trigger] s.finite() by {
        let a = choose|a: A| fa.contains(a) && f(a) == s;
        fb.lemma_map_finite(|b: B| (a, b));
    }
    rows.lemma_flatten_finite();
    assert(rows.flatten() =~= Set::<(A, B)>::full()) by {
        assert forall|p: (A, B)| #[trigger] Set::<(A, B)>::full().contains(p) implies rows.flatten().contains(p) by {
            let s = f(p.0);
            assert(fa.contains(p.0));
            assert(rows.contains(s));
            assert(fb.contains(p.1));
            assert(s.contains(p));
        }
    }
}

/// Every relation over transaction identifiers is finite.
pub proof fn lemma_edges_finite(r: Set<((u64, u64), (u64, u64))>)
    ensures
        r.finite(),
        r.len() <= Set::<((u64, u64), (u64, u64))>::full().len(),
{
    broadcast use full_set_properties;
    assert(Set::<u64>::full().finite());
    lemma_full_pair_finite::<u64, u64>();
    lemma_full_pair_finite::<(u64, u64), (u64, u64)>();
    let full = Set::<((u64, u64), (u64, u64))>::full();
    assert(r.subset_of(full));
    lemma_len_subset(r, full);
}

/// The write-write rule is monotone in the visibility it reads.
pub proof fn lemma_ww_monotone(av: AtomicView, a: Set<((u64, u64), (u64, u64))>, b: Set<((u64, u64), (u64, u64))>)
    requires
        a.subset_of(b),
    ensures
        ww_rel(av, a).subset_of(ww_rel(av, b)),
{
    assert forall|p: ((u64, u64), (u64, u64))| #[trigger] ww_rel(av, a).contains(p) implies ww_rel(av, b).contains(p) by {
        let x = choose|x: Seq<char>| #[trigger] ww_edge(av, a, x, p.0, p.1);
        assert(ww_edge(av, b, x, p.0, p.1));
    }
}

/// A relation that holds a cyclic one is cyclic.
pub proof fn lemma_acyclic_subset(a: Set<((u64, u64), (u64, u64))>, b: Set<((u64, u64), (u64, u64))>)
    requires
        a.subset_of(b),
        acyclic_rel(b),
    ensures
        acyclic_rel(a),
{
    let rank = choose|rank: spec_fn((u64, u64)) -> int| #[trigger] ranks_rel(b, rank);
    assert(ranks_rel(a, rank));
}

/// Checks whether a history satisfies Causal consistency.
///
/// On success, returns the partial order whose visibility relation is the
/// least causally closed relation, which is acyclic.
///
/// # Errors
///
/// - [`Error::NonAtomic`], or [`Error::Cycle`] at Read Committed, if the
///   history has no valid atomic abstraction;
/// - [`Error::Cycle`] at Causal with an edge on a cycle of the least causally
///   closed relation; then every causally closed relation has a cycle.
#[verifier::loop_isolation(false)]
pub fn check_causal_read<V: Label>(histories: &[Session<V, u64>]) -> (r: Result<AtomicTransactionPO<V>, Error<V, u64>>)
    ensures
        r.is_ok() <==> atomic_ok(histories@) && causal_ok(atomic_view_of(histories@)),
        r matches Ok(po) ==> {
            &&& po.well_formed()
            &&& po.av() == atomic_view_of(histories@)
            &&& causally_closed(po.av(), po.vis())
            &&& acyclic_rel(po.vis())
            &&& forall|q: Set<((u64, u64), (u64, u64))>| #[trigger] causally_closed(po.av(), q) ==> po.vis().subset_of(q)
        },
        r matches Err(Error::NonAtomic(_)) ==> !atomic_ok(histories@),
        r matches Err(Error::Cycle { level, a, b }) ==> (level == Consistency::CommittedRead && !atomic_ok(histories@)
            && committed_order(histories@).contains((a@, b@)))
            || (level == Consistency::Causal && atomic_ok(histories@) && !causal_ok(atomic_view_of(histories@))),
        !(r matches Err(Error::Invalid(_))),
{
    let ghost h = histories@;
    let ah = match AtomicTransactionHistory::try_from(histories) {
        Err(e) => return Err(e),
        Ok(ah) => ah,
    };
    let ghost av = atomic_view_of(h);
    let mut po = AtomicTransactionPO::from(ah);
    let wr = po.get_wr();
    po.vis_includes(&wr);
    let ghost v1 = po.vis();
    po.vis_is_trans();
    proof {
        assert forall|q: Set<((u64, u64), (u64, u64))>| #[trigger] causally_closed(av, q) implies po.vis().subset_of(q) by {
            assert(v1.subset_of(q));
            assert forall|p: ((u64, u64), (u64, u64))| po.vis().contains(p) implies q.contains(p) by {
                assert(po.vis().contains((p.0, p.1)));
                assert(reaches(v1, p.0, p.1));
                assert(q.contains((p.0, p.1)));
            }
        }
        lemma_edges_finite(po.vis());
    }
    let ghost full = Set::<((u64, u64), (u64, u64))>::full();
    loop
        invariant
            po.well_formed(),
            po.av() == av,
            atomic_ok(h),
            so_rel(av).subset_of(po.vis()),
            wr_rel(av).subset_of(po.vis()),
            is_transitive(po.vis()),
            forall|q: Set<((u64, u64), (u64, u64))>| #[trigger] causally_closed(av, q) ==> po.vis().subset_of(q),
        decreases full.len() - po.vis().len(),
    {
        let ghost vis = po.vis();
        let ww = po.causal_ww();
        let mut new_edges: Vec<(TransactionId, TransactionId)> = Vec::new();
        let mut i: usize = 0;
        while i < ww.len()
            invariant
                0 <= i <= ww@.len(),
                vis == po.vis(),
                forall|j: int| 0 <= j < new_edges@.len() ==> #[trigger] ww_rel(av, vis).contains(edge_pairs(new_edges@)[j])
                    && !vis.contains(edge_pairs(new_edges@)[j]),
                forall|k: int, p: ((u64, u64), (u64, u64))| 0 <= k < i && #[trigger] edge_set(ww@[k].1.view()).contains(p)
                    ==> vis.contains(p) || edge_pairs(new_edges@).contains(p),
            decreases ww@.len() - i,
        {
            let edges = ww[i].1.to_edge_list();
            let mut j: usize = 0;
            while j < edges.len()
                invariant
                    0 <= i < ww@.len(),
                    0 <= j <= edges@.len(),
                    vis == po.vis(),
                    edge_pairs(edges@).to_set() == edge_set(ww@[i as int].1.view()),
                    forall|j2: int| 0 <= j2 < new_edges@.len() ==> #[trigger] ww_rel(av, vis).contains(edge_pairs(new_edges@)[j2])
                        && !vis.contains(edge_pairs(new_edges@)[j2]),
                    forall|k: int, p: ((u64, u64), (u64, u64))| 0 <= k < i && #[trigger] edge_set(ww@[k].1.view()).contains(p)
                        ==> vis.contains(p) || edge_pairs(new_edges@).contains(p),
                    forall|m: int| 0 <= m < j ==> vis.contains(#[trigger] edge_pairs(edges@)[m]) || edge_pairs(new_edges@).contains(edge_pairs(edges@)[m]),
                decreases edges@.len() - j,
            {
                let (a, b) = edges[j];
                assert(edge_pairs(edges@)[j as int] == (a@, b@));
                let seen = po.visibility_relation.has_edge(&a, &b);
                assert(seen == vis.contains((a@, b@)));
                if !seen {
                    let ghost n0 = new_edges@;
                    new_edges.push((a, b));
                    proof {
                        assert(edge_pairs(edges@).to_set().contains((a@, b@)));
                        let x = ww@[i as int].0.label();
                        assert(ww_rel_of(av, vis, po.write_read_relation@[i as int].0.label()).contains((a@, b@)));
                        assert(ww_edge(av, vis, po.write_read_relation@[i as int].0.label(), a@, b@));
                        assert(ww_rel(av, vis).contains((a@, b@)));
                        assert(edge_pairs(new_edges@) =~= edge_pairs(n0).push((a@, b@)));
                        assert forall|p: ((u64, u64), (u64, u64))| edge_pairs(n0).contains(p) implies edge_pairs(new_edges@).contains(p) by {
                            let k = choose|k: int| 0 <= k < edge_pairs(n0).len() && edge_pairs(n0)[k] == p;
                            assert(edge_pairs(new_edges@)[k] == p);
                        }
                        assert(edge_pairs(new_edges@)[n0.len() as int] == (a@, b@));
                    }
                }
                j = j + 1;
            }
            proof {
                assert forall|k: int, p: ((u64, u64), (u64, u64))| 0 <= k < i + 1 && #[trigger] edge_set(ww@[k].1.view()).contains(p)
                    implies vis.contains(p) || edge_pairs(new_edges@).contains(p) by {
                    if k == i {
                        assert(edge_pairs(edges@).to_set().contains(p));
                        let m = choose|m: int| 0 <= m < edge_pairs(edges@).len() && edge_pairs(edges@)[m] == p;
                        assert(vis.contains(edge_pairs(edges@)[m]) || edge_pairs(new_edges@).contains(edge_pairs(edges@)[m]));
                    }
                }
            }
            i = i + 1;
        }
        if new_edges.len() == 0 {
            proof {
                assert forall|p: ((u64, u64), (u64, u64))| #[trigger] ww_rel(av, vis).contains(p) implies vis.contains(p) by {
                    let x = choose|x: Seq<char>| #[trigger] ww_edge(av, vis, x, p.0, p.1);
                    assert(writes_var(av, p.1, x));
                    assert(txn_mentions(av, (p.1.0 - 1) as int, p.1.1 as int, x));
                    assert(mentions_var(av, x));
                    let k = choose|k: int| 0 <= k < po.write_read_relation@.len() && #[trigger] po.write_read_relation@[k].0.label() == x;
                    assert(ww_rel_of(av, vis, po.write_read_relation@[k].0.label()).contains(p));
                    assert(edge_set(ww@[k].1.view()).contains(p));
                }
            }
            break;
        }
        let ghost first = edge_pairs(new_edges@)[0];
        assert(ww_rel(av, vis).contains(edge_pairs(new_edges@)[0]));
        assert(!vis.contains(first));
        let ghost ns = edge_pairs(new_edges@).to_set();
        let ghost ne = new_edges@;
        po.vis_extend_closed(new_edges);
        proof {
            let v2 = po.vis();
            assert(v2.contains(edge_pairs(ne)[0]));
            assert(vis.subset_of(v2));
            // the least-fixpoint property carries over
            assert forall|q: Set<((u64, u64), (u64, u64))>| #[trigger] causally_closed(av, q) implies v2.subset_of(q) by {
                assert(vis.subset_of(q));
                lemma_ww_monotone(av, vis, q);
                assert(vis.union(ns).subset_of(q)) by {
                    assert forall|p: ((u64, u64), (u64, u64))| vis.union(ns).contains(p) implies q.contains(p) by {
                        if ns.contains(p) {
                            let j = choose|j: int| 0 <= j < edge_pairs(ne).len() && edge_pairs(ne)[j] == p;
                            assert(ww_rel(av, vis).contains(edge_pairs(ne)[j]));
                        }
                    }
                }
                assert forall|p: ((u64, u64), (u64, u64))| v2.contains(p) implies q.contains(p) by {
                    assert(v2.contains((p.0, p.1)));
                    assert(reaches(vis.union(ns), p.0, p.1));
                    assert(q.contains((p.0, p.1)));
                }
            }
            lemma_edges_finite(v2);
            lemma_edges_finite(vis);
            assert(vis.insert(first).subset_of(v2));
            lemma_len_subset(vis.insert(first), v2);
        }
    }
    assert(causally_closed(av, po.vis()));
    if po.has_valid_visibility() {
        Ok(po)
    } else {
        proof {
            assert forall|q: Set<((u64, u64), (u64, u64))>| !(#[trigger] causally_closed(av, q) && acyclic_rel(q)) by {
                if causally_closed(av, q) && acyclic_rel(q) {
                    lemma_acyclic_subset(po.vis(), q);
                }
            }
        }
        match po.visibility_relation.find_cycle_edge() {
            Some((a, b)) => Err(Error::Cycle { level: Consistency::Causal, a, b }),
            None => Err(Error::Cycle { level: Consistency::Causal, a: TransactionId::root(), b: TransactionId::root() }),
        }
    }
}

} // verus!
