//! Atomic Read: no fractured reads. Visibility holds the session order, the
//! write-read relation, and the write-write edges that these force; the
//! history satisfies Atomic Read when that visibility is acyclic.
use vstd::prelude::*;

use crate::consistency::error::Error;
use crate::consistency::saturation::committed_read::committed_order;
use crate::consistency::Consistency;
use crate::graph::digraph::{acyclic_rel, edge_set, has_edge_spec};
use crate::history::atomic::types::{atomic_ok, atomic_view_of, AtomicTransactionHistory, AtomicView};
use crate::history::atomic::{mentions_var, so_rel, txn_mentions, wr_rel, writes_var, ww_edge, ww_rel, ww_rel_of, AtomicTransactionPO};
use crate::history::raw::types::{Session, Transaction};
use crate::label::Label;

verus! {

/// The visibility that Atomic Read requires: the session order, the
/// write-read relation, and the write-write edges they force.
pub open spec fn atomic_vis(av: AtomicView) -> Set<((u64, u64), (u64, u64))> {
    let base = so_rel(av).union(wr_rel(av));
    base.union(ww_rel(av, base))
}

/// Checks whether a history satisfies Atomic Read.
///
/// On success, returns the partial order whose visibility relation is the
/// acyclic witness.
///
/// # Errors
///
/// - [`Error::NonAtomic`], or [`Error::Cycle`] at Read Committed, if the
///   history has no valid atomic abstraction;
/// - [`Error::Cycle`] at Atomic Read with an edge on a cycle of the required
///   visibility.
#[verifier::loop_isolation(false)]
pub fn check_atomic_read<V: Label>(histories: &[Session<V, u64>]) -> (r: Result<AtomicTransactionPO<V>, Error<V, u64>>)
    ensures
        r.is_ok() <==> atomic_ok(histories@) && acyclic_rel(atomic_vis(atomic_view_of(histories@))),
        r matches Ok(po) ==> po.well_formed() && po.av() == atomic_view_of(histories@)
            && po.vis() == atomic_vis(atomic_view_of(histories@)),
        r matches Err(Error::NonAtomic(_)) ==> !atomic_ok(histories@),
        r matches Err(Error::Cycle { level, a, b }) ==> (level == Consistency::CommittedRead && !atomic_ok(histories@)
            && committed_order(histories@).contains((a@, b@)))
            || (level == Consistency::AtomicRead && atomic_ok(histories@)
                && atomic_vis(atomic_view_of(histories@)).contains((a@, b@))
                && !acyclic_rel(atomic_vis(atomic_view_of(histories@)))),
        !(r matches Err(Error::Invalid(_))),
{
    let ghost h = histories@;
    let ah = match AtomicTransactionHistory::try_from(histories) {
        Err(e) => return Err(e),
        Ok(ah) => ah,
    };
    let ghost av = atomic_view_of(h);
    let mut po = AtomicTransactionPO::from(ah);
    let wr = po.get_wr();
    po.vis_includes(&wr);
    let ghost base = po.vis();
    assert(base == so_rel(av).union(wr_rel(av)));
    let ww = po.causal_ww();
    let mut i: usize = 0;
    while i < ww.len()
        invariant
            0 <= i <= ww@.len(),
            po.well_formed(),
            po.av() == av,
            ww@.len() == po.write_read_relation@.len(),
            forall|k: int| 0 <= k < ww@.len() ==> #[trigger] ww@[k].0.label() == po.write_read_relation@[k].0.label(),
            forall|k: int| 0 <= k < ww@.len() ==> edge_set(#[trigger] ww@[k].1.view())
                == ww_rel_of(av, base, po.write_read_relation@[k].0.label()),
            forall|p: ((u64, u64), (u64, u64))| #[trigger] po.vis().contains(p) <==> base.contains(p)
                || exists|k: int| 0 <= k < i && #[trigger] ww_rel_of(av, base, ww@[k].0.label()).contains(p),
        decreases ww@.len() - i,
    {
        let ghost v0 = po.vis();
        po.vis_includes(&ww[i].1);
        proof {
            assert forall|p: ((u64, u64), (u64, u64))| #[trigger] po.vis().contains(p) <==> base.contains(p)
                || exists|k: int| 0 <= k < i + 1 && #[trigger] ww_rel_of(av, base, ww@[k].0.label()).contains(p) by {
                assert(edge_set(ww@[i as int].1.view()) == ww_rel_of(av, base, ww@[i as int].0.label()));
                assert(po.vis().contains(p) <==> v0.contains(p) || edge_set(ww@[i as int].1.view()).contains(p));
                if exists|k: int| 0 <= k < i + 1 && #[trigger] ww_rel_of(av, base, ww@[k].0.label()).contains(p) {
                    let k = choose|k: int| 0 <= k < i + 1 && #[trigger] ww_rel_of(av, base, ww@[k].0.label()).contains(p);
                    if k < i {
                        assert(v0.contains(p));
                    }
                }
                if v0.contains(p) && !base.contains(p) {
                    let k = choose|k: int| 0 <= k < i && #[trigger] ww_rel_of(av, base, ww@[k].0.label()).contains(p);
                    assert(0 <= k < i + 1);
                }
            }
        }
        i = i + 1;
    }
    proof {
        assert forall|p: ((u64, u64), (u64, u64))| #[trigger] po.vis().contains(p) <==> atomic_vis(av).contains(p) by {
            if ww_rel(av, base).contains(p) {
                let x = choose|x: Seq<char>| #[trigger] ww_edge(av, base, x, p.0, p.1);
                assert(writes_var(av, p.1, x));
                assert(txn_mentions(av, (p.1.0 - 1) as int, p.1.1 as int, x));
                assert(mentions_var(av, x));
                let k = choose|k: int| 0 <= k < po.write_read_relation@.len() && #[trigger] po.write_read_relation@[k].0.label() == x;
                assert(ww@[k].0.label() == x);
                assert(ww_rel_of(av, base, ww@[k].0.label()).contains(p));
            }
            if exists|k: int| 0 <= k < ww@.len() && #[trigger] ww_rel_of(av, base, ww@[k].0.label()).contains(p) {
                let k = choose|k: int| 0 <= k < ww@.len() && #[trigger] ww_rel_of(av, base, ww@[k].0.label()).contains(p);
                assert(ww_edge(av, base, ww@[k].0.label(), p.0, p.1));
                assert(ww_rel(av, base).contains(p));
            }
        }
        assert(po.vis() =~= atomic_vis(av));
    }
    if po.has_valid_visibility() {
        Ok(po)
    } else {
        match po.visibility_relation.find_cycle_edge() {
            Some((a, b)) => {
                assert(has_edge_spec(po.visibility_relation.view(), a@, b@));
                assert(po.vis().contains((a@, b@)));
                Err(Error::Cycle { level: Consistency::AtomicRead, a, b })
            },
            None => {
                proof {
                    crate::graph::digraph::lemma_acyclic_edge_set(po.visibility_relation.view());
                }
                Err(Error::Cycle { level: Consistency::AtomicRead, a: crate::history::atomic::types::TransactionId::root(), b: crate::history::atomic::types::TransactionId::root() })
            },
        }
    }
}

} // verus!
