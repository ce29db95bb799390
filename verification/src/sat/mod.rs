//! Consistency checks by reduction to propositional satisfiability.
//!
//! Each check first computes the least causally closed visibility relation,
//! then asks a SAT solver for a total order of the transactions (or of their
//! read and write phases) that the level accepts.
pub mod agreement;
pub mod encoding;
pub mod serializable;
pub mod solver;
pub mod split;
pub mod vertices;

use vstd::prelude::*;

use crate::consistency::error::Error;
use crate::consistency::saturation::causal::{causal_ok, check_causal_read};
use crate::consistency::saturation::committed_read::committed_order;
use crate::consistency::linearization::prefix::{is_prefix_order, phase_views, project_writes, write_projection};
use crate::consistency::witness::Witness;
use crate::consistency::{least_causal, witness_holds, Consistency};
use crate::graph::digraph::tid_views;
use crate::history::atomic::types::{atomic_ok, atomic_view_of, AtomicView};
use crate::history::raw::types::{Session, Transaction};
use crate::label::Label;
use crate::sat::serializable::{check_serializable_from_po, serial_order, TxnRel};
use crate::sat::solver::VAR_LIMIT;
use crate::sat::split::{check_prefix_from_po, check_si_from_po, phase_order_exists, reads_justified};
use crate::consistency::saturation::causal::causally_closed;
use crate::consistency::saturation::committed_read::{lemma_writer_tid, tid_of_pos, version_at};
use crate::history::atomic::types::{reads_from_at, write_to_at};
use crate::history::atomic::{is_txn, wr_edge, wr_rel, writes_var};
use crate::history::raw::{external_read_ok, in_history, is_write_of, valid_history};
use crate::sat::vertices::{history_txn_count, lemma_txn_count_shape};

verus! {

/// Under the least causally closed visibility, the transactions have an
/// order that is a serialization.
pub open spec fn serial_order_exists(av: AtomicView) -> bool {
    exists|vis: Set<((u64, u64), (u64, u64))>, rt: TxnRel| #[trigger] least_causal(av, vis) && #[trigger] serial_order(av, vis, rt)
}

/// Two least causally closed relations are the same.
pub proof fn lemma_least_causal_unique(av: AtomicView, v1: Set<((u64, u64), (u64, u64))>, v2: Set<((u64, u64), (u64, u64))>)
    requires
        least_causal(av, v1),
        least_causal(av, v2),
    ensures
        v1 == v2,
{
    assert(v1.subset_of(v2));
    assert(v2.subset_of(v1));
    assert(v1 =~= v2);
}

/// Checks serializability with a SAT solver.
///
/// # Errors
///
/// - the errors of [`check_causal_read`] if the history is not causal;
/// - [`Error::Invalid`] at Serializable if no order of the transactions is a
///   serialization.
pub fn check_serializable<V: Label>(sessions: &[Session<V, u64>]) -> (r: Result<(), Error<V, u64>>)
    requires
        history_txn_count(sessions@) * history_txn_count(sessions@) < VAR_LIMIT,
    ensures
        r.is_ok() <==> atomic_ok(sessions@) && causal_ok(atomic_view_of(sessions@)) && serial_order_exists(atomic_view_of(sessions@)),
        r matches Err(Error::Invalid(l)) ==> l == Consistency::Serializable && atomic_ok(sessions@)
            && causal_ok(atomic_view_of(sessions@)) && !serial_order_exists(atomic_view_of(sessions@)),
        r matches Err(Error::NonAtomic(_)) ==> !atomic_ok(sessions@),
        r matches Err(Error::Cycle { level, a, b }) ==> (level == Consistency::CommittedRead && !atomic_ok(sessions@)
            && committed_order(sessions@).contains((a@, b@)))
            || (level == Consistency::Causal && atomic_ok(sessions@) && !causal_ok(atomic_view_of(sessions@))),
{
    let po = match check_causal_read(sessions) {
        Err(e) => return Err(e),
        Ok(po) => po,
    };
    let ghost av = po.av();
    let ghost vis = po.vis();
    proof {
        lemma_txn_count_shape(av, sessions@);
        assert(least_causal(av, vis));
    }
    if check_serializable_from_po(&po) {
        proof {
            let rt = choose|rt: TxnRel| #[trigger] serial_order(av, vis, rt);
            assert(least_causal(av, vis) && serial_order(av, vis, rt));
        }
        Ok(())
    } else {
        proof {
            assert forall|v: Set<((u64, u64), (u64, u64))>, rt: TxnRel| !(#[trigger] least_causal(av, v) && #[trigger] serial_order(av, v, rt)) by {
                if least_causal(av, v) {
                    lemma_least_causal_unique(av, v, vis);
                }
            }
        }
        Err(Error::Invalid(Consistency::Serializable))
    }
}

/// Under the least causally closed visibility, the phases of the
/// transactions have an order that Prefix consistency (with `si`, Snapshot
/// Isolation) asks for.
pub open spec fn phase_order_exists_causal(av: AtomicView, si: bool) -> bool {
    exists|vis: Set<((u64, u64), (u64, u64))>| #[trigger] least_causal(av, vis) && phase_order_exists(av, vis, si)
}

/// In a valid history, a read that does not observe the initial value
/// observes a write of its variable by another transaction; under a
/// visibility that holds the write-read edges, that transaction is visible
/// to the reader.
pub proof fn lemma_reads_justified<V: Label>(h: Seq<Vec<Transaction<V, u64>>>, vis: Set<((u64, u64), (u64, u64))>)
    requires
        valid_history(h),
        wr_rel(atomic_view_of(h)).subset_of(vis),
        h.len() <= usize::MAX,
        forall|s: int| 0 <= s < h.len() ==> (#[trigger] h[s])@.len() <= usize::MAX,
    ensures
        reads_justified(atomic_view_of(h), vis),
{
    let av = atomic_view_of(h);
    assert forall|x: Seq<char>, w: (u64, u64), rd: (u64, u64)| #[trigger] wr_edge(av, x, w, rd)
        implies w == (0u64, 0u64) || (writes_var(av, w, x) && w != rd && vis.contains((w, rd))) by {
        assert(wr_edge(av, x, (w, rd).0, (w, rd).1));
        assert(wr_rel(av).contains((w, rd)));
        let s = rd.0 - 1;
        let t = rd.1 as int;
        assert(tid_of_pos(s, t) == rd);
        assert(av[s][t].1.contains((x, w)));
        let e = choose|e: int| #[trigger] reads_from_at(h, tid_of_pos(s, t), e, x, w);
        assert(reads_from_at(h, rd, e, x, w));
        if w != (0u64, 0u64) {
            assert(in_history(h, s, t, e));
            assert(external_read_ok(h, s, t, e));
            let v = version_at(h, s, t, e);
            assert(v is Some);
            let (ws, wt, we) = choose|ws: int, wt: int, we: int| is_write_of(h, ws, wt, we, x, v.unwrap());
            lemma_writer_tid(h, x, v.unwrap(), ws, wt, we);
            assert(w == tid_of_pos(ws, wt));
            assert(ws < h.len() && wt < h[ws]@.len());
            assert(w.0 - 1 == ws && w.1 == wt);
            assert(write_to_at(h, w, we, x));
            assert(av[ws][wt].0.contains(x));
        }
    }
}

/// Checks Prefix consistency (with `si`, Snapshot Isolation) with a SAT
/// solver.
fn check_split<V: Label>(sessions: &[Session<V, u64>], si: bool) -> (r: Result<Witness, Error<V, u64>>)
    requires
        (2 * history_txn_count(sessions@)) * (2 * history_txn_count(sessions@)) < VAR_LIMIT,
    ensures
        r.is_ok() ==> atomic_ok(sessions@) && causal_ok(atomic_view_of(sessions@)),
        r matches Ok(w) ==> exists|vis: Set<((u64, u64), (u64, u64))>| #[trigger] least_causal(atomic_view_of(sessions@), vis)
            && witness_holds(atomic_view_of(sessions@), vis, if si { Consistency::SnapshotIsolation } else { Consistency::Prefix }, w),
        atomic_ok(sessions@) && causal_ok(atomic_view_of(sessions@)) && !phase_order_exists_causal(atomic_view_of(sessions@), si)
            ==> r matches Err(Error::Invalid(_)),
        atomic_ok(sessions@) && causal_ok(atomic_view_of(sessions@)) && phase_order_exists_causal(atomic_view_of(sessions@), si)
            ==> r.is_ok(),
        r matches Err(Error::Invalid(l)) ==> l == (if si { Consistency::SnapshotIsolation } else { Consistency::Prefix })
            && atomic_ok(sessions@) && causal_ok(atomic_view_of(sessions@)),
        r matches Err(Error::NonAtomic(_)) ==> !atomic_ok(sessions@),
        r matches Err(Error::Cycle { level, a, b }) ==> (level == Consistency::CommittedRead && !atomic_ok(sessions@)
            && committed_order(sessions@).contains((a@, b@)))
            || (level == Consistency::Causal && atomic_ok(sessions@) && !causal_ok(atomic_view_of(sessions@))),
{
    let po = match check_causal_read(sessions) {
        Err(e) => return Err(e),
        Ok(po) => po,
    };
    let ghost av = po.av();
    let ghost vis = po.vis();
    let n_sessions = sessions.len();
    proof {
        assert(sessions@.len() == n_sessions);
        lemma_txn_count_shape(av, sessions@);
        assert(least_causal(av, vis));
        if !phase_order_exists_causal(av, si) {
            assert(!phase_order_exists(av, vis, si));
        } else {
            let vis2 = choose|vis2: Set<((u64, u64), (u64, u64))>| #[trigger] least_causal(av, vis2) && phase_order_exists(av, vis2, si);
            assert(causally_closed(av, vis2));
            assert(vis.subset_of(vis2));
            assert(vis2.subset_of(vis));
            assert(vis2 =~= vis);
        }
        assert forall|s: int| 0 <= s < sessions@.len() implies (#[trigger] sessions@[s])@.len() <= usize::MAX by {
            assert(sessions@[s]@.len() == sessions@[s].len());
        }
        lemma_reads_justified(sessions@, vis);
    }
    if si {
        match check_si_from_po(&po) {
            Some(sig) => Ok(Witness::SplitCommitOrder(sig)),
            None => Err(Error::Invalid(Consistency::SnapshotIsolation)),
        }
    } else {
        match check_prefix_from_po(&po) {
            Some(sig) => {
                let order = project_writes(&sig);
                proof {
                    assert(is_prefix_order(av, vis, phase_views(sig@)) && tid_views(order@) == write_projection(phase_views(sig@)));
                }
                Ok(Witness::CommitOrder(order))
            },
            None => Err(Error::Invalid(Consistency::Prefix)),
        }
    }
}

/// Checks Prefix consistency with a SAT solver; on success, returns the
/// commit order, the order of the write phases.
///
/// # Errors
///
/// - the errors of [`check_causal_read`] if the history is not causal;
/// - [`Error::Invalid`] at Prefix if the solver finds no order of the phases
///   that Prefix consistency accepts.
pub fn check_prefix<V: Label>(sessions: &[Session<V, u64>]) -> (r: Result<Witness, Error<V, u64>>)
    requires
        (2 * history_txn_count(sessions@)) * (2 * history_txn_count(sessions@)) < VAR_LIMIT,
    ensures
        r.is_ok() ==> atomic_ok(sessions@) && causal_ok(atomic_view_of(sessions@)),
        r matches Ok(w) ==> exists|vis: Set<((u64, u64), (u64, u64))>| #[trigger] least_causal(atomic_view_of(sessions@), vis)
            && witness_holds(atomic_view_of(sessions@), vis, Consistency::Prefix, w),
        atomic_ok(sessions@) && causal_ok(atomic_view_of(sessions@)) && !phase_order_exists_causal(atomic_view_of(sessions@), false)
            ==> r matches Err(Error::Invalid(Consistency::Prefix)),
        atomic_ok(sessions@) && causal_ok(atomic_view_of(sessions@)) && phase_order_exists_causal(atomic_view_of(sessions@), false)
            ==> r.is_ok(),
        r matches Err(Error::Invalid(l)) ==> l == Consistency::Prefix && atomic_ok(sessions@) && causal_ok(atomic_view_of(sessions@)),
        r matches Err(Error::NonAtomic(_)) ==> !atomic_ok(sessions@),
        r matches Err(Error::Cycle { level, a, b }) ==> (level == Consistency::CommittedRead && !atomic_ok(sessions@)
            && committed_order(sessions@).contains((a@, b@)))
            || (level == Consistency::Causal && atomic_ok(sessions@) && !causal_ok(atomic_view_of(sessions@))),
{
    check_split(sessions, false)
}

/// Checks Snapshot Isolation with a SAT solver; on success, returns the
/// order of the read and write phases.
///
/// # Errors
///
/// - the errors of [`check_causal_read`] if the history is not causal;
/// - [`Error::Invalid`] at Snapshot Isolation if the solver finds no order of
///   the phases that Snapshot Isolation accepts.
pub fn check_snapshot_isolation<V: Label>(sessions: &[Session<V, u64>]) -> (r: Result<Witness, Error<V, u64>>)
    requires
        (2 * history_txn_count(sessions@)) * (2 * history_txn_count(sessions@)) < VAR_LIMIT,
    ensures
        r.is_ok() ==> atomic_ok(sessions@) && causal_ok(atomic_view_of(sessions@)),
        r matches Ok(w) ==> exists|vis: Set<((u64, u64), (u64, u64))>| #[trigger] least_causal(atomic_view_of(sessions@), vis)
            && witness_holds(atomic_view_of(sessions@), vis, Consistency::SnapshotIsolation, w),
        atomic_ok(sessions@) && causal_ok(atomic_view_of(sessions@)) && !phase_order_exists_causal(atomic_view_of(sessions@), true)
            ==> r matches Err(Error::Invalid(Consistency::SnapshotIsolation)),
        atomic_ok(sessions@) && causal_ok(atomic_view_of(sessions@)) && phase_order_exists_causal(atomic_view_of(sessions@), true)
            ==> r.is_ok(),
        r matches Err(Error::Invalid(l)) ==> l == Consistency::SnapshotIsolation && atomic_ok(sessions@)
            && causal_ok(atomic_view_of(sessions@)),
        r matches Err(Error::NonAtomic(_)) ==> !atomic_ok(sessions@),
        r matches Err(Error::Cycle { level, a, b }) ==> (level == Consistency::CommittedRead && !atomic_ok(sessions@)
            && committed_order(sessions@).contains((a@, b@)))
            || (level == Consistency::Causal && atomic_ok(sessions@) && !causal_ok(atomic_view_of(sessions@))),
{
    check_split(sessions, true)
}

} // verus!
