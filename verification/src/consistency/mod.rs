//! Consistency levels and the checks for them.
pub mod decomposition;
pub mod error;
pub mod implications;
pub mod linearization;
pub mod saturation;
pub mod witness;

pub use crate::consistency::linearization::{constrained_linearization, prefix, serializable, snapshot_isolation};
pub use crate::consistency::saturation::{atomic_read, causal, committed_read, repeatable_read};
pub use crate::consistency::witness::Witness;

use vstd::prelude::*;

use crate::consistency::decomposition::{biconnected_components, comm_view, communication_graph, components_overlap};
use crate::consistency::error::Error;
use crate::consistency::linearization::prefix::{is_prefix_order, phase_views, project_writes, write_projection, check_prefix_order, PrefixConsistencySolver};
use crate::consistency::linearization::serializable::{check_serialization, is_serialization, SerializabilitySolver};
use crate::consistency::linearization::snapshot_isolation::{check_snapshot_order, is_snapshot_order, SnapshotIsolationSolver};
use crate::consistency::saturation::atomic_read::{atomic_vis, check_atomic_read};
use crate::consistency::saturation::causal::{causal_ok, causally_closed, check_causal_read};
use crate::consistency::saturation::committed_read::{check_committed_read, committed_order};
use crate::consistency::saturation::repeatable_read::{check_repeatable_read, repeatable_reads};
use crate::graph::biconnected::{has_list, vertex_list};
use crate::sat::serializable::{lemma_serialization_orders, search_serial, serial_order, TxnRel};
use crate::consistency::linearization::snapshot_isolation::shares_write;
use crate::history::atomic::{is_txn, wr_edge, writes_var};
use crate::sat::split::{PhaseRel, check_prefix_from_po, check_si_from_po, lemma_phase_sequence_orders, phase_order_exists, pos_in, prefix_phase_order, reads_justified, snapshot_phase_order, Phase};
use crate::sat::vertices::{fits_sat, fits_sat_exec, txn_count};
use crate::sat::{lemma_least_causal_unique, lemma_reads_justified};
use crate::graph::digraph::{acyclic_rel, edge_set, ranks_rel, tid_views, DiGraph};
use crate::history::atomic::types::{atomic_ok, atomic_view_of, AtomicView, TransactionId};
use crate::history::atomic::AtomicTransactionPO;
use crate::history::raw::types::{Session, Transaction};
use crate::history::raw::{copy_session, valid_history};
use crate::label::Label;

verus! {

/// Consistency levels, ordered from weakest to strongest.
///
/// Each level includes all weaker ones: Read Committed < Repeatable Read <
/// Atomic Read < Causal < Prefix < Snapshot Isolation < Serializability.
#[derive(Debug, Copy, Clone, PartialEq, Eq, Structural)]
pub enum Consistency {
    /// Read Committed: transactions see only committed writes.
    CommittedRead,
    /// Repeatable Read: a transaction reads each variable from one write.
    RepeatableRead,
    /// Atomic Read: reads are atomic across variables (no fractured reads).
    AtomicRead,
    /// Causal Consistency: causally related operations are ordered.
    Causal,
    /// Prefix Consistency: reads see a consistent prefix of the writes.
    Prefix,
    /// Snapshot Isolation: transactions read from a consistent snapshot.
    SnapshotIsolation,
    /// Serializability: equivalent to some serial execution.
    Serializable,
}

/// The history has no transaction.
pub open spec fn no_transactions<V>(h: Seq<Vec<Transaction<V, u64>>>) -> bool {
    forall|s: int| 0 <= s < h.len() ==> #[trigger] h[s]@.len() == 0
}

/// `vis` is the least causally closed relation of the view.
pub open spec fn least_causal(av: AtomicView, vis: Set<((u64, u64), (u64, u64))>) -> bool {
    causally_closed(av, vis) && forall|q: Set<((u64, u64), (u64, u64))>| #[trigger] causally_closed(av, q) ==> vis.subset_of(q)
}

/// What a witness of a linearization level shows of the history's atomic
/// view `av` under its least causally closed visibility `vis`.
pub open spec fn witness_holds(av: AtomicView, vis: Set<((u64, u64), (u64, u64))>, level: Consistency, w: Witness) -> bool {
    match (level, w) {
        (Consistency::Serializable, Witness::CommitOrder(o)) => is_serialization(av, vis, tid_views(o@)),
        (Consistency::Prefix, Witness::CommitOrder(o)) => exists|sig: Seq<((u64, u64), bool)>|
            #[trigger] is_prefix_order(av, vis, sig) && tid_views(o@) == write_projection(sig),
        (Consistency::SnapshotIsolation, Witness::SplitCommitOrder(sig)) => is_snapshot_order(av, vis, phase_views(sig@)),
        _ => false,
    }
}

/// The level is decided by a search for a linearization.
pub open spec fn is_linearization_level(level: Consistency) -> bool {
    level == Consistency::Prefix || level == Consistency::SnapshotIsolation || level == Consistency::Serializable
}

/// The witness of a single session: its transactions in session order, for
/// Snapshot Isolation each as a read then a write phase.
pub fn singleton_session_witness<V>(session: &Session<V, u64>, level: Consistency) -> (r: Witness)
    ensures
        level == Consistency::SnapshotIsolation ==> r is SplitCommitOrder,
        level != Consistency::SnapshotIsolation ==> r is CommitOrder,
{
    let mut commit_order: Vec<TransactionId> = Vec::new();
    let mut split: Vec<(TransactionId, bool)> = Vec::new();
    let mut h: usize = 0;
    while h < session.len()
        invariant
            0 <= h <= session@.len(),
        decreases session@.len() - h,
    {
        let tid = TransactionId { session_id: 1, session_height: h as u64 };
        commit_order.push(tid);
        split.push((tid, false));
        split.push((tid, true));
        h = h + 1;
    }
    if level == Consistency::SnapshotIsolation {
        Witness::SplitCommitOrder(split)
    } else {
        Witness::CommitOrder(commit_order)
    }
}

/// The transactions of `av` have an order of the level under visibility
/// `vis`: an order of the phases for Prefix consistency and Snapshot
/// Isolation, a serialization order for Serializability.
pub open spec fn level_order_exists(av: AtomicView, vis: Set<((u64, u64), (u64, u64))>, level: Consistency) -> bool {
    if level == Consistency::Prefix {
        phase_order_exists(av, vis, false)
    } else if level == Consistency::SnapshotIsolation {
        phase_order_exists(av, vis, true)
    } else {
        exists|rt: TxnRel| #[trigger] serial_order(av, vis, rt)
    }
}

/// Under the least causally closed visibility, the transactions of `av`
/// have an order of the level.
pub open spec fn level_order_exists_causal(av: AtomicView, level: Consistency) -> bool {
    exists|vis: Set<((u64, u64), (u64, u64))>| #[trigger] least_causal(av, vis) && level_order_exists(av, vis, level)
}

/// The history satisfies the level: what [`check`] decides (for the
/// linearization levels, on histories that fit the SAT encodings).
pub open spec fn accepts<V: Label>(h: Seq<Vec<Transaction<V, u64>>>, level: Consistency) -> bool {
    ||| no_transactions(h)
    ||| match level {
        Consistency::CommittedRead => valid_history(h) && acyclic_rel(committed_order(h)),
        Consistency::RepeatableRead => atomic_ok(h),
        Consistency::AtomicRead => atomic_ok(h) && acyclic_rel(atomic_vis(atomic_view_of(h))),
        Consistency::Causal => atomic_ok(h) && causal_ok(atomic_view_of(h)),
        _ => atomic_ok(h) && causal_ok(atomic_view_of(h)) && level_order_exists_causal(atomic_view_of(h), level),
    }
}

/// A witness of a linearization level shows that an order of the level
/// exists.
pub proof fn lemma_witness_order_exists(av: AtomicView, vis: Set<((u64, u64), (u64, u64))>, level: Consistency, w: Witness)
    requires
        is_linearization_level(level),
        witness_holds(av, vis, level, w),
    ensures
        level_order_exists(av, vis, level),
{
    match w {
        Witness::CommitOrder(o) => {
            if level == Consistency::Serializable {
                lemma_serialization_orders(av, vis, tid_views(o@));
                let rt = |a: (u64, u64), b: (u64, u64)| pos_in(tid_views(o@), a) < pos_in(tid_views(o@), b);
                assert(serial_order(av, vis, rt));
            } else {
                let sig = choose|sig: Seq<((u64, u64), bool)>| #[trigger] is_prefix_order(av, vis, sig) && tid_views(o@) == write_projection(sig);
                lemma_phase_sequence_orders(av, vis, sig, false);
                let rp = |p: Phase, q: Phase| pos_in(sig, p) < pos_in(sig, q);
                assert(prefix_phase_order(av, vis, rp));
            }
        },
        Witness::SplitCommitOrder(sig) => {
            lemma_phase_sequence_orders(av, vis, phase_views(sig@), true);
            let rp = |p: Phase, q: Phase| pos_in(phase_views(sig@), p) < pos_in(phase_views(sig@), q);
            assert(snapshot_phase_order(av, vis, rp));
        },
        Witness::SaturationOrder(_) => {},
    }
}

/// The phase order of a serialization order: the read phase of each
/// transaction right before its write phase, transactions in the order.
pub open spec fn serial_phases(rt: TxnRel) -> PhaseRel {
    |p: Phase, q: Phase| if p.0 == q.0 { !p.1 && q.1 } else { rt(p.0, q.0) }
}

/// A serialization order, where reads are justified and visibility is
/// irreflexive, gives an order of the phases that Snapshot Isolation asks
/// for.
pub proof fn lemma_serial_order_to_snapshot(av: AtomicView, vis: Set<((u64, u64), (u64, u64))>, rt: TxnRel)
    requires
        serial_order(av, vis, rt),
        reads_justified(av, vis),
        forall|t: (u64, u64)| !vis.contains((t, t)),
    ensures
        snapshot_phase_order(av, vis, serial_phases(rt)),
{
    let rp = serial_phases(rt);
    assert forall|p: Phase, q: Phase| #![trigger rp(p, q), rp(q, p)]
        is_txn(av, p.0) && is_txn(av, q.0) && p != q implies (rp(p, q) || rp(q, p)) && !(rp(p, q) && rp(q, p)) by {
        if p.0 != q.0 {
            assert(rt(p.0, q.0) || rt(q.0, p.0));
        }
    }
    assert forall|p: Phase, q: Phase, u: Phase| #![trigger rp(p, q), rp(q, u)]
        is_txn(av, p.0) && is_txn(av, q.0) && is_txn(av, u.0) && p != q && q != u && p != u && rp(p, q) && rp(q, u) implies rp(p, u) by {
        if p.0 != q.0 && q.0 != u.0 && p.0 != u.0 {
            assert(rt(p.0, q.0) && rt(q.0, u.0));
        } else if p.0 != q.0 && q.0 != u.0 && p.0 == u.0 {
            assert(rt(p.0, q.0) && rt(q.0, p.0));
        }
    }
    assert forall|a: (u64, u64), b: (u64, u64)| #![trigger vis.contains((a, b))]
        is_txn(av, a) && is_txn(av, b) && vis.contains((a, b)) implies rp((a, true), (b, false)) by {
        assert(a != b);
        assert(rt(a, b));
    }
    assert forall|x: Seq<char>, a: (u64, u64), b: (u64, u64)| #![trigger wr_edge(av, x, (0u64, 0u64), a), writes_var(av, b, x)]
        wr_edge(av, x, (0u64, 0u64), a) && writes_var(av, b, x) && a != b implies rp((a, false), (b, true)) by {
        assert(rt(a, b));
    }
    assert forall|x: Seq<char>, w1: (u64, u64), w2: (u64, u64), rd: (u64, u64)| #![trigger wr_edge(av, x, w1, rd), writes_var(av, w2, x)]
        writes_var(av, w1, x) && writes_var(av, w2, x) && w1 != w2 && wr_edge(av, x, w1, rd) && rd != w2 && rp((w1, true), (w2, true))
        implies rp((w1, true), (rd, false)) && rp((rd, false), (w2, true)) by {
        assert(w1 != (0u64, 0u64));
        assert(w1 != rd);
        assert(rt(w1, w2));
        assert(rt(w1, rd) && rt(rd, w2));
    }
    assert forall|a: (u64, u64), b: (u64, u64)| #![trigger shares_write(av, a, b)]
        is_txn(av, a) && is_txn(av, b) && a != b && shares_write(av, a, b) implies rp((a, true), (b, false)) || rp((b, true), (a, false)) by {
        assert(rt(a, b) || rt(b, a));
    }
}

/// An acyclic relation relates nothing to itself.
pub proof fn lemma_acyclic_irreflexive(r: Set<((u64, u64), (u64, u64))>)
    requires
        acyclic_rel(r),
    ensures
        forall|t: (u64, u64)| !r.contains((t, t)),
{
    let rank = choose|rank: spec_fn((u64, u64)) -> int| #[trigger] ranks_rel(r, rank);
    assert forall|t: (u64, u64)| !r.contains((t, t)) by {
        if r.contains((t, t)) {
            assert(rank(t) < rank(t));
        }
    }
}

/// Runs the level's linearization search on a partial order. Where the
/// search finds no order and the history fits the SAT encodings, the SAT
/// solver decides.
pub fn solve_npc_from_po<V: Label>(po: AtomicTransactionPO<V>, level: Consistency) -> (r: Result<Witness, Error<V, u64>>)
    requires
        po.well_formed(),
        is_linearization_level(level),
    ensures
        r matches Ok(w) ==> witness_holds(po.av(), po.vis(), level, w) && level_form(level, w),
        r matches Err(e) ==> e == Error::<V, u64>::Invalid(level),
        fits_sat(po.av()) && reads_justified(po.av(), po.vis()) && (forall|t: (u64, u64)| !po.vis().contains((t, t)))
            && level_order_exists(po.av(), po.vis(), level) ==> r.is_ok(),
{
    let ghost av = po.av();
    let ghost vis = po.vis();
    let fits = fits_sat_exec(&po);
    proof {
        if fits {
            let c = txn_count(av);
            assert(c * c <= (2 * c) * (2 * c)) by (nonlinear_arith);
        }
    }
    match level {
        Consistency::Prefix => {
            let mut solver = PrefixConsistencySolver::from(po);
            match solver.get_linearization() {
                Some(sig) => {
                    let co = project_writes(&sig);
                    Ok(Witness::CommitOrder(co))
                },
                None => {
                    if fits {
                        match check_prefix_from_po(&solver.history) {
                            Some(sig) => {
                                let co = project_writes(&sig);
                                Ok(Witness::CommitOrder(co))
                            },
                            None => Err(Error::Invalid(Consistency::Prefix)),
                        }
                    } else {
                        Err(Error::Invalid(Consistency::Prefix))
                    }
                },
            }
        },
        Consistency::SnapshotIsolation => {
            let mut solver = SnapshotIsolationSolver::from(po);
            match solver.get_linearization() {
                Some(sig) => Ok(Witness::SplitCommitOrder(sig)),
                None => {
                    if fits {
                        match check_si_from_po(&solver.history) {
                            Some(sig) => Ok(Witness::SplitCommitOrder(sig)),
                            None => Err(Error::Invalid(Consistency::SnapshotIsolation)),
                        }
                    } else {
                        Err(Error::Invalid(Consistency::SnapshotIsolation))
                    }
                },
            }
        },
        _ => {
            let mut solver = SerializabilitySolver::from(po);
            match solver.get_linearization() {
                Some(ord) => Ok(Witness::CommitOrder(ord)),
                None => {
                    if fits {
                        match search_serial(&solver.history) {
                            Some(ord) => Ok(Witness::CommitOrder(ord)),
                            None => Err(Error::Invalid(Consistency::Serializable)),
                        }
                    } else {
                        Err(Error::Invalid(Consistency::Serializable))
                    }
                },
            }
        },
    }
}

/// Both phases of each transaction of a commit order, the read phase first.
pub open spec fn doubled_phases(o: Seq<(u64, u64)>) -> Seq<((u64, u64), bool)>
    decreases o.len(),
{
    if o.len() == 0 {
        Seq::empty()
    } else {
        doubled_phases(o.drop_last()).push((o.last(), false)).push((o.last(), true))
    }
}

/// Whether `w` is a witness of the level for the partial order.
fn witness_valid<V: Label>(po: &AtomicTransactionPO<V>, level: Consistency, w: &Witness) -> (r: bool)
    requires
        is_linearization_level(level),
    ensures
        r ==> witness_holds(po.av(), po.vis(), level, *w),
        r == match *w {
            Witness::CommitOrder(o) => if level == Consistency::Serializable {
                is_serialization(po.av(), po.vis(), tid_views(o@))
            } else if level == Consistency::Prefix {
                is_prefix_order(po.av(), po.vis(), doubled_phases(tid_views(o@)))
            } else {
                false
            },
            Witness::SplitCommitOrder(sig) => level == Consistency::SnapshotIsolation
                && is_snapshot_order(po.av(), po.vis(), phase_views(sig@)),
            Witness::SaturationOrder(_) => false,
        },
{
    match w {
        Witness::CommitOrder(o) => {
            if level == Consistency::Serializable {
                check_serialization(po, o)
            } else if level == Consistency::Prefix {
                let mut sig: Vec<(TransactionId, bool)> = Vec::new();
                let mut i: usize = 0;
                while i < o.len()
                    invariant
                        0 <= i <= o@.len(),
                        sig@.len() == 2 * i,
                        write_projection(phase_views(sig@)) == tid_views(o@.subrange(0, i as int)),
                        phase_views(sig@) == doubled_phases(tid_views(o@.subrange(0, i as int))),
                    decreases o@.len() - i,
                {
                    let ghost s0 = phase_views(sig@);
                    sig.push((o[i], false));
                    sig.push((o[i], true));
                    proof {
                        let s2 = phase_views(sig@);
                        assert(s2.drop_last().drop_last() =~= s0);
                        assert(write_projection(s2.drop_last()) == write_projection(s0));
                        assert(tid_views(o@.subrange(0, i + 1)) =~= tid_views(o@.subrange(0, i as int)).push(o@[i as int]@));
                        assert(s2 =~= s0.push((o@[i as int]@, false)).push((o@[i as int]@, true)));
                        assert(tid_views(o@.subrange(0, i + 1)).drop_last() =~= tid_views(o@.subrange(0, i as int)));
                    }
                    i = i + 1;
                }
                assert(o@.subrange(0, o@.len() as int) =~= o@);
                check_prefix_order(po, &sig)
            } else {
                false
            }
        },
        Witness::SplitCommitOrder(sig) => {
            if level == Consistency::SnapshotIsolation {
                check_snapshot_order(po, sig)
            } else {
                false
            }
        },
        Witness::SaturationOrder(_) => false,
    }
}

/// Checks a linearization level on the whole history: Causal consistency
/// first, then the search on the partial order (for one session, its
/// session order when it serves).
fn check_npc_whole<V: Label>(sessions: &[Session<V, u64>], level: Consistency) -> (r: Result<Witness, Error<V, u64>>)
    requires
        is_linearization_level(level),
    ensures
        r.is_ok() ==> atomic_ok(sessions@) && causal_ok(atomic_view_of(sessions@)),
        r matches Ok(w) ==> exists|vis: Set<((u64, u64), (u64, u64))>| #[trigger] least_causal(atomic_view_of(sessions@), vis)
            && witness_holds(atomic_view_of(sessions@), vis, level, w),
        r matches Err(Error::Invalid(l)) ==> l == level && atomic_ok(sessions@) && causal_ok(atomic_view_of(sessions@)),
        r matches Err(Error::NonAtomic(_)) ==> !atomic_ok(sessions@),
        r matches Err(Error::Cycle { level: l, .. }) ==> (l == Consistency::CommittedRead && !atomic_ok(sessions@))
            || (l == Consistency::Causal && atomic_ok(sessions@) && !causal_ok(atomic_view_of(sessions@))),
{
    let po = match check_causal_read(sessions) {
        Err(e) => return Err(e),
        Ok(po) => po,
    };
    let ghost av = po.av();
    let ghost vis = po.vis();
    assert(least_causal(av, vis));
    if sessions.len() == 1 {
        let w = singleton_session_witness(&sessions[0], level);
        if witness_valid(&po, level, &w) {
            return Ok(w);
        }
    }
    solve_npc_from_po(po, level)
}

/// Session `i` of a sub-history is session `ids[i - 1]` of the whole
/// history; the root stays the root.
pub open spec fn remap_tid(t: (u64, u64), ids: Seq<u64>) -> (u64, u64) {
    if t.0 == 0 {
        t
    } else {
        (ids[t.0 - 1], t.1)
    }
}

/// Every transaction the witness lists is the root or lies in one of the
/// sessions `1..=n`.
pub open spec fn witness_within(w: Witness, n: int) -> bool {
    match w {
        Witness::CommitOrder(o) => forall|i: int| 0 <= i < o@.len() ==> #[trigger] o@[i].session_id <= n,
        Witness::SplitCommitOrder(o) => forall|i: int| 0 <= i < o@.len() ==> #[trigger] o@[i].0.session_id <= n,
        Witness::SaturationOrder(_) => false,
    }
}

/// The witness has the form a linearization level asks for: a split
/// commit order for Snapshot Isolation, a commit order otherwise.
pub open spec fn level_form(level: Consistency, w: Witness) -> bool {
    if level == Consistency::SnapshotIsolation {
        w is SplitCommitOrder
    } else {
        w is CommitOrder
    }
}

/// Whether every transaction the witness lists is the root or lies in one
/// of the sessions `1..=n`.
#[verifier::loop_isolation(false)]
fn witness_within_exec(w: &Witness, n: usize) -> (r: bool)
    ensures
        r == witness_within(*w, n as int),
{
    match w {
        Witness::CommitOrder(o) => {
            let mut i: usize = 0;
            while i < o.len()
                invariant
                    0 <= i <= o@.len(),
                    forall|k: int| 0 <= k < i ==> #[trigger] o@[k].session_id <= n,
                decreases o@.len() - i,
            {
                if o[i].session_id > n as u64 {
                    assert(o@[i as int].session_id > n);
                    assert(!(forall|k: int| 0 <= k < o@.len() ==> #[trigger] o@[k].session_id <= n));
                    return false;
                }
                i = i + 1;
            }
            true
        },
        Witness::SplitCommitOrder(o) => {
            let mut i: usize = 0;
            while i < o.len()
                invariant
                    0 <= i <= o@.len(),
                    forall|k: int| 0 <= k < i ==> #[trigger] o@[k].0.session_id <= n,
                decreases o@.len() - i,
            {
                if o[i].0.session_id > n as u64 {
                    assert(o@[i as int].0.session_id > n);
                    assert(!(forall|k: int| 0 <= k < o@.len() ==> #[trigger] o@[k].0.session_id <= n));
                    return false;
                }
                i = i + 1;
            }
            true
        },
        Witness::SaturationOrder(_) => false,
    }
}

/// Renames the sessions of a sub-history's witness to those of the whole
/// history: session `i` becomes `session_ids[i - 1]`; the root stays.
pub fn remap_witness(witness: Witness, session_ids: &[u64]) -> (r: Witness)
    requires
        witness_within(witness, session_ids@.len() as int),
    ensures
        witness matches Witness::CommitOrder(o) ==> (r matches Witness::CommitOrder(o2) && o2@.len() == o@.len()
            && forall|i: int| 0 <= i < o@.len() ==> #[trigger] o2@[i]@ == remap_tid(o@[i]@, session_ids@)),
        witness matches Witness::SplitCommitOrder(o) ==> (r matches Witness::SplitCommitOrder(o2) && o2@.len() == o@.len()
            && forall|i: int| 0 <= i < o@.len() ==> #[trigger] o2@[i].0@ == remap_tid(o@[i].0@, session_ids@) && o2@[i].1 == o@[i].1),
{
    match witness {
        Witness::CommitOrder(o) => {
            let mut o2: Vec<TransactionId> = Vec::new();
            let mut i: usize = 0;
            while i < o.len()
                invariant
                    0 <= i <= o@.len(),
                    o2@.len() == i,
                    forall|k: int| 0 <= k < o@.len() ==> #[trigger] o@[k].session_id <= session_ids@.len(),
                    forall|k: int| 0 <= k < i ==> #[trigger] o2@[k]@ == remap_tid(o@[k]@, session_ids@),
                decreases o@.len() - i,
            {
                let t = o[i];
                let mapped = if t.session_id == 0 {
                    t
                } else {
                    TransactionId { session_id: session_ids[(t.session_id - 1) as usize], session_height: t.session_height }
                };
                o2.push(mapped);
                i = i + 1;
            }
            Witness::CommitOrder(o2)
        },
        Witness::SplitCommitOrder(o) => {
            let mut o2: Vec<(TransactionId, bool)> = Vec::new();
            let mut i: usize = 0;
            while i < o.len()
                invariant
                    0 <= i <= o@.len(),
                    o2@.len() == i,
                    forall|k: int| 0 <= k < o@.len() ==> #[trigger] o@[k].0.session_id <= session_ids@.len(),
                    forall|k: int| 0 <= k < i ==> #[trigger] o2@[k].0@ == remap_tid(o@[k].0@, session_ids@) && o2@[k].1 == o@[k].1,
                decreases o@.len() - i,
            {
                let (t, b) = o[i];
                let mapped = if t.session_id == 0 {
                    t
                } else {
                    TransactionId { session_id: session_ids[(t.session_id - 1) as usize], session_height: t.session_height }
                };
                o2.push((mapped, b));
                i = i + 1;
            }
            Witness::SplitCommitOrder(o2)
        },
        Witness::SaturationOrder(g) => Witness::SaturationOrder(g),
    }
}

/// Two witnesses of the same form, the second after the first.
pub fn merge_witnesses(base: Witness, other: Witness) -> (r: Witness)
    requires
        (base is CommitOrder && other is CommitOrder) || (base is SplitCommitOrder && other is SplitCommitOrder),
    ensures
        base matches Witness::CommitOrder(a) ==> (other matches Witness::CommitOrder(b)
            && r matches Witness::CommitOrder(c) && c@ == a@ + b@),
        base matches Witness::SplitCommitOrder(a) ==> (other matches Witness::SplitCommitOrder(b)
            && r matches Witness::SplitCommitOrder(c) && c@ == a@ + b@),
{
    match (base, other) {
        (Witness::CommitOrder(mut a), Witness::CommitOrder(b)) => {
            let ghost a0 = a@;
            let mut b = b;
            a.append(&mut b);
            Witness::CommitOrder(a)
        },
        (Witness::SplitCommitOrder(mut a), Witness::SplitCommitOrder(b)) => {
            let mut b = b;
            a.append(&mut b);
            Witness::SplitCommitOrder(a)
        },
        (base, _) => base,
    }
}

/// Checks a linearization level: Causal consistency first; then, where the
/// communication graph splits into two or more disjoint components, each
/// component's sub-history on its own, with the sub-witnesses renamed and
/// joined; otherwise, or where the joined witness does not serve, the
/// search on the whole partial order.
pub fn check_npc<V: Label>(sessions: &[Session<V, u64>], level: Consistency) -> (r: Result<Witness, Error<V, u64>>)
    requires
        is_linearization_level(level),
    ensures
        r.is_ok() ==> atomic_ok(sessions@) && causal_ok(atomic_view_of(sessions@)),
        r matches Ok(w) ==> exists|vis: Set<((u64, u64), (u64, u64))>| #[trigger] least_causal(atomic_view_of(sessions@), vis)
            && witness_holds(atomic_view_of(sessions@), vis, level, w),
        r matches Err(Error::Invalid(l)) ==> l == level && atomic_ok(sessions@) && causal_ok(atomic_view_of(sessions@)),
        r matches Err(Error::NonAtomic(_)) ==> !atomic_ok(sessions@),
        r matches Err(Error::Cycle { level: l, .. }) ==> (l == Consistency::CommittedRead && !atomic_ok(sessions@))
            || (l == Consistency::Causal && atomic_ok(sessions@) && !causal_ok(atomic_view_of(sessions@))),
        atomic_ok(sessions@) && causal_ok(atomic_view_of(sessions@)) && fits_sat(atomic_view_of(sessions@))
            && level_order_exists_causal(atomic_view_of(sessions@), level) ==> r.is_ok(),
{
    let po = match check_causal_read(sessions) {
        Err(e) => return Err(e),
        Ok(po) => po,
    };
    let ghost av = po.av();
    let ghost vis = po.vis();
    assert(least_causal(av, vis));
    let n_sessions = sessions.len();
    proof {
        assert(sessions@.len() == n_sessions);
        assert forall|s: int| 0 <= s < sessions@.len() implies (#[trigger] sessions@[s])@.len() <= usize::MAX by {
            assert(sessions@[s]@.len() == sessions@[s].len());
        }
        lemma_reads_justified(sessions@, vis);
        lemma_acyclic_irreflexive(vis);
        if level_order_exists_causal(av, level) {
            let v2 = choose|v2: Set<((u64, u64), (u64, u64))>| #[trigger] least_causal(av, v2) && level_order_exists(av, v2, level);
            lemma_least_causal_unique(av, vis, v2);
        }
    }
    if sessions.len() == 1 {
        let w = singleton_session_witness(&sessions[0], level);
        if witness_valid(&po, level, &w) {
            return Ok(w);
        }
        return solve_npc_from_po(po, level);
    }
    let comm_graph = communication_graph(&po);
    let components = biconnected_components(&comm_graph);
    let has_overlap = components_overlap(&components);
    if components.len() <= 1 || has_overlap {
        return solve_npc_from_po(po, level);
    }
    let mut merged = if level == Consistency::SnapshotIsolation {
        Witness::SplitCommitOrder(Vec::new())
    } else {
        Witness::CommitOrder(Vec::new())
    };
    let mut ci: usize = 0;
    while ci < components.len()
        invariant
            0 <= ci <= components@.len(),
            po.well_formed(),
            po.av() == av,
            po.vis() == vis,
            av == atomic_view_of(sessions@),
            av.len() == sessions@.len(),
            least_causal(av, vis),
            atomic_ok(sessions@) && causal_ok(av),
            is_linearization_level(level),
            level_form(level, merged),
            reads_justified(av, vis),
            forall|t: (u64, u64)| !vis.contains((t, t)),
            level_order_exists_causal(av, level) ==> level_order_exists(av, vis, level),
            forall|x: Seq<u64>| #[trigger] has_list(components@, x) ==> vertex_list(comm_view(av).dom(), x, 1),
        decreases components@.len() - ci,
    {
        let component = &components[ci];
        proof {
            assert(has_list(components@, component@));
        }
        let mut sub: Vec<Session<V, u64>> = Vec::new();
        let mut j: usize = 0;
        while j < component.len()
            invariant
                0 <= j <= component@.len(),
                sub@.len() == j,
                vertex_list(comm_view(av).dom(), component@, 1),
                av.len() == sessions@.len(),
            decreases component@.len() - j,
        {
            let sid = component[j];
            proof {
                assert(comm_view(av).dom().contains(component@[j as int]));
            }
            sub.push(copy_session(&sessions[(sid - 1) as usize]));
            j = j + 1;
        }
        let sub_witness = if sub.len() == 1 {
            singleton_session_witness(&sub[0], level)
        } else {
            match check_npc_whole(&sub, level) {
                Ok(w) => w,
                Err(_) => return solve_npc_from_po(po, level),
            }
        };
        if !witness_within_exec(&sub_witness, component.len()) {
            return solve_npc_from_po(po, level);
        }
        let remapped = remap_witness(sub_witness, component);
        merged = merge_witnesses(merged, remapped);
        ci = ci + 1;
    }
    if witness_valid(&po, level, &merged) {
        Ok(merged)
    } else {
        solve_npc_from_po(po, level)
    }
}

/// Checks whether a history satisfies a consistency level.
///
/// On success, returns a witness: the visibility relation for the levels
/// decided by saturation, a commit order for Prefix consistency and
/// Serializability, a split commit order for Snapshot Isolation. A history
/// without transactions is consistent, with an empty commit order.
///
/// # Errors
///
/// - [`Error::NonAtomic`] if the history is not valid or not repeatable;
/// - [`Error::Cycle`] if a saturation check meets a cycle;
/// - [`Error::Invalid`] if the search finds no linearization.
pub fn check<V: Label>(sessions: &[Session<V, u64>], level: Consistency) -> (r: Result<Witness, Error<V, u64>>)
    ensures
        no_transactions(sessions@) ==> (r matches Ok(Witness::CommitOrder(o)) && o@.len() == 0),
        !is_linearization_level(level) || fits_sat(atomic_view_of(sessions@)) ==> (r.is_ok() <==> accepts(sessions@, level)),
        !no_transactions(sessions@) && level == Consistency::CommittedRead ==> (r.is_ok()
            <==> valid_history(sessions@) && acyclic_rel(committed_order(sessions@))),
        !no_transactions(sessions@) && level == Consistency::RepeatableRead ==> (r.is_ok() <==> atomic_ok(sessions@)),
        !no_transactions(sessions@) && level == Consistency::AtomicRead ==> (r.is_ok()
            <==> atomic_ok(sessions@) && acyclic_rel(atomic_vis(atomic_view_of(sessions@)))),
        !no_transactions(sessions@) && level == Consistency::Causal ==> (r.is_ok()
            <==> atomic_ok(sessions@) && causal_ok(atomic_view_of(sessions@))),
        !no_transactions(sessions@) && is_linearization_level(level) ==> {
            &&& r.is_ok() ==> atomic_ok(sessions@) && causal_ok(atomic_view_of(sessions@))
            &&& r matches Ok(w) ==> exists|vis: Set<((u64, u64), (u64, u64))>| #[trigger] least_causal(atomic_view_of(sessions@), vis)
                && witness_holds(atomic_view_of(sessions@), vis, level, w)
            &&& r matches Err(Error::Invalid(l)) ==> l == level && atomic_ok(sessions@) && causal_ok(atomic_view_of(sessions@))
            &&& atomic_ok(sessions@) && causal_ok(atomic_view_of(sessions@)) && fits_sat(atomic_view_of(sessions@))
                && level_order_exists_causal(atomic_view_of(sessions@), level) ==> r.is_ok()
            &&& r.is_ok() ==> level_order_exists_causal(atomic_view_of(sessions@), level)
            &&& r matches Err(Error::NonAtomic(_)) ==> !atomic_ok(sessions@)
            &&& r matches Err(Error::Cycle { level: l, .. }) ==> (l == Consistency::CommittedRead && !atomic_ok(sessions@))
                || (l == Consistency::Causal && atomic_ok(sessions@) && !causal_ok(atomic_view_of(sessions@)))
        },
        !no_transactions(sessions@) && !is_linearization_level(level) ==> {
            &&& r matches Ok(w) ==> w is SaturationOrder
            &&& !(r matches Err(Error::Invalid(_)))
            &&& r matches Err(Error::Cycle { level: l, .. }) ==> l == Consistency::CommittedRead
                || (l == Consistency::AtomicRead && level == Consistency::AtomicRead)
                || (l == Consistency::Causal && level == Consistency::Causal)
        },
{
    let mut all_empty = true;
    let mut s: usize = 0;
    while s < sessions.len()
        invariant
            0 <= s <= sessions@.len(),
            all_empty <==> forall|k: int| 0 <= k < s ==> #[trigger] sessions@[k]@.len() == 0,
        decreases sessions@.len() - s,
    {
        if sessions[s].len() > 0 {
            all_empty = false;
        }
        s = s + 1;
    }
    if all_empty {
        return Ok(Witness::CommitOrder(Vec::new()));
    }
    match level {
        Consistency::CommittedRead => match check_committed_read(sessions) {
            Ok(g) => Ok(Witness::SaturationOrder(g)),
            Err(e) => Err(e),
        },
        Consistency::RepeatableRead => match check_repeatable_read(sessions) {
            Err(e) => Err(e),
            Ok(()) => match check_committed_read(sessions) {
                Ok(g) => Ok(Witness::SaturationOrder(g)),
                Err(e) => Err(e),
            },
        },
        Consistency::AtomicRead => match check_atomic_read(sessions) {
            Ok(po) => Ok(Witness::SaturationOrder(po.visibility_relation)),
            Err(e) => Err(e),
        },
        Consistency::Causal => match check_causal_read(sessions) {
            Ok(po) => Ok(Witness::SaturationOrder(po.visibility_relation)),
            Err(e) => Err(e),
        },
        _ => {
            let r = check_npc(sessions, level);
            proof {
                if r is Ok {
                    let w = r->Ok_0;
                    let vis = choose|vis: Set<((u64, u64), (u64, u64))>| #[trigger] least_causal(atomic_view_of(sessions@), vis)
                        && witness_holds(atomic_view_of(sessions@), vis, level, w);
                    lemma_witness_order_exists(atomic_view_of(sessions@), vis, level, w);
                }
            }
            r
        },
    }
}

} // verus!
