//! How the consistency levels include one another.
use vstd::prelude::*;

use crate::consistency::saturation::atomic_read::atomic_vis;
use crate::consistency::saturation::causal::{causal_ok, causally_closed, lemma_acyclic_subset, lemma_ww_monotone};
use crate::graph::digraph::acyclic_rel;
use crate::history::atomic::types::AtomicView;
use crate::consistency::linearization::prefix::{is_prefix_order, lists_all_phases, reads_before_writes, split_read_explained, split_respects_vis, writes_at};
use crate::consistency::linearization::serializable::{is_serialization, lists_all_txns, read_explained, reads_of, respects_vis};
use crate::consistency::linearization::snapshot_isolation::{is_snapshot_order, no_concurrent_writers};
use crate::history::atomic::{is_txn, so_rel, wr_rel, writes_var, ww_rel};
use crate::consistency::saturation::committed_read::committed_order;
use crate::consistency::{accepts, lemma_acyclic_irreflexive, lemma_serial_order_to_snapshot, least_causal, level_order_exists, level_order_exists_causal, no_transactions, Consistency};
use crate::history::atomic::types::{atomic_ok, atomic_view_of};
use crate::history::raw::types::Transaction;
use crate::history::raw::valid_history;
use crate::label::Label;
use crate::sat::{lemma_least_causal_unique, lemma_reads_justified, phase_order_exists_causal, serial_order_exists};
use crate::sat::serializable::{serial_order, TxnRel};
use crate::sat::split::{prefix_phase_order, snapshot_phase_order, PhaseRel};

verus! {

/// A causal history satisfies Atomic Read: the visibility that Atomic Read
/// requires lies in every causally closed relation, so it is acyclic when
/// one of them is.
pub proof fn lemma_causal_implies_atomic_read(av: AtomicView)
    requires
        causal_ok(av),
    ensures
        acyclic_rel(atomic_vis(av)),
{
    let r = choose|r: Set<((u64, u64), (u64, u64))>| #[trigger] causally_closed(av, r) && acyclic_rel(r);
    let base = so_rel(av).union(wr_rel(av));
    assert(base.subset_of(r));
    lemma_ww_monotone(av, base, r);
    assert(atomic_vis(av).subset_of(r));
    lemma_acyclic_subset(atomic_vis(av), r);
}

/// The read and the write phase of each transaction of `ord`, in its order.
pub open spec fn split_phases(ord: Seq<(u64, u64)>) -> Seq<((u64, u64), bool)> {
    Seq::new(2 * ord.len(), |k: int| (ord[k / 2], k % 2 == 1))
}

/// A serialization, with each transaction split into its read and its write
/// phase, is an order of phases that Snapshot Isolation accepts: a
/// serializable history satisfies Snapshot Isolation.
pub proof fn lemma_serialization_is_snapshot_order(av: AtomicView, vis: Set<((u64, u64), (u64, u64))>, ord: Seq<(u64, u64)>)
    requires
        is_serialization(av, vis, ord),
    ensures
        is_snapshot_order(av, vis, split_phases(ord)),
{
    let sig = split_phases(ord);
    let n = ord.len() as int;
    assert forall|k: int| 0 <= k < 2 * n implies 0 <= #[trigger] (k / 2) < n && (k % 2 == 0 || k % 2 == 1)
        && k == 2 * (k / 2) + k % 2 by {}
    // every phase once
    assert forall|k: int, l: int| 0 <= k < sig.len() && 0 <= l < sig.len() && k != l implies #[trigger] sig[k] != #[trigger] sig[l] by {
        if sig[k] == sig[l] {
            assert(ord[k / 2] == ord[l / 2]);
            assert(k / 2 == l / 2);
        }
    }
    assert(sig.no_duplicates());
    assert forall|i: int| 0 <= i < sig.len() implies is_txn(av, #[trigger] sig[i].0) by {
        assert(is_txn(av, ord[i / 2]));
    }
    assert forall|t: (u64, u64)| #[trigger] is_txn(av, t) implies sig.contains((t, false)) && sig.contains((t, true)) by {
        assert(ord.contains(t));
        let m = choose|m: int| 0 <= m < ord.len() && ord[m] == t;
        assert(sig[2 * m] == (t, false));
        assert(sig[2 * m + 1] == (t, true));
    }
    assert(lists_all_phases(av, sig));
    assert forall|i: int, j: int| 0 <= j <= i < sig.len() && (#[trigger] sig[j]).1 && !(#[trigger] sig[i]).1 implies sig[j].0 != sig[i].0 by {
        if sig[j].0 == sig[i].0 {
            assert(ord[j / 2] == ord[i / 2]);
            assert(j / 2 == i / 2);
        }
    }
    assert(reads_before_writes(sig));
    assert forall|i: int, j: int| 0 <= j <= i < sig.len() && !(#[trigger] sig[j]).1 && (#[trigger] sig[i]).1
        implies !vis.contains((sig[i].0, sig[j].0)) by {
        assert(j / 2 <= i / 2);
        assert(!vis.contains((ord[i / 2], ord[j / 2])));
    }
    assert(split_respects_vis(vis, sig));
    assert forall|i: int, x: Seq<char>, w: (u64, u64)| 0 <= i < sig.len() && !sig[i].1
        && #[trigger] reads_of(av, sig[i].0).contains((x, w)) implies split_read_explained(av, sig, i, x, w) by {
        let m = i / 2;
        assert(i == 2 * m);
        assert(read_explained(av, ord, m, x, w));
        if w == (0u64, 0u64) && forall|k: int| 0 <= k < m ==> !writes_var(av, #[trigger] ord[k], x) {
            assert forall|k: int| 0 <= k < i implies !#[trigger] writes_at(av, sig, k, x) by {
                assert(k / 2 < m);
            }
        } else {
            let j = choose|j: int| 0 <= j < m && ord[j] == w && forall|k: int| j < k < m ==> !writes_var(av, #[trigger] ord[k], x);
            assert(sig[2 * j + 1] == (w, true));
            assert forall|k: int| 2 * j + 1 < k < i implies !#[trigger] writes_at(av, sig, k, x) by {
                if sig[k].1 {
                    assert(j < k / 2 < m);
                }
            }
        }
    }
    assert(is_prefix_order(av, vis, sig));
    assert forall|a: int, b: int, c: int|
        0 <= a < b < c < sig.len() && !(#[trigger] sig[a]).1 && !(#[trigger] sig[b]).1 && (#[trigger] sig[c]).1
        && sig[a].0 == sig[c].0 && sig[b].0 != sig[a].0 implies false by {
        assert(ord[a / 2] == ord[c / 2]);
        assert(a / 2 == c / 2);
    }
    assert(no_concurrent_writers(av, sig));
}

/// Every level includes the weaker ones: a history that satisfies
/// Serializability satisfies Snapshot Isolation, which satisfies Prefix
/// consistency, then Causal consistency, Atomic Read, Repeatable Read and
/// Read Committed.
pub proof fn lemma_levels_nested<V: Label>(h: Seq<Vec<Transaction<V, u64>>>)
    requires
        h.len() <= usize::MAX,
        forall|s: int| 0 <= s < h.len() ==> (#[trigger] h[s])@.len() <= usize::MAX,
    ensures
        accepts(h, Consistency::Serializable) ==> accepts(h, Consistency::SnapshotIsolation),
        accepts(h, Consistency::SnapshotIsolation) ==> accepts(h, Consistency::Prefix),
        accepts(h, Consistency::Prefix) ==> accepts(h, Consistency::Causal),
        accepts(h, Consistency::Causal) ==> accepts(h, Consistency::AtomicRead),
        accepts(h, Consistency::AtomicRead) ==> accepts(h, Consistency::RepeatableRead),
        accepts(h, Consistency::RepeatableRead) ==> accepts(h, Consistency::CommittedRead),
{
    let av = atomic_view_of(h);
    if !no_transactions(h) && atomic_ok(h) && causal_ok(av) {
        lemma_causal_implies_atomic_read(av);
        if level_order_exists_causal(av, Consistency::Serializable) {
            let vis = choose|vis: Set<((u64, u64), (u64, u64))>| #[trigger] least_causal(av, vis) && level_order_exists(av, vis, Consistency::Serializable);
            let rt = choose|rt: TxnRel| #[trigger] serial_order(av, vis, rt);
            let r = choose|r: Set<((u64, u64), (u64, u64))>| #[trigger] causally_closed(av, r) && acyclic_rel(r);
            assert(vis.subset_of(r));
            lemma_acyclic_irreflexive(r);
            assert forall|t: (u64, u64)| !vis.contains((t, t)) by {
                if vis.contains((t, t)) {
                    assert(r.contains((t, t)));
                }
            }
            assert(causally_closed(av, vis));
            lemma_reads_justified(h, vis);
            lemma_serial_order_to_snapshot(av, vis, rt);
            assert(level_order_exists(av, vis, Consistency::SnapshotIsolation));
        }
        if level_order_exists_causal(av, Consistency::SnapshotIsolation) {
            let vis = choose|vis: Set<((u64, u64), (u64, u64))>| #[trigger] least_causal(av, vis) && level_order_exists(av, vis, Consistency::SnapshotIsolation);
            let rp = choose|rp: PhaseRel| #[trigger] snapshot_phase_order(av, vis, rp);
            assert(prefix_phase_order(av, vis, rp));
            assert(level_order_exists(av, vis, Consistency::Prefix));
        }
    }
}

/// The search and the SAT encodings decide the same question: on a history
/// with transactions, Prefix consistency, Snapshot Isolation and
/// Serializability as [`crate::consistency::check`] decides them are the
/// existence of the orders that the SAT checks decide.
pub proof fn lemma_search_agrees_with_sat<V: Label>(h: Seq<Vec<Transaction<V, u64>>>)
    requires
        !no_transactions(h),
    ensures
        accepts(h, Consistency::Prefix) == (atomic_ok(h) && causal_ok(atomic_view_of(h)) && phase_order_exists_causal(atomic_view_of(h), false)),
        accepts(h, Consistency::SnapshotIsolation) == (atomic_ok(h) && causal_ok(atomic_view_of(h)) && phase_order_exists_causal(atomic_view_of(h), true)),
        accepts(h, Consistency::Serializable) == (atomic_ok(h) && causal_ok(atomic_view_of(h)) && serial_order_exists(atomic_view_of(h))),
{
    let av = atomic_view_of(h);
    if serial_order_exists(av) {
        let (vis, rt) = choose|vis: Set<((u64, u64), (u64, u64))>, rt: TxnRel| #[trigger] least_causal(av, vis) && #[trigger] serial_order(av, vis, rt);
        assert(level_order_exists(av, vis, Consistency::Serializable));
    }
    if level_order_exists_causal(av, Consistency::Serializable) {
        let vis = choose|vis: Set<((u64, u64), (u64, u64))>| #[trigger] least_causal(av, vis) && level_order_exists(av, vis, Consistency::Serializable);
        let rt = choose|rt: TxnRel| #[trigger] serial_order(av, vis, rt);
        assert(least_causal(av, vis) && serial_order(av, vis, rt));
    }
    if phase_order_exists_causal(av, false) {
        let vis = choose|vis: Set<((u64, u64), (u64, u64))>| #[trigger] least_causal(av, vis) && crate::sat::split::phase_order_exists(av, vis, false);
        assert(level_order_exists(av, vis, Consistency::Prefix));
    }
    if phase_order_exists_causal(av, true) {
        let vis = choose|vis: Set<((u64, u64), (u64, u64))>| #[trigger] least_causal(av, vis) && crate::sat::split::phase_order_exists(av, vis, true);
        assert(level_order_exists(av, vis, Consistency::SnapshotIsolation));
    }
}

} // verus!
