//! What the search finds, the solver cannot refute: an order that the
//! search accepts gives a relation that satisfies the solver's clauses.
use vstd::prelude::*;

use crate::consistency::linearization::prefix::{is_prefix_order, split_read_explained, writes_at};
use crate::consistency::linearization::serializable::{is_serialization, read_explained, reads_of};
use crate::consistency::linearization::snapshot_isolation::{is_snapshot_order, shares_write};
use crate::consistency::witness::Witness;
use crate::consistency::{least_causal, witness_holds, Consistency};
use crate::graph::digraph::tid_views;
use crate::history::atomic::types::AtomicView;
use crate::history::atomic::{is_txn, wr_edge, writes_var};
use crate::sat::serializable::{serial_order, TxnRel};
use crate::sat::split::{phase_order_exists, prefix_phase_order, snapshot_phase_order, Phase, PhaseRel};
use crate::sat::{phase_order_exists_causal, serial_order_exists};

verus! {

/// `a` comes before `b` in `s`.
pub open spec fn earlier<A>(s: Seq<A>, a: A, b: A) -> bool {
    exists|i: int, j: int| 0 <= i < j < s.len() && s[i] == a && s[j] == b
}

/// The order of a serialization is an order that the solver's clauses for
/// serializability accept.
pub proof fn lemma_serialization_gives_serial_order(av: AtomicView, vis: Set<((u64, u64), (u64, u64))>, ord: Seq<(u64, u64)>)
    requires
        is_serialization(av, vis, ord),
    ensures
        serial_order(av, vis, |a: (u64, u64), b: (u64, u64)| earlier(ord, a, b)),
{
    let rt = |a: (u64, u64), b: (u64, u64)| earlier(ord, a, b);
    assert forall|a: (u64, u64), b: (u64, u64)| #![trigger rt(a, b), rt(b, a)]
        is_txn(av, a) && is_txn(av, b) && a != b implies (rt(a, b) || rt(b, a)) && !(rt(a, b) && rt(b, a)) by {
        assert(ord.contains(a) && ord.contains(b));
        let ia = choose|i: int| 0 <= i < ord.len() && ord[i] == a;
        let ib = choose|i: int| 0 <= i < ord.len() && ord[i] == b;
        if ia < ib {
            assert(rt(a, b));
        } else {
            assert(rt(b, a));
        }
        if rt(a, b) && rt(b, a) {
            let (i, j) = choose|i: int, j: int| 0 <= i < j < ord.len() && ord[i] == a && ord[j] == b;
            let (k, l) = choose|k: int, l: int| 0 <= k < l < ord.len() && ord[k] == b && ord[l] == a;
            assert(ord[i] == ord[l]);
            assert(ord[j] == ord[k]);
        }
    }
    assert forall|a: (u64, u64), b: (u64, u64), c: (u64, u64)| #![trigger rt(a, b), rt(b, c)]
        is_txn(av, a) && is_txn(av, b) && is_txn(av, c) && a != b && b != c && a != c && rt(a, b) && rt(b, c) implies rt(a, c) by {
        let (i, j) = choose|i: int, j: int| 0 <= i < j < ord.len() && ord[i] == a && ord[j] == b;
        let (k, l) = choose|k: int, l: int| 0 <= k < l < ord.len() && ord[k] == b && ord[l] == c;
        assert(ord[j] == ord[k]);
        assert(0 <= i < l < ord.len() && ord[i] == a && ord[l] == c);
    }
    assert forall|a: (u64, u64), b: (u64, u64)| #![trigger vis.contains((a, b))]
        is_txn(av, a) && is_txn(av, b) && vis.contains((a, b)) implies rt(a, b) by {
        assert(ord.contains(a) && ord.contains(b));
        let ia = choose|i: int| 0 <= i < ord.len() && ord[i] == a;
        let ib = choose|i: int| 0 <= i < ord.len() && ord[i] == b;
        if ib <= ia {
            assert(!vis.contains((ord[ia], ord[ib])));
        }
    }
    assert forall|x: Seq<char>, a: (u64, u64), b: (u64, u64)| #![trigger wr_edge(av, x, (0u64, 0u64), a), writes_var(av, b, x)]
        wr_edge(av, x, (0u64, 0u64), a) && writes_var(av, b, x) && a != b implies rt(a, b) by {
        assert(ord.contains(a) && ord.contains(b));
        let ia = choose|i: int| 0 <= i < ord.len() && ord[i] == a;
        let ib = choose|i: int| 0 <= i < ord.len() && ord[i] == b;
        assert(reads_of(av, ord[ia]).contains((x, (0u64, 0u64))));
        assert(read_explained(av, ord, ia, x, (0u64, 0u64)));
        if exists|j: int| 0 <= j < ia && ord[j] == (0u64, 0u64) {
            let j = choose|j: int| 0 <= j < ia && ord[j] == (0u64, 0u64);
            assert(is_txn(av, ord[j]));
        }
        if ib < ia {
            assert(writes_var(av, ord[ib], x));
        }
        assert(ia != ib);
    }
    assert forall|x: Seq<char>, w1: (u64, u64), w2: (u64, u64), rd: (u64, u64)| #![trigger wr_edge(av, x, w1, rd), writes_var(av, w2, x)]
        writes_var(av, w1, x) && writes_var(av, w2, x) && w1 != w2 && wr_edge(av, x, w1, rd) && rd != w2 && rt(w1, w2)
        implies rt(w1, rd) && rt(rd, w2) by {
        let (i1, i2) = choose|i: int, j: int| 0 <= i < j < ord.len() && ord[i] == w1 && ord[j] == w2;
        assert(ord.contains(rd));
        let ir = choose|i: int| 0 <= i < ord.len() && ord[i] == rd;
        assert(reads_of(av, ord[ir]).contains((x, w1)));
        assert(read_explained(av, ord, ir, x, w1));
        let j = choose|j: int| 0 <= j < ir && ord[j] == w1 && forall|k: int| j < k < ir ==> !writes_var(av, #[trigger] ord[k], x);
        assert(j == i1);
        if i2 < ir {
            assert(writes_var(av, ord[i2], x));
        }
        assert(i2 != ir);
        assert(0 <= i1 < ir < ord.len() && ord[i1] == w1 && ord[ir] == rd);
        assert(0 <= ir < i2 < ord.len() && ord[ir] == rd && ord[i2] == w2);
    }
}

/// The position of a phase of a transaction in an order that lists all
/// phases.
proof fn phase_pos(av: AtomicView, vis: Set<((u64, u64), (u64, u64))>, sig: Seq<Phase>, p: Phase) -> (i: int)
    requires
        is_prefix_order(av, vis, sig),
        is_txn(av, p.0),
    ensures
        0 <= i < sig.len(),
        sig[i] == p,
{
    assert(sig.contains((p.0, false)) && sig.contains((p.0, true)));
    if p.1 {
        assert(p == (p.0, true));
    } else {
        assert(p == (p.0, false));
    }
    choose|i: int| 0 <= i < sig.len() && sig[i] == p
}

/// Positions of an order without duplicates are unique.
proof fn lemma_unique_pos(sig: Seq<Phase>, i: int, j: int)
    requires
        sig.no_duplicates(),
        0 <= i < sig.len(),
        0 <= j < sig.len(),
        sig[i] == sig[j],
    ensures
        i == j,
{
}

/// `earlier` holds exactly of the positions in order.
proof fn lemma_earlier_pos(sig: Seq<Phase>, p: Phase, q: Phase, i: int, j: int)
    requires
        sig.no_duplicates(),
        0 <= i < sig.len(),
        0 <= j < sig.len(),
        sig[i] == p,
        sig[j] == q,
    ensures
        earlier(sig, p, q) == (i < j),
{
    if earlier(sig, p, q) {
        let (k, l) = choose|k: int, l: int| 0 <= k < l < sig.len() && sig[k] == p && sig[l] == q;
        lemma_unique_pos(sig, i, k);
        lemma_unique_pos(sig, j, l);
    }
}

/// The order relation of the phases of a Prefix order.
proof fn lemma_phase_rel_order(av: AtomicView, vis: Set<((u64, u64), (u64, u64))>, sig: Seq<Phase>)
    requires
        is_prefix_order(av, vis, sig),
    ensures
        ({
            let rp = |p: Phase, q: Phase| earlier(sig, p, q);
            &&& forall|p: Phase, q: Phase| #![trigger rp(p, q), rp(q, p)]
                is_txn(av, p.0) && is_txn(av, q.0) && p != q ==> (rp(p, q) || rp(q, p)) && !(rp(p, q) && rp(q, p))
            &&& forall|p: Phase, q: Phase, u: Phase| #![trigger rp(p, q), rp(q, u)]
                is_txn(av, p.0) && is_txn(av, q.0) && is_txn(av, u.0) && p != q && q != u && p != u && rp(p, q) && rp(q, u) ==> rp(p, u)
            &&& forall|t: (u64, u64)| #[trigger] is_txn(av, t) ==> rp((t, false), (t, true))
            &&& forall|a: (u64, u64), b: (u64, u64)| #![trigger vis.contains((a, b))]
                is_txn(av, a) && is_txn(av, b) && vis.contains((a, b)) ==> rp((a, true), (b, false))
        }),
{
    let rp = |p: Phase, q: Phase| earlier(sig, p, q);
    assert forall|p: Phase, q: Phase| #![trigger rp(p, q), rp(q, p)]
        is_txn(av, p.0) && is_txn(av, q.0) && p != q implies (rp(p, q) || rp(q, p)) && !(rp(p, q) && rp(q, p)) by {
        let ia = phase_pos(av, vis, sig, p);
        let ib = phase_pos(av, vis, sig, q);
        lemma_earlier_pos(sig, p, q, ia, ib);
        lemma_earlier_pos(sig, q, p, ib, ia);
    }
    assert forall|p: Phase, q: Phase, u: Phase| #![trigger rp(p, q), rp(q, u)]
        is_txn(av, p.0) && is_txn(av, q.0) && is_txn(av, u.0) && p != q && q != u && p != u && rp(p, q) && rp(q, u) implies rp(p, u) by {
        let ia = phase_pos(av, vis, sig, p);
        let ib = phase_pos(av, vis, sig, q);
        let ic = phase_pos(av, vis, sig, u);
        lemma_earlier_pos(sig, p, q, ia, ib);
        lemma_earlier_pos(sig, q, u, ib, ic);
        lemma_earlier_pos(sig, p, u, ia, ic);
    }
    assert forall|t: (u64, u64)| #[trigger] is_txn(av, t) implies rp((t, false), (t, true)) by {
        let ir = phase_pos(av, vis, sig, (t, false));
        let iw = phase_pos(av, vis, sig, (t, true));
        lemma_earlier_pos(sig, (t, false), (t, true), ir, iw);
        if iw <= ir {
            assert(sig[iw].1 && !sig[ir].1);
        }
    }
    assert forall|a: (u64, u64), b: (u64, u64)| #![trigger vis.contains((a, b))]
        is_txn(av, a) && is_txn(av, b) && vis.contains((a, b)) implies rp((a, true), (b, false)) by {
        let iw = phase_pos(av, vis, sig, (a, true));
        let ir = phase_pos(av, vis, sig, (b, false));
        lemma_earlier_pos(sig, (a, true), (b, false), iw, ir);
        if ir <= iw {
            assert(!sig[ir].1 && sig[iw].1);
        }
    }
}

/// The read rules of the phases of a Prefix order.
proof fn lemma_phase_rel_reads(av: AtomicView, vis: Set<((u64, u64), (u64, u64))>, sig: Seq<Phase>)
    requires
        is_prefix_order(av, vis, sig),
    ensures
        ({
            let rp = |p: Phase, q: Phase| earlier(sig, p, q);
            &&& forall|x: Seq<char>, a: (u64, u64), b: (u64, u64)| #![trigger wr_edge(av, x, (0u64, 0u64), a), writes_var(av, b, x)]
                wr_edge(av, x, (0u64, 0u64), a) && writes_var(av, b, x) && a != b ==> rp((a, false), (b, true))
            &&& forall|x: Seq<char>, w1: (u64, u64), w2: (u64, u64), rd: (u64, u64)| #![trigger wr_edge(av, x, w1, rd), writes_var(av, w2, x)]
                writes_var(av, w1, x) && writes_var(av, w2, x) && w1 != w2 && wr_edge(av, x, w1, rd) && rd != w2 && rp((w1, true), (w2, true))
                ==> rp((w1, true), (rd, false)) && rp((rd, false), (w2, true))
        }),
{
    let rp = |p: Phase, q: Phase| earlier(sig, p, q);
    assert forall|x: Seq<char>, a: (u64, u64), b: (u64, u64)| #![trigger wr_edge(av, x, (0u64, 0u64), a), writes_var(av, b, x)]
        wr_edge(av, x, (0u64, 0u64), a) && writes_var(av, b, x) && a != b implies rp((a, false), (b, true)) by {
        let ir = phase_pos(av, vis, sig, (a, false));
        let iw = phase_pos(av, vis, sig, (b, true));
        lemma_earlier_pos(sig, (a, false), (b, true), ir, iw);
        assert(reads_of(av, sig[ir].0).contains((x, (0u64, 0u64))));
        assert(split_read_explained(av, sig, ir, x, (0u64, 0u64)));
        if exists|j: int| 0 <= j < ir && sig[j] == ((0u64, 0u64), true) {
            let j = choose|j: int| 0 <= j < ir && sig[j] == ((0u64, 0u64), true);
            assert(is_txn(av, sig[j].0));
        }
        if iw < ir {
            assert(writes_at(av, sig, iw, x));
        }
    }
    assert forall|x: Seq<char>, w1: (u64, u64), w2: (u64, u64), rd: (u64, u64)| #![trigger wr_edge(av, x, w1, rd), writes_var(av, w2, x)]
        writes_var(av, w1, x) && writes_var(av, w2, x) && w1 != w2 && wr_edge(av, x, w1, rd) && rd != w2 && rp((w1, true), (w2, true))
        implies rp((w1, true), (rd, false)) && rp((rd, false), (w2, true)) by {
        let i1 = phase_pos(av, vis, sig, (w1, true));
        let i2 = phase_pos(av, vis, sig, (w2, true));
        let ir = phase_pos(av, vis, sig, (rd, false));
        lemma_earlier_pos(sig, (w1, true), (w2, true), i1, i2);
        lemma_earlier_pos(sig, (w1, true), (rd, false), i1, ir);
        lemma_earlier_pos(sig, (rd, false), (w2, true), ir, i2);
        assert(reads_of(av, sig[ir].0).contains((x, w1)));
        assert(split_read_explained(av, sig, ir, x, w1));
        let j = choose|j: int| 0 <= j < ir && sig[j] == (w1, true) && forall|k: int| j < k < ir ==> !#[trigger] writes_at(av, sig, k, x);
        lemma_unique_pos(sig, j, i1);
        if i2 < ir {
            assert(writes_at(av, sig, i2, x));
        }
    }
}

/// The write rule of Snapshot Isolation, for the phases of its orders.
proof fn lemma_phase_rel_conflicts(av: AtomicView, vis: Set<((u64, u64), (u64, u64))>, sig: Seq<Phase>)
    requires
        is_snapshot_order(av, vis, sig),
    ensures
        ({
            let rp = |p: Phase, q: Phase| earlier(sig, p, q);
            forall|a: (u64, u64), b: (u64, u64)| #![trigger shares_write(av, a, b)]
                is_txn(av, a) && is_txn(av, b) && a != b && shares_write(av, a, b) ==> rp((a, true), (b, false)) || rp((b, true), (a, false))
        }),
{
    let rp = |p: Phase, q: Phase| earlier(sig, p, q);
    lemma_phase_rel_order(av, vis, sig);
    assert forall|a: (u64, u64), b: (u64, u64)| #![trigger shares_write(av, a, b)]
        is_txn(av, a) && is_txn(av, b) && a != b && shares_write(av, a, b)
        implies rp((a, true), (b, false)) || rp((b, true), (a, false)) by {
        let ar = phase_pos(av, vis, sig, (a, false));
        let aw = phase_pos(av, vis, sig, (a, true));
        let br = phase_pos(av, vis, sig, (b, false));
        let bw = phase_pos(av, vis, sig, (b, true));
        lemma_earlier_pos(sig, (a, true), (b, false), aw, br);
        lemma_earlier_pos(sig, (b, true), (a, false), bw, ar);
        lemma_earlier_pos(sig, (a, false), (a, true), ar, aw);
        lemma_earlier_pos(sig, (b, false), (b, true), br, bw);
        assert(rp((a, false), (a, true)) && rp((b, false), (b, true)));
        if !(aw < br) && !(bw < ar) {
            if ar < br {
                assert(!sig[ar].1 && !sig[br].1 && sig[aw].1 && sig[ar].0 == sig[aw].0 && sig[br].0 != sig[ar].0);
            } else {
                if ar == br {
                    assert(sig[ar].0 == sig[br].0);
                }
                let x = choose|x: Seq<char>| #[trigger] writes_var(av, a, x) && writes_var(av, b, x);
                assert(writes_var(av, b, x) && writes_var(av, a, x));
                assert(shares_write(av, b, a));
                assert(!sig[br].1 && !sig[ar].1 && sig[bw].1 && sig[br].0 == sig[bw].0 && sig[ar].0 != sig[br].0);
            }
        }
    }
}

/// An order of phases that Prefix consistency accepts is one that the
/// solver's clauses for Prefix consistency accept; one that Snapshot
/// Isolation accepts is one that its clauses accept.
pub proof fn lemma_phase_order_gives_phase_rel(av: AtomicView, vis: Set<((u64, u64), (u64, u64))>, sig: Seq<Phase>)
    requires
        is_prefix_order(av, vis, sig),
    ensures
        prefix_phase_order(av, vis, |p: Phase, q: Phase| earlier(sig, p, q)),
        is_snapshot_order(av, vis, sig) ==> snapshot_phase_order(av, vis, |p: Phase, q: Phase| earlier(sig, p, q)),
{
    lemma_phase_rel_order(av, vis, sig);
    lemma_phase_rel_reads(av, vis, sig);
    if is_snapshot_order(av, vis, sig) {
        lemma_phase_rel_conflicts(av, vis, sig);
    }
}

/// A serialization that the search finds under the least causally closed
/// visibility shows that the solver finds the history serializable.
pub proof fn lemma_search_serialization_satisfies_solver(av: AtomicView, vis: Set<((u64, u64), (u64, u64))>, w: Witness)
    requires
        least_causal(av, vis),
        witness_holds(av, vis, Consistency::Serializable, w),
    ensures
        serial_order_exists(av),
{
    if let Witness::CommitOrder(o) = w {
        lemma_serialization_gives_serial_order(av, vis, tid_views(o@));
        let rt = |a: (u64, u64), b: (u64, u64)| earlier(tid_views(o@), a, b);
        assert(least_causal(av, vis) && serial_order(av, vis, rt));
    }
}

/// An order that the search finds for Prefix consistency (with `si`,
/// Snapshot Isolation) shows that the solver's clauses are satisfiable.
pub proof fn lemma_search_phases_satisfy_solver(av: AtomicView, vis: Set<((u64, u64), (u64, u64))>, w: Witness, si: bool)
    requires
        least_causal(av, vis),
        witness_holds(av, vis, if si { Consistency::SnapshotIsolation } else { Consistency::Prefix }, w),
    ensures
        phase_order_exists_causal(av, si),
{
    if si {
        if let Witness::SplitCommitOrder(s) = w {
            let sig = crate::consistency::linearization::prefix::phase_views(s@);
            lemma_phase_order_gives_phase_rel(av, vis, sig);
            let rp = |p: Phase, q: Phase| earlier(sig, p, q);
            assert(snapshot_phase_order(av, vis, rp));
            assert(phase_order_exists(av, vis, true));
        }
    } else {
        if let Witness::CommitOrder(o) = w {
            let sig = choose|sig: Seq<Phase>| #[trigger] is_prefix_order(av, vis, sig)
                && tid_views(o@) == crate::consistency::linearization::prefix::write_projection(sig);
            lemma_phase_order_gives_phase_rel(av, vis, sig);
            let rp = |p: Phase, q: Phase| earlier(sig, p, q);
            assert(prefix_phase_order(av, vis, rp));
            assert(phase_order_exists(av, vis, false));
        }
    }
}

} // verus!
