//! Prefix consistency and Snapshot Isolation as satisfiability questions.
//!
//! Each transaction has a read phase and a write phase. With `n`
//! transactions, vertex `i` is the read phase and vertex `n + i` the write
//! phase of transaction `i` of the numbering.
use vstd::prelude::*;

use crate::consistency::linearization::prefix::{check_prefix_order, is_prefix_order, lists_all_phases, phase_views, reads_before_writes, split_read_explained, split_respects_vis, writes_at};
use crate::consistency::linearization::serializable::reads_of;
use crate::consistency::linearization::snapshot_isolation::{check_snapshot_order, is_snapshot_order, no_concurrent_writers, shares_write, shares_write_exec};
use crate::graph::digraph::tid_views;
use crate::history::atomic::types::{AtomicView, TransactionId};
use crate::history::atomic::{is_txn, wr_edge, writes_var, AtomicTransactionPO};
use crate::label::Label;
use crate::sat::encoding::{add1, add2, encode_ordering, pair_clauses_hold, total_on, transitive_on, units_hold, Encoder, Rel};
use crate::sat::serializable::{add_initial_readers, add_reads_between, add_visibility, between_ok, initial_first_ok, vis_ok};
use crate::sat::solver::VAR_LIMIT;
use crate::sat::vertices::{lemma_numbering_injective, number_of, number_transactions, numbering, txn_count};

verus! {

/// The read phase of each transaction comes before its write phase.
pub open spec fn phases_ok(n: int, r: Rel) -> bool {
    forall|i: int| 0 <= i < n ==> #[trigger] r(i, n + i)
}

/// Two transactions that write a common variable do not overlap: one
/// writes before the other reads.
pub open spec fn conflicts_ok(av: AtomicView, tv: Seq<(u64, u64)>, r: Rel) -> bool {
    forall|i: int, j: int| #![trigger shares_write(av, tv[i], tv[j])]
        0 <= i < j < tv.len() && shares_write(av, tv[i], tv[j]) ==> r(tv.len() + i, j) || r(tv.len() + j, i)
}

/// `r` orders the phases of the numbering `tv` as Prefix consistency asks.
pub open spec fn prefix_positions(av: AtomicView, vis: Set<((u64, u64), (u64, u64))>, tv: Seq<(u64, u64)>, r: Rel) -> bool {
    &&& total_on(r, 2 * tv.len() as int)
    &&& transitive_on(r, 2 * tv.len() as int)
    &&& phases_ok(tv.len() as int, r)
    &&& vis_ok(vis, tv, tv.len() as int, r)
    &&& initial_first_ok(av, tv, tv.len() as int, r)
    &&& between_ok(av, tv, tv.len() as int, r)
}

/// `r` orders the phases of the numbering `tv` as Snapshot Isolation asks.
pub open spec fn snapshot_positions(av: AtomicView, vis: Set<((u64, u64), (u64, u64))>, tv: Seq<(u64, u64)>, r: Rel) -> bool {
    prefix_positions(av, vis, tv, r) && conflicts_ok(av, tv, r)
}

/// Requires the read phase of every transaction to come before its write
/// phase.
fn add_phases(e: &mut Encoder, n: usize)
    requires
        old(e).wf(),
        old(e).width() == 2 * n,
    ensures
        final(e).wf(),
        final(e).width() == old(e).width(),
        forall|r: Rel| #[trigger] pair_clauses_hold(r, final(e).pairs@) == (pair_clauses_hold(r, old(e).pairs@) && phases_ok(n as int, r)),
{
    proof {
        let x = old(e).width();
        assert(x < VAR_LIMIT) by (nonlinear_arith)
            requires x * x < VAR_LIMIT, x >= 0;
    }
    let mut i: usize = 0;
    while i < n
        invariant
            0 <= i <= n,
            2 * n < VAR_LIMIT,
            e.wf(),
            e.width() == 2 * n,
            forall|r: Rel| #[trigger] pair_clauses_hold(r, e.pairs@)
                == (pair_clauses_hold(r, old(e).pairs@) && forall|m: int| 0 <= m < i ==> #[trigger] r(m, n + m)),
        decreases n - i,
    {
        let ghost p0 = e.pairs@;
        add1(e, (i, n + i), true);
        proof {
            assert forall|r: Rel| #[trigger] pair_clauses_hold(r, e.pairs@)
                == (pair_clauses_hold(r, old(e).pairs@) && forall|m: int| 0 <= m < i + 1 ==> #[trigger] r(m, n + m)) by {
                assert(pair_clauses_hold(r, p0) == (pair_clauses_hold(r, old(e).pairs@) && forall|m: int| 0 <= m < i ==> #[trigger] r(m, n + m)));
            }
        }
        i = i + 1;
    }
}

/// Requires two transactions that write a common variable not to overlap.
fn add_conflicts<V: Label>(e: &mut Encoder, po: &AtomicTransactionPO<V>, txns: &Vec<TransactionId>)
    requires
        old(e).wf(),
        old(e).width() == 2 * txns@.len(),
    ensures
        final(e).wf(),
        final(e).width() == old(e).width(),
        forall|r: Rel| #[trigger] pair_clauses_hold(r, final(e).pairs@)
            == (pair_clauses_hold(r, old(e).pairs@) && conflicts_ok(po.av(), tid_views(txns@), r)),
{
    let ghost tv = tid_views(txns@);
    let ghost av = po.av();
    let n = txns.len();
    proof {
        let x = old(e).width();
        assert(x < VAR_LIMIT) by (nonlinear_arith)
            requires x * x < VAR_LIMIT, x >= 0;
    }
    let mut i: usize = 0;
    while i < n
        invariant
            0 <= i <= n,
            2 * n < VAR_LIMIT,
            n == txns@.len(),
            tv == tid_views(txns@),
            av == po.av(),
            e.wf(),
            e.width() == 2 * n,
            forall|r: Rel| #[trigger] pair_clauses_hold(r, e.pairs@) == (pair_clauses_hold(r, old(e).pairs@)
                && forall|i1: int, j1: int| #![trigger shares_write(av, tv[i1], tv[j1])]
                    0 <= i1 < j1 < n && i1 < i && shares_write(av, tv[i1], tv[j1]) ==> r(n + i1, j1) || r(n + j1, i1)),
        decreases n - i,
    {
        let mut j: usize = i + 1;
        while j < n
            invariant
                0 <= i < n,
                i + 1 <= j <= n,
                2 * n < VAR_LIMIT,
                n == txns@.len(),
                tv == tid_views(txns@),
                av == po.av(),
                e.wf(),
                e.width() == 2 * n,
                forall|r: Rel| #[trigger] pair_clauses_hold(r, e.pairs@) == (pair_clauses_hold(r, old(e).pairs@)
                    && forall|i1: int, j1: int| #![trigger shares_write(av, tv[i1], tv[j1])]
                        0 <= i1 < j1 < n && (i1 < i || (i1 == i && j1 < j)) && shares_write(av, tv[i1], tv[j1]) ==> r(n + i1, j1) || r(n + j1, i1)),
            decreases n - j,
        {
            let ghost p0 = e.pairs@;
            if shares_write_exec(po, txns[i], txns[j]) {
                add2(e, (n + i, j), true, (n + j, i), true);
                proof {
                    assert(shares_write(av, tv[i as int], tv[j as int]));
                    assert forall|r: Rel| #[trigger] pair_clauses_hold(r, e.pairs@) == (pair_clauses_hold(r, old(e).pairs@)
                        && forall|i1: int, j1: int| #![trigger shares_write(av, tv[i1], tv[j1])]
                            0 <= i1 < j1 < n && (i1 < i || (i1 == i && j1 < j + 1)) && shares_write(av, tv[i1], tv[j1]) ==> r(n + i1, j1) || r(n + j1, i1)) by {
                        assert(pair_clauses_hold(r, p0) == (pair_clauses_hold(r, old(e).pairs@)
                            && forall|i1: int, j1: int| #![trigger shares_write(av, tv[i1], tv[j1])]
                                0 <= i1 < j1 < n && (i1 < i || (i1 == i && j1 < j)) && shares_write(av, tv[i1], tv[j1]) ==> r(n + i1, j1) || r(n + j1, i1)));
                    }
                }
            } else {
                proof {
                    assert(!shares_write(av, tv[i as int], tv[j as int]));
                    assert forall|r: Rel| #[trigger] pair_clauses_hold(r, e.pairs@) == (pair_clauses_hold(r, old(e).pairs@)
                        && forall|i1: int, j1: int| #![trigger shares_write(av, tv[i1], tv[j1])]
                            0 <= i1 < j1 < n && (i1 < i || (i1 == i && j1 < j + 1)) && shares_write(av, tv[i1], tv[j1]) ==> r(n + i1, j1) || r(n + j1, i1)) by {
                        assert(pair_clauses_hold(r, p0) == (pair_clauses_hold(r, old(e).pairs@)
                            && forall|i1: int, j1: int| #![trigger shares_write(av, tv[i1], tv[j1])]
                                0 <= i1 < j1 < n && (i1 < i || (i1 == i && j1 < j)) && shares_write(av, tv[i1], tv[j1]) ==> r(n + i1, j1) || r(n + j1, i1)));
                    }
                }
            }
            j = j + 1;
        }
        i = i + 1;
    }
}

// ---------------------------------------------------------------------------
// Orders of phases
// ---------------------------------------------------------------------------

/// A phase: a transaction and whether it is the write phase.
pub type Phase = ((u64, u64), bool);

/// A relation on phases: `rp(p, q)` says that `p` comes before `q`.
pub type PhaseRel = spec_fn(Phase, Phase) -> bool;

/// `rp` orders the phases of the transactions of `av` as Prefix consistency
/// asks: a strict total order in which each read phase comes before its
/// write phase, visibility puts the write phase of the earlier transaction
/// before the read phase of the later, the initial readers of a variable
/// read before the other writers write it, and a reader of a variable from
/// `w1` reads between the write of `w1` and that of any other writer that
/// follows `w1`.
pub open spec fn prefix_phase_order(av: AtomicView, vis: Set<((u64, u64), (u64, u64))>, rp: PhaseRel) -> bool {
    &&& forall|p: Phase, q: Phase| #![trigger rp(p, q), rp(q, p)]
        is_txn(av, p.0) && is_txn(av, q.0) && p != q ==> (rp(p, q) || rp(q, p)) && !(rp(p, q) && rp(q, p))
    &&& forall|p: Phase, q: Phase, u: Phase| #![trigger rp(p, q), rp(q, u)]
        is_txn(av, p.0) && is_txn(av, q.0) && is_txn(av, u.0) && p != q && q != u && p != u && rp(p, q) && rp(q, u) ==> rp(p, u)
    &&& forall|t: (u64, u64)| #[trigger] is_txn(av, t) ==> rp((t, false), (t, true))
    &&& forall|a: (u64, u64), b: (u64, u64)| #![trigger vis.contains((a, b))]
        is_txn(av, a) && is_txn(av, b) && vis.contains((a, b)) ==> rp((a, true), (b, false))
    &&& forall|x: Seq<char>, a: (u64, u64), b: (u64, u64)| #![trigger wr_edge(av, x, (0u64, 0u64), a), writes_var(av, b, x)]
        wr_edge(av, x, (0u64, 0u64), a) && writes_var(av, b, x) && a != b ==> rp((a, false), (b, true))
    &&& forall|x: Seq<char>, w1: (u64, u64), w2: (u64, u64), rd: (u64, u64)| #![trigger wr_edge(av, x, w1, rd), writes_var(av, w2, x)]
        writes_var(av, w1, x) && writes_var(av, w2, x) && w1 != w2 && wr_edge(av, x, w1, rd) && rd != w2 && rp((w1, true), (w2, true))
        ==> rp((w1, true), (rd, false)) && rp((rd, false), (w2, true))
}

/// `rp` orders the phases as Snapshot Isolation asks: as Prefix consistency,
/// and two transactions that write a common variable do not overlap.
pub open spec fn snapshot_phase_order(av: AtomicView, vis: Set<((u64, u64), (u64, u64))>, rp: PhaseRel) -> bool {
    &&& prefix_phase_order(av, vis, rp)
    &&& forall|a: (u64, u64), b: (u64, u64)| #![trigger shares_write(av, a, b)]
        is_txn(av, a) && is_txn(av, b) && a != b && shares_write(av, a, b) ==> rp((a, true), (b, false)) || rp((b, true), (a, false))
}

/// The vertex of a phase.
pub open spec fn phase_number(offsets: Seq<usize>, n: int, p: Phase) -> int {
    number_of(offsets, p.0) + if p.1 { n } else { 0 }
}

/// The phase of a vertex.
pub open spec fn phase_at(tv: Seq<(u64, u64)>, v: int) -> Phase {
    if v < tv.len() { (tv[v], false) } else { (tv[v - tv.len()], true) }
}

/// Sharing a write is symmetric.
pub(crate) proof fn lemma_shares_write_symmetric(av: AtomicView, a: (u64, u64), b: (u64, u64))
    requires
        shares_write(av, a, b),
    ensures
        shares_write(av, b, a),
{
    let x = choose|x: Seq<char>| #[trigger] writes_var(av, a, x) && writes_var(av, b, x);
    assert(writes_var(av, b, x) && writes_var(av, a, x));
}

/// An order of the vertices is an order of the phases.
proof fn lemma_positions_to_phases(av: AtomicView, vis: Set<((u64, u64), (u64, u64))>, tv: Seq<(u64, u64)>, offsets: Seq<usize>, rel: Rel, si: bool)
    requires
        numbering(av, tv, offsets),
        prefix_positions(av, vis, tv, rel),
        si ==> conflicts_ok(av, tv, rel),
    ensures
        prefix_phase_order(av, vis, |p: Phase, q: Phase| rel(phase_number(offsets, tv.len() as int, p), phase_number(offsets, tv.len() as int, q))),
        si ==> snapshot_phase_order(av, vis, |p: Phase, q: Phase| rel(phase_number(offsets, tv.len() as int, p), phase_number(offsets, tv.len() as int, q))),
{
    let n = tv.len() as int;
    let rp = |p: Phase, q: Phase| rel(phase_number(offsets, n, p), phase_number(offsets, n, q));
    assert forall|p: Phase, q: Phase| #![trigger rp(p, q), rp(q, p)]
        is_txn(av, p.0) && is_txn(av, q.0) && p != q implies (rp(p, q) || rp(q, p)) && !(rp(p, q) && rp(q, p)) by {
        let i = phase_number(offsets, n, p);
        let j = phase_number(offsets, n, q);
        if i == j {
            if p.1 == q.1 {
                lemma_numbering_injective(av, tv, offsets, number_of(offsets, p.0), number_of(offsets, q.0));
            }
        }
        if i < j {
            assert(rel(i, j) || rel(j, i));
        } else {
            assert(rel(j, i) || rel(i, j));
        }
    }
    assert forall|p: Phase, q: Phase, u: Phase| #![trigger rp(p, q), rp(q, u)]
        is_txn(av, p.0) && is_txn(av, q.0) && is_txn(av, u.0) && p != q && q != u && p != u && rp(p, q) && rp(q, u) implies rp(p, u) by {
        let i = phase_number(offsets, n, p);
        let j = phase_number(offsets, n, q);
        let l = phase_number(offsets, n, u);
        if i == j && p.1 == q.1 { lemma_numbering_injective(av, tv, offsets, number_of(offsets, p.0), number_of(offsets, q.0)); }
        if j == l && q.1 == u.1 { lemma_numbering_injective(av, tv, offsets, number_of(offsets, q.0), number_of(offsets, u.0)); }
        if i == l && p.1 == u.1 { lemma_numbering_injective(av, tv, offsets, number_of(offsets, p.0), number_of(offsets, u.0)); }
        assert(rel(i, j) && rel(j, l));
    }
    assert forall|t: (u64, u64)| #[trigger] is_txn(av, t) implies rp((t, false), (t, true)) by {
        assert(rel(number_of(offsets, t), n + number_of(offsets, t)));
    }
    assert forall|a: (u64, u64), b: (u64, u64)| #![trigger vis.contains((a, b))]
        is_txn(av, a) && is_txn(av, b) && vis.contains((a, b)) implies rp((a, true), (b, false)) by {
        let i = number_of(offsets, a);
        let j = number_of(offsets, b);
        assert(vis.contains((tv[i], tv[j])));
    }
    assert forall|x: Seq<char>, a: (u64, u64), b: (u64, u64)| #![trigger wr_edge(av, x, (0u64, 0u64), a), writes_var(av, b, x)]
        wr_edge(av, x, (0u64, 0u64), a) && writes_var(av, b, x) && a != b implies rp((a, false), (b, true)) by {
        let i = number_of(offsets, a);
        let j = number_of(offsets, b);
        assert(wr_edge(av, x, (0u64, 0u64), tv[i]) && writes_var(av, tv[j], x));
    }
    assert forall|x: Seq<char>, w1: (u64, u64), w2: (u64, u64), rd: (u64, u64)| #![trigger wr_edge(av, x, w1, rd), writes_var(av, w2, x)]
        writes_var(av, w1, x) && writes_var(av, w2, x) && w1 != w2 && wr_edge(av, x, w1, rd) && rd != w2 && rp((w1, true), (w2, true))
        implies rp((w1, true), (rd, false)) && rp((rd, false), (w2, true)) by {
        let i1 = number_of(offsets, w1);
        let i2 = number_of(offsets, w2);
        let ir = number_of(offsets, rd);
        assert(wr_edge(av, x, tv[i1], tv[ir]) && writes_var(av, tv[i2], x));
    }
    if si {
        assert forall|a: (u64, u64), b: (u64, u64)| #![trigger shares_write(av, a, b)]
            is_txn(av, a) && is_txn(av, b) && a != b && shares_write(av, a, b) implies rp((a, true), (b, false)) || rp((b, true), (a, false)) by {
            let i = number_of(offsets, a);
            let j = number_of(offsets, b);
            if i < j {
                assert(shares_write(av, tv[i], tv[j]));
            } else {
                lemma_shares_write_symmetric(av, a, b);
                assert(shares_write(av, tv[j], tv[i]));
            }
        }
    }
}

/// An order of the phases is an order of the vertices.
proof fn lemma_phases_to_positions(av: AtomicView, vis: Set<((u64, u64), (u64, u64))>, tv: Seq<(u64, u64)>, offsets: Seq<usize>, rp: PhaseRel, si: bool)
    requires
        numbering(av, tv, offsets),
        prefix_phase_order(av, vis, rp),
        si ==> snapshot_phase_order(av, vis, rp),
    ensures
        prefix_positions(av, vis, tv, |i: int, j: int| rp(phase_at(tv, i), phase_at(tv, j))),
        si ==> conflicts_ok(av, tv, |i: int, j: int| rp(phase_at(tv, i), phase_at(tv, j))),
{
    let n = tv.len() as int;
    let rel = |i: int, j: int| rp(phase_at(tv, i), phase_at(tv, j));
    assert forall|a: int, b: int| #![trigger rel(a, b), rel(b, a)] 0 <= a < b < 2 * n
        implies (rel(a, b) || rel(b, a)) && !(rel(a, b) && rel(b, a)) by {
        let p = phase_at(tv, a);
        let q = phase_at(tv, b);
        if p == q {
            if a < n && b < n { lemma_numbering_injective(av, tv, offsets, a, b); }
            if a >= n && b >= n { lemma_numbering_injective(av, tv, offsets, a - n, b - n); }
        }
        assert(is_txn(av, p.0) && is_txn(av, q.0));
    }
    assert forall|a: int, b: int, c: int| #![trigger rel(a, b), rel(b, c)]
        0 <= a < 2 * n && 0 <= b < 2 * n && 0 <= c < 2 * n && a != b && b != c && a != c && rel(a, b) && rel(b, c) implies rel(a, c) by {
        let p = phase_at(tv, a);
        let q = phase_at(tv, b);
        let u = phase_at(tv, c);
        if p == q {
            if a < n && b < n { lemma_numbering_injective(av, tv, offsets, a, b); }
            if a >= n && b >= n { lemma_numbering_injective(av, tv, offsets, a - n, b - n); }
        }
        if q == u {
            if b < n && c < n { lemma_numbering_injective(av, tv, offsets, b, c); }
            if b >= n && c >= n { lemma_numbering_injective(av, tv, offsets, b - n, c - n); }
        }
        if p == u {
            if a < n && c < n { lemma_numbering_injective(av, tv, offsets, a, c); }
            if a >= n && c >= n { lemma_numbering_injective(av, tv, offsets, a - n, c - n); }
        }
        assert(is_txn(av, p.0) && is_txn(av, q.0) && is_txn(av, u.0));
    }
    assert forall|i: int| 0 <= i < n implies #[trigger] rel(i, n + i) by {
        assert(is_txn(av, tv[i]));
        assert(phase_at(tv, n + i) == (tv[i], true));
    }
    assert forall|i: int, j: int| #![trigger vis.contains((tv[i], tv[j]))]
        0 <= i < n && 0 <= j < n && vis.contains((tv[i], tv[j])) implies rel(n + i, j) by {
        assert(is_txn(av, tv[i]) && is_txn(av, tv[j]));
        assert(phase_at(tv, n + i) == (tv[i], true));
    }
    assert forall|x: Seq<char>, i: int, j: int| #![trigger wr_edge(av, x, (0u64, 0u64), tv[i]), writes_var(av, tv[j], x)]
        0 <= i < n && 0 <= j < n && i != j && wr_edge(av, x, (0u64, 0u64), tv[i]) && writes_var(av, tv[j], x) implies rel(i, n + j) by {
        if tv[i] == tv[j] { lemma_numbering_injective(av, tv, offsets, i, j); }
        assert(phase_at(tv, n + j) == (tv[j], true));
    }
    assert forall|x: Seq<char>, i1: int, i2: int, ir: int| #![trigger wr_edge(av, x, tv[i1], tv[ir]), writes_var(av, tv[i2], x)]
        0 <= i1 < n && 0 <= i2 < n && 0 <= ir < n && i1 != i2 && ir != i2
        && writes_var(av, tv[i1], x) && writes_var(av, tv[i2], x) && wr_edge(av, x, tv[i1], tv[ir])
        && rel(n + i1, n + i2) implies rel(n + i1, ir) && rel(ir, n + i2) by {
        if tv[i1] == tv[i2] { lemma_numbering_injective(av, tv, offsets, i1, i2); }
        if tv[ir] == tv[i2] { lemma_numbering_injective(av, tv, offsets, ir, i2); }
        assert(phase_at(tv, n + i1) == (tv[i1], true));
        assert(phase_at(tv, n + i2) == (tv[i2], true));
    }
    if si {
        assert forall|i: int, j: int| #![trigger shares_write(av, tv[i], tv[j])]
            0 <= i < j < n && shares_write(av, tv[i], tv[j]) implies rel(n + i, j) || rel(n + j, i) by {
            if tv[i] == tv[j] { lemma_numbering_injective(av, tv, offsets, i, j); }
            assert(is_txn(av, tv[i]) && is_txn(av, tv[j]));
            assert(phase_at(tv, n + i) == (tv[i], true));
            assert(phase_at(tv, n + j) == (tv[j], true));
        }
    }
}

/// Every read of the history observes the initial value, or a write of the
/// variable by another transaction that is visible to the reader.
pub open spec fn reads_justified(av: AtomicView, vis: Set<((u64, u64), (u64, u64))>) -> bool {
    forall|x: Seq<char>, w: (u64, u64), rd: (u64, u64)| #[trigger] wr_edge(av, x, w, rd)
        ==> w == (0u64, 0u64) || (writes_var(av, w, x) && w != rd && vis.contains((w, rd)))
}

/// A sequence that lists every phase once, in an order of phases that
/// Prefix consistency asks for, is an order that Prefix consistency accepts
/// (and, for an order that Snapshot Isolation asks for, one that Snapshot
/// Isolation accepts).
proof fn lemma_sorted_phases_accepted(av: AtomicView, vis: Set<((u64, u64), (u64, u64))>, rp: PhaseRel, s: Seq<Phase>, si: bool)
    requires
        prefix_phase_order(av, vis, rp),
        si ==> snapshot_phase_order(av, vis, rp),
        reads_justified(av, vis),
        lists_all_phases(av, s),
        forall|i: int, j: int| 0 <= i < j < s.len() ==> rp(#[trigger] s[i], #[trigger] s[j]),
    ensures
        is_prefix_order(av, vis, s),
        si ==> no_concurrent_writers(av, s),
{
    assert forall|i: int, j: int| 0 <= j <= i < s.len() && (#[trigger] s[j]).1 && !(#[trigger] s[i]).1 implies s[j].0 != s[i].0 by {
        if s[j].0 == s[i].0 {
            let t = s[i].0;
            assert(is_txn(av, t));
            assert(rp((t, false), (t, true)));
            assert(j != i);
            assert(rp(s[j], s[i]));
        }
    }
    assert(reads_before_writes(s));
    assert forall|i: int, j: int| 0 <= j <= i < s.len() && !(#[trigger] s[j]).1 && (#[trigger] s[i]).1 implies !vis.contains((s[i].0, s[j].0)) by {
        if vis.contains((s[i].0, s[j].0)) {
            assert(is_txn(av, s[i].0) && is_txn(av, s[j].0));
            assert(rp((s[i].0, true), (s[j].0, false)));
            assert(j != i);
            assert(rp(s[j], s[i]));
        }
    }
    assert(split_respects_vis(vis, s));
    assert forall|i: int, x: Seq<char>, w: (u64, u64)| 0 <= i < s.len() && !s[i].1
        && #[trigger] reads_of(av, s[i].0).contains((x, w)) implies split_read_explained(av, s, i, x, w) by {
        let rd = s[i].0;
        assert(is_txn(av, rd));
        assert(wr_edge(av, x, w, rd));
        if w == (0u64, 0u64) {
            assert forall|k: int| 0 <= k < i implies !#[trigger] writes_at(av, s, k, x) by {
                if writes_at(av, s, k, x) {
                    let b = s[k].0;
                    assert(rp(s[k], s[i]));
                    if b == rd {
                        assert(rp((rd, false), (rd, true)));
                    } else {
                        assert(writes_var(av, b, x));
                        assert(rp((rd, false), (b, true)));
                    }
                }
            }
        } else {
            assert(writes_var(av, w, x) && w != rd && vis.contains((w, rd)));
            assert(is_txn(av, w));
            assert(rp((w, true), (rd, false)));
            assert(s.contains((w, true)));
            let j = choose|j: int| 0 <= j < s.len() && s[j] == (w, true);
            if j > i {
                assert(rp(s[i], s[j]));
            }
            assert(j != i);
            assert forall|k: int| j < k < i implies !#[trigger] writes_at(av, s, k, x) by {
                if writes_at(av, s, k, x) {
                    let b = s[k].0;
                    assert(rp(s[k], s[i]));
                    assert(rp(s[j], s[k]));
                    assert(s[k] != s[j]);
                    if b == rd {
                        assert(rp((rd, false), (rd, true)));
                    } else {
                        assert(writes_var(av, b, x));
                        assert(b != w);
                        assert(wr_edge(av, x, w, rd) && writes_var(av, b, x));
                        assert(rp((rd, false), (b, true)));
                    }
                }
            }
        }
    }
    if si {
        assert forall|a: int, b: int, c: int|
            0 <= a < b < c < s.len() && !(#[trigger] s[a]).1 && !(#[trigger] s[b]).1 && (#[trigger] s[c]).1
            && s[a].0 == s[c].0 && s[b].0 != s[a].0 implies !shares_write(av, s[a].0, s[b].0) by {
            let t = s[a].0;
            let u = s[b].0;
            if shares_write(av, t, u) {
                assert(is_txn(av, t) && is_txn(av, u));
                assert(rp(s[b], s[c]));
                assert(rp(s[a], s[b]));
                if rp((t, true), (u, false)) {
                } else {
                    assert(rp((u, true), (t, false)));
                    assert(s.contains((u, true)));
                    let d = choose|d: int| 0 <= d < s.len() && s[d] == (u, true);
                    if d > a {
                        assert(rp(s[a], s[d]));
                    }
                    assert(d != a);
                    assert(rp(s[d], s[b]));
                    assert(rp((u, false), (u, true)));
                }
            }
        }
    }
}

/// The position of `p` in `s`, where `s` holds it.
pub open spec fn pos_in<A>(s: Seq<A>, p: A) -> int {
    choose|i: int| 0 <= i < s.len() && s[i] == p
}

proof fn lemma_pos_in<A>(s: Seq<A>, p: A)
    requires
        s.contains(p),
        s.no_duplicates(),
    ensures
        0 <= pos_in(s, p) < s.len(),
        s[pos_in(s, p)] == p,
        forall|i: int| 0 <= i < s.len() && s[i] == p ==> i == pos_in(s, p),
{
}

/// An order of phases that Prefix consistency accepts orders the phases as
/// Prefix consistency asks (and, accepted by Snapshot Isolation, as Snapshot
/// Isolation asks): each phase before those that come later in it.
pub proof fn lemma_phase_sequence_orders(av: AtomicView, vis: Set<((u64, u64), (u64, u64))>, s: Seq<Phase>, si: bool)
    requires
        is_prefix_order(av, vis, s),
        si ==> no_concurrent_writers(av, s),
    ensures
        prefix_phase_order(av, vis, |p: Phase, q: Phase| pos_in(s, p) < pos_in(s, q)),
        si ==> snapshot_phase_order(av, vis, |p: Phase, q: Phase| pos_in(s, p) < pos_in(s, q)),
{
    let rp = |p: Phase, q: Phase| pos_in(s, p) < pos_in(s, q);
    assert forall|p: Phase| is_txn(av, p.0) implies s.contains(p) && 0 <= #[trigger] pos_in(s, p) < s.len() && s[pos_in(s, p)] == p by {
        assert(s.contains((p.0, false)) && s.contains((p.0, true)));
        if p.1 {
            assert(p == (p.0, true));
        } else {
            assert(p == (p.0, false));
        }
        lemma_pos_in(s, p);
    }
    assert forall|p: Phase, q: Phase| #![trigger rp(p, q), rp(q, p)]
        is_txn(av, p.0) && is_txn(av, q.0) && p != q implies (rp(p, q) || rp(q, p)) && !(rp(p, q) && rp(q, p)) by {
        assert(pos_in(s, p) != pos_in(s, q));
    }
    assert forall|t: (u64, u64)| #[trigger] is_txn(av, t) implies rp((t, false), (t, true)) by {
        let i = pos_in(s, (t, false));
        let j = pos_in(s, (t, true));
        assert(s[i] == (t, false) && s[j] == (t, true));
        if j <= i {
            assert(s[j].1 && !s[i].1);
        }
    }
    assert forall|a: (u64, u64), b: (u64, u64)| #![trigger vis.contains((a, b))]
        is_txn(av, a) && is_txn(av, b) && vis.contains((a, b)) implies rp((a, true), (b, false)) by {
        let i = pos_in(s, (a, true));
        let j = pos_in(s, (b, false));
        assert(s[i] == (a, true) && s[j] == (b, false));
        if j <= i {
            assert(!s[j].1 && s[i].1);
        }
    }
    assert forall|x: Seq<char>, a: (u64, u64), b: (u64, u64)| #![trigger wr_edge(av, x, (0u64, 0u64), a), writes_var(av, b, x)]
        wr_edge(av, x, (0u64, 0u64), a) && writes_var(av, b, x) && a != b implies rp((a, false), (b, true)) by {
        let i = pos_in(s, (a, false));
        let k = pos_in(s, (b, true));
        assert(is_txn(av, a) && is_txn(av, b));
        assert(s[i] == (a, false) && s[k] == (b, true));
        assert(reads_of(av, s[i].0).contains((x, (0u64, 0u64))));
        assert(split_read_explained(av, s, i, x, (0u64, 0u64)));
        if exists|j: int| 0 <= j < i && s[j] == ((0u64, 0u64), true) && forall|k2: int| j < k2 < i ==> !#[trigger] writes_at(av, s, k2, x) {
            let j = choose|j: int| 0 <= j < i && s[j] == ((0u64, 0u64), true) && forall|k2: int| j < k2 < i ==> !#[trigger] writes_at(av, s, k2, x);
            assert(is_txn(av, s[j].0));
        }
        if k < i {
            assert(writes_at(av, s, k, x));
        }
    }
    assert forall|x: Seq<char>, w1: (u64, u64), w2: (u64, u64), rd: (u64, u64)| #![trigger wr_edge(av, x, w1, rd), writes_var(av, w2, x)]
        writes_var(av, w1, x) && writes_var(av, w2, x) && w1 != w2 && wr_edge(av, x, w1, rd) && rd != w2 && rp((w1, true), (w2, true))
        implies rp((w1, true), (rd, false)) && rp((rd, false), (w2, true)) by {
        assert(is_txn(av, rd) && is_txn(av, w1) && is_txn(av, w2));
        let i = pos_in(s, (rd, false));
        let j1 = pos_in(s, (w1, true));
        let k = pos_in(s, (w2, true));
        assert(s[i] == (rd, false) && s[j1] == (w1, true) && s[k] == (w2, true));
        assert(reads_of(av, s[i].0).contains((x, w1)));
        assert(split_read_explained(av, s, i, x, w1));
        assert(w1 != (0u64, 0u64));
        let j = choose|j: int| 0 <= j < i && s[j] == (w1, true) && forall|k2: int| j < k2 < i ==> !#[trigger] writes_at(av, s, k2, x);
        assert(j == j1);
        if k < i {
            assert(writes_at(av, s, k, x));
        }
        assert(k != i);
    }
    if si {
        assert forall|a: (u64, u64), b: (u64, u64)| #![trigger shares_write(av, a, b)]
            is_txn(av, a) && is_txn(av, b) && a != b && shares_write(av, a, b) implies rp((a, true), (b, false)) || rp((b, true), (a, false)) by {
            let ar = pos_in(s, (a, false));
            let aw = pos_in(s, (a, true));
            let br = pos_in(s, (b, false));
            let bw = pos_in(s, (b, true));
            assert(s[ar] == (a, false) && s[aw] == (a, true) && s[br] == (b, false) && s[bw] == (b, true));
            assert(rp((a, false), (a, true)) && rp((b, false), (b, true)));
            if !rp((a, true), (b, false)) && !rp((b, true), (a, false)) {
                assert(br != aw && ar != bw);
                if ar < br {
                    assert(!s[ar].1 && !s[br].1 && s[aw].1);
                } else {
                    assert(ar != br);
                    lemma_shares_write_symmetric(av, a, b);
                    assert(!s[br].1 && !s[ar].1 && s[bw].1);
                }
            }
        }
    }
}

// ---------------------------------------------------------------------------
// The search
// ---------------------------------------------------------------------------

/// How many vertices below `k`, other than `u`, `rel` puts before `u`.
pub open spec fn count_before(rel: Rel, u: int, k: int) -> nat
    decreases k,
{
    if k <= 0 {
        0
    } else {
        count_before(rel, u, k - 1) + if k - 1 != u && rel(k - 1, u) { 1nat } else { 0nat }
    }
}

/// How many other vertices the solver's assignment puts before vertex `u`.
pub open spec fn rank(e: &Encoder, u: int) -> nat {
    count_before(e.model_rel(), u, e.width() as int)
}

proof fn lemma_count_before_lt(rel: Rel, m: int, a: int, b: int, k: int)
    requires
        total_on(rel, m),
        transitive_on(rel, m),
        0 <= a < m,
        0 <= b < m,
        a != b,
        rel(a, b),
        0 <= k <= m,
    ensures
        count_before(rel, a, k) + (if a < k { 1int } else { 0int }) <= count_before(rel, b, k),
    decreases k,
{
    if k > 0 {
        lemma_count_before_lt(rel, m, a, b, k - 1);
        let w = k - 1;
        if w != a && rel(w, a) {
            if w == b {
                if a < b {
                    assert(!(rel(a, b) && rel(b, a)));
                } else {
                    assert(!(rel(b, a) && rel(a, b)));
                }
            }
            assert(rel(w, b));
        }
    }
}

/// In a strict total order, a vertex before another has fewer vertices
/// before it.
pub(crate) proof fn lemma_rank_lt(rel: Rel, m: int, a: int, b: int)
    requires
        total_on(rel, m),
        transitive_on(rel, m),
        0 <= a < m,
        0 <= b < m,
        a != b,
        rel(a, b),
    ensures
        count_before(rel, a, m) < count_before(rel, b, m),
{
    lemma_count_before_lt(rel, m, a, b, m);
}

/// Vertex `m` is listed among the ranked vertices.
pub open spec fn ranked_lists(sorted: Seq<(usize, usize)>, m: int) -> bool {
    exists|q: int| 0 <= q < sorted.len() && (#[trigger] sorted[q]).1 == m
}

/// The vertices in the order the solver's assignment gives them: each vertex
/// at the rank of the number of other vertices it puts before it, ties kept
/// in vertex order.
pub(crate) fn extract_order(e: &Encoder) -> (r: Vec<usize>)
    requires
        e.wf(),
    ensures
        r@.len() == e.width(),
        forall|k: int| 0 <= k < r@.len() ==> #[trigger] r@[k] < e.width(),
        forall|u: usize| u < e.width() ==> #[trigger] r@.contains(u),
        forall|i: int, j: int| 0 <= i < j < r@.len() ==> #[trigger] r@[i] != #[trigger] r@[j],
        forall|i: int, j: int| 0 <= i < j < r@.len() ==> rank(e, #[trigger] r@[i] as int) <= rank(e, #[trigger] r@[j] as int),
{
    let n = e.vars.vars.len();
    let mut positioned: Vec<(usize, usize)> = Vec::new();
    let mut u: usize = 0;
    while u < n
        invariant
            0 <= u <= n,
            n == e.width(),
            e.wf(),
            positioned@.len() == u,
            forall|k: int| 0 <= k < positioned@.len() ==> (#[trigger] positioned@[k]).0 == rank(e, k) && positioned@[k].1 == k,
        decreases n - u,
    {
        let mut count: usize = 0;
        let mut w: usize = 0;
        while w < n
            invariant
                0 <= w <= n,
                0 <= u < n,
                n == e.width(),
                e.wf(),
                count <= w,
                count == count_before(e.model_rel(), u as int, w as int),
            decreases n - w,
        {
            if w != u && e.before(w, u) {
                count = count + 1;
            }
            w = w + 1;
        }
        let ghost p0 = positioned@;
        positioned.push((count, u));
        proof {
            assert(count == rank(e, u as int));
            assert forall|k: int| 0 <= k < positioned@.len() implies (#[trigger] positioned@[k]).0 == rank(e, k) && positioned@[k].1 == k by {
                if k < p0.len() {
                    assert(positioned@[k] == p0[k]);
                }
            }
        }
        u = u + 1;
    }
    assert(positioned@.len() == n);
    // a stable insertion sort by rank
    let mut sorted: Vec<(usize, usize)> = Vec::new();
    let mut k: usize = 0;
    while k < positioned.len()
        invariant
            0 <= k <= positioned@.len(),
            positioned@.len() == n,
            n == e.width(),
            forall|m: int| 0 <= m < positioned@.len() ==> (#[trigger] positioned@[m]).0 == rank(e, m) && positioned@[m].1 == m,
            sorted@.len() == k,
            forall|m: int| 0 <= m < sorted@.len() ==> (#[trigger] sorted@[m]).1 < k && sorted@[m].0 == rank(e, sorted@[m].1 as int),
            forall|m: int| 0 <= m < k ==> #[trigger] ranked_lists(sorted@, m),
            forall|a: int, b: int| 0 <= a < b < sorted@.len() ==> (#[trigger] sorted@[a]).1 != (#[trigger] sorted@[b]).1,
            forall|a: int, b: int| 0 <= a < b < sorted@.len() ==> (#[trigger] sorted@[a]).0 <= (#[trigger] sorted@[b]).0,
        decreases positioned@.len() - k,
    {
        let item = positioned[k];
        let mut p: usize = 0;
        while p < sorted.len() && sorted[p].0 <= item.0
            invariant
                0 <= p <= sorted@.len(),
                forall|m: int| 0 <= m < p ==> (#[trigger] sorted@[m]).0 <= item.0,
            decreases sorted@.len() - p,
        {
            p = p + 1;
        }
        let ghost before = sorted@;
        sorted.insert(p, item);
        proof {
            assert(item.0 == rank(e, k as int) && item.1 == k);
            assert forall|m: int| 0 <= m < sorted@.len() implies (#[trigger] sorted@[m]).1 < k + 1 && sorted@[m].0 == rank(e, sorted@[m].1 as int) by {
                if m < p {
                    assert(sorted@[m] == before[m]);
                } else if m > p {
                    assert(sorted@[m] == before[m - 1]);
                }
            }
            assert forall|m: int| 0 <= m < k + 1 implies #[trigger] ranked_lists(sorted@, m) by {
                if m == k {
                    assert(sorted@[p as int].1 == m);
                } else {
                    assert(ranked_lists(before, m));
                    let q = choose|q: int| 0 <= q < before.len() && (#[trigger] before[q]).1 == m;
                    if q < p {
                        assert(sorted@[q] == before[q]);
                    } else {
                        assert(sorted@[q + 1] == before[q]);
                    }
                }
            }
            assert forall|a: int, b: int| 0 <= a < b < sorted@.len() implies (#[trigger] sorted@[a]).1 != (#[trigger] sorted@[b]).1 by {
                if a < p && b < p {
                    assert(sorted@[a] == before[a] && sorted@[b] == before[b]);
                } else if a > p && b > p {
                    assert(sorted@[a] == before[a - 1] && sorted@[b] == before[b - 1]);
                } else if a < p && b > p {
                    assert(sorted@[a] == before[a] && sorted@[b] == before[b - 1]);
                } else if a == p {
                    assert(sorted@[b] == before[b - 1]);
                } else {
                    assert(sorted@[a] == before[a]);
                }
            }
            assert forall|a: int, b: int| 0 <= a < b < sorted@.len() implies (#[trigger] sorted@[a]).0 <= (#[trigger] sorted@[b]).0 by {
                if a < p && b < p {
                    assert(sorted@[a] == before[a] && sorted@[b] == before[b]);
                } else if a > p && b > p {
                    assert(sorted@[a] == before[a - 1] && sorted@[b] == before[b - 1]);
                } else if a < p && b > p {
                    assert(sorted@[a] == before[a] && sorted@[b] == before[b - 1]);
                } else if a == p {
                    assert(sorted@[b] == before[b - 1]);
                    assert(p < before.len());
                    assert(before[p as int].0 > item.0);
                    if b - 1 > p {
                        assert(before[p as int].0 <= before[b - 1].0);
                    }
                } else {
                    assert(sorted@[a] == before[a]);
                }
            }
        }
        k = k + 1;
    }
    let mut order: Vec<usize> = Vec::new();
    let mut k: usize = 0;
    while k < sorted.len()
        invariant
            0 <= k <= sorted@.len(),
            order@.len() == k,
            forall|m: int| 0 <= m < k ==> #[trigger] order@[m] == sorted@[m].1,
        decreases sorted@.len() - k,
    {
        order.push(sorted[k].1);
        k = k + 1;
    }
    proof {
        assert forall|u: usize| u < e.width() implies #[trigger] order@.contains(u) by {
            assert(ranked_lists(sorted@, u as int));
            let q = choose|q: int| 0 <= q < sorted@.len() && (#[trigger] sorted@[q]).1 == u as int;
            assert(order@[q] == u);
        }
        assert forall|i: int, j: int| 0 <= i < j < order@.len() implies #[trigger] order@[i] != #[trigger] order@[j] by {
            assert(sorted@[i].1 != sorted@[j].1);
        }
        assert forall|i: int, j: int| 0 <= i < j < order@.len() implies rank(e, #[trigger] order@[i] as int) <= rank(e, #[trigger] order@[j] as int) by {
            assert(sorted@[i].0 <= sorted@[j].0);
        }
    }
    order
}

/// Some order of the phases is one that Prefix consistency (with `si`,
/// Snapshot Isolation) asks for.
pub open spec fn phase_order_exists(av: AtomicView, vis: Set<((u64, u64), (u64, u64))>, si: bool) -> bool {
    if si {
        exists|rp: PhaseRel| #[trigger] snapshot_phase_order(av, vis, rp)
    } else {
        exists|rp: PhaseRel| #[trigger] prefix_phase_order(av, vis, rp)
    }
}

/// An order of phases that Prefix consistency (with `si`, Snapshot
/// Isolation) accepts, as the SAT solver finds it; `None` when the solver
/// finds the constraints unsatisfiable, or its order is not accepted.
fn search_phases<V: Label>(po: &AtomicTransactionPO<V>, si: bool) -> (r: Option<Vec<(TransactionId, bool)>>)
    requires
        po.well_formed(),
        (2 * txn_count(po.av())) * (2 * txn_count(po.av())) < VAR_LIMIT,
    ensures
        r matches Some(sig) ==> if si { is_snapshot_order(po.av(), po.vis(), phase_views(sig@)) }
            else { is_prefix_order(po.av(), po.vis(), phase_views(sig@)) },
        !phase_order_exists(po.av(), po.vis(), si) ==> r is None,
        phase_order_exists(po.av(), po.vis(), si) && reads_justified(po.av(), po.vis()) ==> r is Some,
{
    let ghost av = po.av();
    let ghost vis = po.vis();
    proof {
        let c = txn_count(av);
        assert(2 * c < VAR_LIMIT) by (nonlinear_arith)
            requires (2 * c) * (2 * c) < VAR_LIMIT;
    }
    let (txns, offsets) = number_transactions(po);
    let ghost tv = tid_views(txns@);
    let n = txns.len();
    let no_edges: Vec<(usize, usize)> = Vec::new();
    let mut e = encode_ordering(2 * n, &no_edges);
    add_phases(&mut e, n);
    add_visibility(&mut e, po, &txns, n);
    add_initial_readers(&mut e, po, &txns, n);
    add_reads_between(&mut e, po, &txns, n);
    if si {
        add_conflicts(&mut e, po, &txns);
    }
    let ghost pairs = e.pairs@;
    proof {
        assert forall|rel: Rel| #[trigger] pair_clauses_hold(rel, pairs)
            == (if si { snapshot_positions(av, vis, tv, rel) } else { prefix_positions(av, vis, tv, rel) }) by {
            assert(units_hold(rel, no_edges@));
        }
    }
    if !e.solve() {
        proof {
            if phase_order_exists(av, vis, si) {
                if si {
                    let rp = choose|rp: PhaseRel| #[trigger] snapshot_phase_order(av, vis, rp);
                    lemma_phases_to_positions(av, vis, tv, offsets@, rp, true);
                    assert(pair_clauses_hold(|i: int, j: int| rp(phase_at(tv, i), phase_at(tv, j)), pairs));
                } else {
                    let rp = choose|rp: PhaseRel| #[trigger] prefix_phase_order(av, vis, rp);
                    lemma_phases_to_positions(av, vis, tv, offsets@, rp, false);
                    assert(pair_clauses_hold(|i: int, j: int| rp(phase_at(tv, i), phase_at(tv, j)), pairs));
                }
            }
        }
        return None;
    }
    proof {
        let rel = choose|rel: Rel| #[trigger] pair_clauses_hold(rel, pairs);
        lemma_positions_to_phases(av, vis, tv, offsets@, rel, si);
        let rp = |p: Phase, q: Phase| rel(phase_number(offsets@, tv.len() as int, p), phase_number(offsets@, tv.len() as int, q));
        if si {
            assert(snapshot_phase_order(av, vis, rp));
        } else {
            assert(prefix_phase_order(av, vis, rp));
        }
    }
    let order = extract_order(&e);
    let ghost rel = e.model_rel();
    proof {
        assert(pair_clauses_hold(rel, pairs));
        assert(prefix_positions(av, vis, tv, rel));
        assert forall|i: int, j: int| 0 <= i < j < order@.len() implies rel(#[trigger] order@[i] as int, #[trigger] order@[j] as int) by {
            let a = order@[i] as int;
            let b = order@[j] as int;
            assert(a != b);
            if rel(b, a) {
                lemma_rank_lt(rel, 2 * n as int, b, a);
            } else if a < b {
                assert(rel(a, b) || rel(b, a));
            } else {
                assert(rel(b, a) || rel(a, b));
            }
        }
    }
    let mut sig: Vec<(TransactionId, bool)> = Vec::new();
    let mut k: usize = 0;
    while k < order.len()
        invariant
            0 <= k <= order@.len(),
            n == txns@.len(),
            tv == tid_views(txns@),
            forall|m: int| 0 <= m < order@.len() ==> #[trigger] order@[m] < 2 * n,
            sig@.len() == k,
            forall|m: int| 0 <= m < k ==> #[trigger] phase_views(sig@)[m] == phase_at(tv, order@[m] as int),
        decreases order@.len() - k,
    {
        let v = order[k];
        let ghost s0 = sig@;
        if v < n {
            sig.push((txns[v], false));
            assert(tv[v as int] == txns@[v as int]@);
        } else {
            sig.push((txns[v - n], true));
            assert(tv[v - n] == txns@[v - n]@);
        }
        proof {
            assert forall|m: int| 0 <= m < k + 1 implies #[trigger] phase_views(sig@)[m] == phase_at(tv, order@[m] as int) by {
                assert(phase_views(sig@)[m] == (sig@[m].0@, sig@[m].1));
                if m < k {
                    assert(sig@[m] == s0[m]);
                    assert(phase_views(s0)[m] == (s0[m].0@, s0[m].1));
                }
            }
        }
        k = k + 1;
    }
    proof {
        let sq = phase_views(sig@);
        let nn = tv.len() as int;
        let rp = |p: Phase, q: Phase| rel(phase_number(offsets@, nn, p), phase_number(offsets@, nn, q));
        assert forall|v: int| 0 <= v < 2 * nn implies #[trigger] phase_number(offsets@, nn, phase_at(tv, v)) == v by {
            if v < nn {
                assert(number_of(offsets@, tv[v]) == v);
            } else {
                assert(number_of(offsets@, tv[v - nn]) == v - nn);
            }
        }
        if phase_order_exists(av, vis, si) && reads_justified(av, vis) {
            lemma_positions_to_phases(av, vis, tv, offsets@, rel, si);
            assert forall|i: int, j: int| 0 <= i < j < sq.len() implies rp(#[trigger] sq[i], #[trigger] sq[j]) by {
                assert(sq[i] == phase_at(tv, order@[i] as int));
                assert(sq[j] == phase_at(tv, order@[j] as int));
                assert(phase_number(offsets@, nn, phase_at(tv, order@[i] as int)) == order@[i]);
                assert(phase_number(offsets@, nn, phase_at(tv, order@[j] as int)) == order@[j]);
                assert(rel(order@[i] as int, order@[j] as int));
            }
            assert forall|i: int, j: int| 0 <= i < sq.len() && 0 <= j < sq.len() && i != j implies sq[i] != sq[j] by {
                assert(sq[i] == phase_at(tv, order@[i] as int));
                assert(sq[j] == phase_at(tv, order@[j] as int));
                assert(phase_number(offsets@, nn, sq[i]) == order@[i]);
                assert(phase_number(offsets@, nn, sq[j]) == order@[j]);
                if i < j {
                    assert(order@[i] != order@[j]);
                } else {
                    assert(order@[j] != order@[i]);
                }
            }
            assert(sq.no_duplicates());
            assert forall|i: int| 0 <= i < sq.len() implies is_txn(av, #[trigger] sq[i].0) by {
                assert(sq[i] == phase_at(tv, order@[i] as int));
            }
            assert forall|t: (u64, u64)| #[trigger] is_txn(av, t) implies sq.contains((t, false)) && sq.contains((t, true)) by {
                let i = number_of(offsets@, t);
                assert(order@.contains(i as usize));
                assert(order@.contains((i + nn) as usize));
                let a = choose|a: int| 0 <= a < order@.len() && order@[a] == i as usize;
                let b = choose|b: int| 0 <= b < order@.len() && order@[b] == (i + nn) as usize;
                assert(sq[a] == phase_at(tv, i));
                assert(sq[b] == phase_at(tv, i + nn));
            }
            assert(lists_all_phases(av, sq));
            lemma_sorted_phases_accepted(av, vis, rp, sq, si);
        }
    }
    let accepted = if si { check_snapshot_order(po, &sig) } else { check_prefix_order(po, &sig) };
    if accepted {
        Some(sig)
    } else {
        None
    }
}

/// An order of phases that Prefix consistency accepts, as the SAT solver
/// finds it.
pub fn check_prefix_from_po<V: Label>(po: &AtomicTransactionPO<V>) -> (r: Option<Vec<(TransactionId, bool)>>)
    requires
        po.well_formed(),
        (2 * txn_count(po.av())) * (2 * txn_count(po.av())) < VAR_LIMIT,
    ensures
        r matches Some(sig) ==> is_prefix_order(po.av(), po.vis(), phase_views(sig@)),
        !phase_order_exists(po.av(), po.vis(), false) ==> r is None,
        phase_order_exists(po.av(), po.vis(), false) && reads_justified(po.av(), po.vis()) ==> r is Some,
{
    search_phases(po, false)
}

/// An order of phases that Snapshot Isolation accepts, as the SAT solver
/// finds it.
pub fn check_si_from_po<V: Label>(po: &AtomicTransactionPO<V>) -> (r: Option<Vec<(TransactionId, bool)>>)
    requires
        po.well_formed(),
        (2 * txn_count(po.av())) * (2 * txn_count(po.av())) < VAR_LIMIT,
    ensures
        r matches Some(sig) ==> is_snapshot_order(po.av(), po.vis(), phase_views(sig@)),
        !phase_order_exists(po.av(), po.vis(), true) ==> r is None,
        phase_order_exists(po.av(), po.vis(), true) && reads_justified(po.av(), po.vis()) ==> r is Some,
{
    search_phases(po, true)
}

} // verus!
