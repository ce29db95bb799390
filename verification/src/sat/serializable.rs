//! Serializability as a satisfiability question.
//!
//! A history is serializable when some strict total order of its
//! transactions extends visibility and puts every read right after the write
//! it observes: a transaction that reads a variable initially comes before
//! every writer of it, and a transaction that reads a variable from `w1`
//! comes between `w1` and any writer of it that follows `w1`.
use vstd::prelude::*;

use crate::graph::digraph::{edge_set, tid_views};
use crate::history::atomic::types::{AtomicView, TransactionId};
use crate::history::atomic::{is_txn, mentions_var, txn_mentions, wr_edge, wr_rel_of, writes_var, AtomicTransactionPO};
use crate::consistency::linearization::serializable::{check_serialization, is_serialization, lists_all_txns, read_explained, reads_of, respects_vis, writes_label};
use crate::sat::split::{extract_order, lemma_rank_lt, pos_in, reads_justified};
use crate::label::Label;
use crate::sat::encoding::{add1, add2, encode_ordering, pair_clauses_hold, total_on, transitive_on, units_hold, Encoder, Rel};
use crate::sat::solver::VAR_LIMIT;
use crate::sat::vertices::{number_of, number_transactions, numbering, txn_count, lemma_numbering_injective};

verus! {

/// The label of the variable of entry `k` of the write-read relations.
pub open spec fn entry_label<V: Label>(po: &AtomicTransactionPO<V>, k: int) -> Seq<char> {
    po.write_read_relation@[k].0.label()
}

/// A variable that some transaction writes or reads has an entry among the
/// write-read relations.
pub proof fn entry_of<V: Label>(po: &AtomicTransactionPO<V>, x: Seq<char>) -> (k: int)
    requires
        po.well_formed(),
        mentions_var(po.av(), x),
    ensures
        0 <= k < po.write_read_relation@.len(),
        entry_label(po, k) == x,
{
    choose|k: int| 0 <= k < po.write_read_relation@.len() && #[trigger] po.write_read_relation@[k].0.label() == x
}

/// A writer of `x` mentions `x`.
pub proof fn lemma_writer_mentions(av: AtomicView, t: (u64, u64), x: Seq<char>)
    requires
        writes_var(av, t, x),
    ensures
        mentions_var(av, x),
{
    assert(txn_mentions(av, t.0 - 1, t.1 as int, x));
}

/// A reader of `x` mentions `x`.
pub proof fn lemma_reader_mentions(av: AtomicView, x: Seq<char>, a: (u64, u64), b: (u64, u64))
    requires
        wr_edge(av, x, a, b),
    ensures
        mentions_var(av, x),
{
    assert(txn_mentions(av, b.0 - 1, b.1 as int, x));
}

// ---------------------------------------------------------------------------
// The conditions, over positions of a numbering
// ---------------------------------------------------------------------------

/// Every visible pair is in order.
pub open spec fn vis_ok(vis: Set<((u64, u64), (u64, u64))>, tv: Seq<(u64, u64)>, w: int, r: Rel) -> bool {
    forall|i: int, j: int| #![trigger vis.contains((tv[i], tv[j]))]
        0 <= i < tv.len() && 0 <= j < tv.len() && vis.contains((tv[i], tv[j])) ==> r(w + i, j)
}

/// A transaction that reads `x` initially comes before every other writer of
/// `x`.
pub open spec fn initial_first_ok(av: AtomicView, tv: Seq<(u64, u64)>, w: int, r: Rel) -> bool {
    forall|x: Seq<char>, i: int, j: int| #![trigger wr_edge(av, x, (0u64, 0u64), tv[i]), writes_var(av, tv[j], x)]
        0 <= i < tv.len() && 0 <= j < tv.len() && i != j
        && wr_edge(av, x, (0u64, 0u64), tv[i]) && writes_var(av, tv[j], x) ==> r(i, w + j)
}

/// A transaction that reads `x` from `w1` comes between `w1` and every other
/// writer of `x` that follows `w1`.
pub open spec fn between_ok(av: AtomicView, tv: Seq<(u64, u64)>, w: int, r: Rel) -> bool {
    forall|x: Seq<char>, i1: int, i2: int, ir: int| #![trigger wr_edge(av, x, tv[i1], tv[ir]), writes_var(av, tv[i2], x)]
        0 <= i1 < tv.len() && 0 <= i2 < tv.len() && 0 <= ir < tv.len() && i1 != i2 && ir != i2
        && writes_var(av, tv[i1], x) && writes_var(av, tv[i2], x) && wr_edge(av, x, tv[i1], tv[ir])
        && r(w + i1, w + i2) ==> r(w + i1, ir) && r(ir, w + i2)
}

/// `r` orders the positions of `tv` as a serialization.
pub open spec fn serial_positions(av: AtomicView, vis: Set<((u64, u64), (u64, u64))>, tv: Seq<(u64, u64)>, r: Rel) -> bool {
    &&& total_on(r, tv.len() as int)
    &&& transitive_on(r, tv.len() as int)
    &&& vis_ok(vis, tv, 0, r)
    &&& initial_first_ok(av, tv, 0, r)
    &&& between_ok(av, tv, 0, r)
}

// ---------------------------------------------------------------------------
// The clauses
// ---------------------------------------------------------------------------

/// `vis_ok` for the pairs before `(i, j)`.
pub open spec fn vis_upto(vis: Set<((u64, u64), (u64, u64))>, tv: Seq<(u64, u64)>, w: int, r: Rel, i: int, j: int) -> bool {
    forall|i1: int, j1: int| #![trigger vis.contains((tv[i1], tv[j1]))]
        0 <= i1 < tv.len() && 0 <= j1 < tv.len() && (i1 < i || (i1 == i && j1 < j))
        && vis.contains((tv[i1], tv[j1])) ==> r(w + i1, j1)
}

/// Requires every visible pair of transactions to be in order.
pub fn add_visibility<V: Label>(e: &mut Encoder, po: &AtomicTransactionPO<V>, txns: &Vec<TransactionId>, w: usize)
    requires
        old(e).wf(),
        w == 0 || w == txns@.len(),
        old(e).width() == w + txns@.len(),
    ensures
        final(e).wf(),
        final(e).width() == old(e).width(),
        forall|r: Rel| #[trigger] pair_clauses_hold(r, final(e).pairs@)
            == (pair_clauses_hold(r, old(e).pairs@) && vis_ok(po.vis(), tid_views(txns@), w as int, r)),
{
    let ghost tv = tid_views(txns@);
    let ghost vis = po.vis();
    let n = txns.len();
    proof {
        let x = old(e).width();
        assert(x < VAR_LIMIT) by (nonlinear_arith)
            requires x * x < VAR_LIMIT, x >= 0;
    }
    let mut i: usize = 0;
    while i < n
        invariant
            0 <= i <= n,
            n == txns@.len(),
            tv == tid_views(txns@),
            vis == po.vis(),
            e.wf(),
            e.width() == w + n,
                w == 0 || w == n,
                w + n < VAR_LIMIT,
            forall|r: Rel| #[trigger] pair_clauses_hold(r, e.pairs@)
                == (pair_clauses_hold(r, old(e).pairs@) && vis_upto(vis, tv, w as int, r, i as int, 0)),
        decreases n - i,
    {
        let mut j: usize = 0;
        while j < n
            invariant
                0 <= i < n,
                0 <= j <= n,
                n == txns@.len(),
                tv == tid_views(txns@),
                vis == po.vis(),
                e.wf(),
                e.width() == w + n,
                w == 0 || w == n,
                w + n < VAR_LIMIT,
                forall|r: Rel| #[trigger] pair_clauses_hold(r, e.pairs@)
                    == (pair_clauses_hold(r, old(e).pairs@) && vis_upto(vis, tv, w as int, r, i as int, j as int)),
            decreases n - j,
        {
            let ghost p0 = e.pairs@;
            if po.visibility_relation.has_edge(&txns[i], &txns[j]) {
                add1(e, (w + i, j), true);
                proof {
                    assert(vis.contains((tv[i as int], tv[j as int])));
                    assert forall|r: Rel| #[trigger] pair_clauses_hold(r, e.pairs@)
                        == (pair_clauses_hold(r, old(e).pairs@) && vis_upto(vis, tv, w as int, r, i as int, j + 1)) by {
                        assert(pair_clauses_hold(r, p0) == (pair_clauses_hold(r, old(e).pairs@) && vis_upto(vis, tv, w as int, r, i as int, j as int)));
                    }
                }
            } else {
                proof {
                    assert(!vis.contains((tv[i as int], tv[j as int])));
                    assert forall|r: Rel| #[trigger] pair_clauses_hold(r, e.pairs@)
                        == (pair_clauses_hold(r, old(e).pairs@) && vis_upto(vis, tv, w as int, r, i as int, j + 1)) by {
                        assert(pair_clauses_hold(r, p0) == (pair_clauses_hold(r, old(e).pairs@) && vis_upto(vis, tv, w as int, r, i as int, j as int)));
                    }
                }
            }
            j = j + 1;
        }
        proof {
            assert forall|r: Rel| #[trigger] pair_clauses_hold(r, e.pairs@)
                == (pair_clauses_hold(r, old(e).pairs@) && vis_upto(vis, tv, w as int, r, i + 1, 0)) by {
                assert(pair_clauses_hold(r, e.pairs@) == (pair_clauses_hold(r, old(e).pairs@) && vis_upto(vis, tv, w as int, r, i as int, j as int)));
            }
        }
        i = i + 1;
    }
    proof {
        assert forall|r: Rel| #[trigger] pair_clauses_hold(r, e.pairs@)
            == (pair_clauses_hold(r, old(e).pairs@) && vis_ok(vis, tv, w as int, r)) by {
            assert(pair_clauses_hold(r, e.pairs@) == (pair_clauses_hold(r, old(e).pairs@) && vis_upto(vis, tv, w as int, r, i as int, 0)));
        }
    }
}

/// `initial_first_ok` for the variables of the entries before `k`, and for
/// the pairs before `(i, j)` of entry `k`.
pub open spec fn initial_upto<V: Label>(po: &AtomicTransactionPO<V>, tv: Seq<(u64, u64)>, w: int, r: Rel, k: int, i: int, j: int) -> bool {
    forall|kk: int, i1: int, j1: int|
        #![trigger wr_edge(po.av(), entry_label(po, kk), (0u64, 0u64), tv[i1]), writes_var(po.av(), tv[j1], entry_label(po, kk))]
        0 <= kk < po.write_read_relation@.len() && 0 <= i1 < tv.len() && 0 <= j1 < tv.len() && i1 != j1
        && (kk < k || (kk == k && (i1 < i || (i1 == i && j1 < j))))
        && wr_edge(po.av(), entry_label(po, kk), (0u64, 0u64), tv[i1]) && writes_var(po.av(), tv[j1], entry_label(po, kk)) ==> r(i1, w + j1)
}

/// Requires every transaction that reads a variable initially to come
/// before every other writer of it.
pub fn add_initial_readers<V: Label>(e: &mut Encoder, po: &AtomicTransactionPO<V>, txns: &Vec<TransactionId>, w: usize)
    requires
        old(e).wf(),
        w == 0 || w == txns@.len(),
        old(e).width() == w + txns@.len(),
        po.well_formed(),
    ensures
        final(e).wf(),
        final(e).width() == old(e).width(),
        forall|r: Rel| #[trigger] pair_clauses_hold(r, final(e).pairs@)
            == (pair_clauses_hold(r, old(e).pairs@) && initial_first_ok(po.av(), tid_views(txns@), w as int, r)),
{
    let ghost tv = tid_views(txns@);
    let ghost av = po.av();
    let n = txns.len();
    proof {
        let x = old(e).width();
        assert(x < VAR_LIMIT) by (nonlinear_arith)
            requires x * x < VAR_LIMIT, x >= 0;
    }
    let root = TransactionId::root();
    let mut k: usize = 0;
    while k < po.write_read_relation.len()
        invariant
            0 <= k <= po.write_read_relation@.len(),
            n == txns@.len(),
            tv == tid_views(txns@),
            av == po.av(),
            po.well_formed(),
            root@ == (0u64, 0u64),
            e.wf(),
            e.width() == w + n,
                w == 0 || w == n,
                w + n < VAR_LIMIT,
            forall|r: Rel| #[trigger] pair_clauses_hold(r, e.pairs@)
                == (pair_clauses_hold(r, old(e).pairs@) && initial_upto(po, tv, w as int, r, k as int, 0, 0)),
        decreases po.write_read_relation@.len() - k,
    {
        let x = &po.write_read_relation[k].0;
        let g = &po.write_read_relation[k].1;
        proof {
            assert(edge_set(g.view()) == wr_rel_of(av, entry_label(po, k as int)));
        }
        let mut i: usize = 0;
        while i < n
            invariant
                0 <= k < po.write_read_relation@.len(),
                0 <= i <= n,
                n == txns@.len(),
                tv == tid_views(txns@),
                av == po.av(),
                po.well_formed(),
                root@ == (0u64, 0u64),
                x == &po.write_read_relation@[k as int].0,
                g == &po.write_read_relation@[k as int].1,
                edge_set(g.view()) == wr_rel_of(av, entry_label(po, k as int)),
                e.wf(),
                e.width() == w + n,
                w == 0 || w == n,
                w + n < VAR_LIMIT,
                forall|r: Rel| #[trigger] pair_clauses_hold(r, e.pairs@)
                    == (pair_clauses_hold(r, old(e).pairs@) && initial_upto(po, tv, w as int, r, k as int, i as int, 0)),
            decreases n - i,
        {
            let reads_initially = g.has_edge(&root, &txns[i]);
            proof {
                assert(edge_set(g.view()).contains((root@, tv[i as int])) == reads_initially);
                assert(reads_initially == wr_edge(av, entry_label(po, k as int), (0u64, 0u64), tv[i as int]));
            }
            if reads_initially {
                let mut j: usize = 0;
                while j < n
                    invariant
                        0 <= k < po.write_read_relation@.len(),
                        0 <= i < n,
                        0 <= j <= n,
                        n == txns@.len(),
                        tv == tid_views(txns@),
                        av == po.av(),
                        x == &po.write_read_relation@[k as int].0,
                        wr_edge(av, entry_label(po, k as int), (0u64, 0u64), tv[i as int]),
                        e.wf(),
                        e.width() == w + n,
                w == 0 || w == n,
                w + n < VAR_LIMIT,
                        forall|r: Rel| #[trigger] pair_clauses_hold(r, e.pairs@)
                            == (pair_clauses_hold(r, old(e).pairs@) && initial_upto(po, tv, w as int, r, k as int, i as int, j as int)),
                    decreases n - j,
                {
                    let ghost p0 = e.pairs@;
                    let writes = j != i && writes_label(po, txns[j], x);
                    proof {
                        if j != i {
                            assert(writes == writes_var(po.av(), tv[j as int], entry_label(po, k as int)));
                        }
                    }
                    if writes {
                        add1(e, (i, w + j), true);
                        proof {
                            assert forall|r: Rel| #[trigger] pair_clauses_hold(r, e.pairs@)
                                == (pair_clauses_hold(r, old(e).pairs@) && initial_upto(po, tv, w as int, r, k as int, i as int, j + 1)) by {
                                assert(pair_clauses_hold(r, p0) == (pair_clauses_hold(r, old(e).pairs@) && initial_upto(po, tv, w as int, r, k as int, i as int, j as int)));
                            }
                        }
                    } else {
                        proof {
                            assert forall|r: Rel| #[trigger] pair_clauses_hold(r, e.pairs@)
                                == (pair_clauses_hold(r, old(e).pairs@) && initial_upto(po, tv, w as int, r, k as int, i as int, j + 1)) by {
                                assert(pair_clauses_hold(r, p0) == (pair_clauses_hold(r, old(e).pairs@) && initial_upto(po, tv, w as int, r, k as int, i as int, j as int)));
                            }
                        }
                    }
                    j = j + 1;
                }
                proof {
                    assert forall|r: Rel| #[trigger] pair_clauses_hold(r, e.pairs@)
                        == (pair_clauses_hold(r, old(e).pairs@) && initial_upto(po, tv, w as int, r, k as int, i + 1, 0)) by {
                        assert(pair_clauses_hold(r, e.pairs@) == (pair_clauses_hold(r, old(e).pairs@) && initial_upto(po, tv, w as int, r, k as int, i as int, j as int)));
                    }
                }
            } else {
                proof {
                    assert forall|r: Rel| #[trigger] pair_clauses_hold(r, e.pairs@)
                        == (pair_clauses_hold(r, old(e).pairs@) && initial_upto(po, tv, w as int, r, k as int, i + 1, 0)) by {
                        assert(pair_clauses_hold(r, e.pairs@) == (pair_clauses_hold(r, old(e).pairs@) && initial_upto(po, tv, w as int, r, k as int, i as int, 0)));
                    }
                }
            }
            i = i + 1;
        }
        proof {
            assert forall|r: Rel| #[trigger] pair_clauses_hold(r, e.pairs@)
                == (pair_clauses_hold(r, old(e).pairs@) && initial_upto(po, tv, w as int, r, k + 1, 0, 0)) by {
                assert(pair_clauses_hold(r, e.pairs@) == (pair_clauses_hold(r, old(e).pairs@) && initial_upto(po, tv, w as int, r, k as int, i as int, 0)));
            }
        }
        k = k + 1;
    }
    proof {
        assert forall|r: Rel| #[trigger] pair_clauses_hold(r, e.pairs@)
            == (pair_clauses_hold(r, old(e).pairs@) && initial_first_ok(av, tv, w as int, r)) by {
            assert(pair_clauses_hold(r, e.pairs@) == (pair_clauses_hold(r, old(e).pairs@) && initial_upto(po, tv, w as int, r, k as int, 0, 0)));
            if initial_upto(po, tv, w as int, r, k as int, 0, 0) {
                assert forall|x: Seq<char>, i: int, j: int| #![trigger wr_edge(av, x, (0u64, 0u64), tv[i]), writes_var(av, tv[j], x)]
                    0 <= i < tv.len() && 0 <= j < tv.len() && i != j
                    && wr_edge(av, x, (0u64, 0u64), tv[i]) && writes_var(av, tv[j], x) implies r(i, w + j) by {
                    lemma_reader_mentions(av, x, (0u64, 0u64), tv[i]);
                    let kk = entry_of(po, x);
                    assert(wr_edge(po.av(), entry_label(po, kk), (0u64, 0u64), tv[i]));
                }
            }
        }
    }
}

/// `between_ok` for the variables of the entries before `k`, and for the
/// triples before `(a, c, b)` (writer, reader, other writer) of entry `k`.
pub open spec fn between_upto<V: Label>(po: &AtomicTransactionPO<V>, tv: Seq<(u64, u64)>, w: int, r: Rel, k: int, a: int, c: int, b: int) -> bool {
    forall|kk: int, i1: int, i2: int, ir: int|
        #![trigger wr_edge(po.av(), entry_label(po, kk), tv[i1], tv[ir]), writes_var(po.av(), tv[i2], entry_label(po, kk))]
        0 <= kk < po.write_read_relation@.len() && 0 <= i1 < tv.len() && 0 <= i2 < tv.len() && 0 <= ir < tv.len()
        && i1 != i2 && ir != i2
        && (kk < k || (kk == k && (i1 < a || (i1 == a && (ir < c || (ir == c && i2 < b))))))
        && writes_var(po.av(), tv[i1], entry_label(po, kk)) && writes_var(po.av(), tv[i2], entry_label(po, kk))
        && wr_edge(po.av(), entry_label(po, kk), tv[i1], tv[ir]) && r(w + i1, w + i2) ==> r(w + i1, ir) && r(ir, w + i2)
}

/// Requires every transaction that reads a variable from `w1` to come
/// between `w1` and any other writer of the variable that follows `w1`.
pub fn add_reads_between<V: Label>(e: &mut Encoder, po: &AtomicTransactionPO<V>, txns: &Vec<TransactionId>, w: usize)
    requires
        old(e).wf(),
        w == 0 || w == txns@.len(),
        old(e).width() == w + txns@.len(),
        po.well_formed(),
    ensures
        final(e).wf(),
        final(e).width() == old(e).width(),
        forall|r: Rel| #[trigger] pair_clauses_hold(r, final(e).pairs@)
            == (pair_clauses_hold(r, old(e).pairs@) && between_ok(po.av(), tid_views(txns@), w as int, r)),
{
    let ghost tv = tid_views(txns@);
    let ghost av = po.av();
    let n = txns.len();
    proof {
        let x = old(e).width();
        assert(x < VAR_LIMIT) by (nonlinear_arith)
            requires x * x < VAR_LIMIT, x >= 0;
    }
    let mut k: usize = 0;
    while k < po.write_read_relation.len()
        invariant
            0 <= k <= po.write_read_relation@.len(),
            n == txns@.len(),
            tv == tid_views(txns@),
            av == po.av(),
            po.well_formed(),
            e.wf(),
            e.width() == w + n,
                w == 0 || w == n,
                w + n < VAR_LIMIT,
            forall|r: Rel| #[trigger] pair_clauses_hold(r, e.pairs@)
                == (pair_clauses_hold(r, old(e).pairs@) && between_upto(po, tv, w as int, r, k as int, 0, 0, 0)),
        decreases po.write_read_relation@.len() - k,
    {
        let x = &po.write_read_relation[k].0;
        let g = &po.write_read_relation[k].1;
        proof {
            assert(edge_set(g.view()) == wr_rel_of(av, entry_label(po, k as int)));
        }
        let mut a: usize = 0;
        while a < n
            invariant
                0 <= k < po.write_read_relation@.len(),
                0 <= a <= n,
                n == txns@.len(),
                tv == tid_views(txns@),
                av == po.av(),
                x == &po.write_read_relation@[k as int].0,
                g == &po.write_read_relation@[k as int].1,
                edge_set(g.view()) == wr_rel_of(av, entry_label(po, k as int)),
                e.wf(),
                e.width() == w + n,
                w == 0 || w == n,
                w + n < VAR_LIMIT,
                forall|r: Rel| #[trigger] pair_clauses_hold(r, e.pairs@)
                    == (pair_clauses_hold(r, old(e).pairs@) && between_upto(po, tv, w as int, r, k as int, a as int, 0, 0)),
            decreases n - a,
        {
            if writes_label(po, txns[a], x) {
                let mut c: usize = 0;
                while c < n
                    invariant
                        0 <= k < po.write_read_relation@.len(),
                        0 <= a < n,
                        0 <= c <= n,
                        n == txns@.len(),
                        tv == tid_views(txns@),
                        av == po.av(),
                        x == &po.write_read_relation@[k as int].0,
                        g == &po.write_read_relation@[k as int].1,
                        edge_set(g.view()) == wr_rel_of(av, entry_label(po, k as int)),
                        writes_var(av, tv[a as int], entry_label(po, k as int)),
                        e.wf(),
                        e.width() == w + n,
                w == 0 || w == n,
                w + n < VAR_LIMIT,
                        forall|r: Rel| #[trigger] pair_clauses_hold(r, e.pairs@)
                            == (pair_clauses_hold(r, old(e).pairs@) && between_upto(po, tv, w as int, r, k as int, a as int, c as int, 0)),
                    decreases n - c,
                {
                    let reads_from = g.has_edge(&txns[a], &txns[c]);
                    proof {
                        assert(edge_set(g.view()).contains((tv[a as int], tv[c as int])) == reads_from);
                    }
                    if reads_from {
                        let mut b: usize = 0;
                        while b < n
                            invariant
                                0 <= k < po.write_read_relation@.len(),
                                0 <= a < n,
                                0 <= c < n,
                                0 <= b <= n,
                                n == txns@.len(),
                                tv == tid_views(txns@),
                                av == po.av(),
                                x == &po.write_read_relation@[k as int].0,
                                writes_var(av, tv[a as int], entry_label(po, k as int)),
                                wr_edge(av, entry_label(po, k as int), tv[a as int], tv[c as int]),
                                e.wf(),
                                e.width() == w + n,
                w == 0 || w == n,
                w + n < VAR_LIMIT,
                                forall|r: Rel| #[trigger] pair_clauses_hold(r, e.pairs@)
                                    == (pair_clauses_hold(r, old(e).pairs@) && between_upto(po, tv, w as int, r, k as int, a as int, c as int, b as int)),
                            decreases n - b,
                        {
                            let ghost p0 = e.pairs@;
                            let other = b != a && b != c && writes_label(po, txns[b], x);
                            proof {
                                if b != a && b != c {
                                    assert(other == writes_var(av, tv[b as int], entry_label(po, k as int)));
                                }
                            }
                            if other {
                                add2(e, (w + a, w + b), false, (w + a, c), true);
                                let ghost p1 = e.pairs@;
                                add2(e, (w + a, w + b), false, (c, w + b), true);
                                proof {
                                    assert forall|r: Rel| #[trigger] pair_clauses_hold(r, e.pairs@)
                                        == (pair_clauses_hold(r, old(e).pairs@) && between_upto(po, tv, w as int, r, k as int, a as int, c as int, b + 1)) by {
                                        assert(pair_clauses_hold(r, p0) == (pair_clauses_hold(r, old(e).pairs@) && between_upto(po, tv, w as int, r, k as int, a as int, c as int, b as int)));
                                        assert(pair_clauses_hold(r, p1) == (pair_clauses_hold(r, p0) && (r(w + a, w + b) == false || r(w + a, c as int) == true)));
                                    }
                                }
                            } else {
                                proof {
                                    assert forall|r: Rel| #[trigger] pair_clauses_hold(r, e.pairs@)
                                        == (pair_clauses_hold(r, old(e).pairs@) && between_upto(po, tv, w as int, r, k as int, a as int, c as int, b + 1)) by {
                                        assert(pair_clauses_hold(r, p0) == (pair_clauses_hold(r, old(e).pairs@) && between_upto(po, tv, w as int, r, k as int, a as int, c as int, b as int)));
                                    }
                                }
                            }
                            b = b + 1;
                        }
                        proof {
                            assert forall|r: Rel| #[trigger] pair_clauses_hold(r, e.pairs@)
                                == (pair_clauses_hold(r, old(e).pairs@) && between_upto(po, tv, w as int, r, k as int, a as int, c + 1, 0)) by {
                                assert(pair_clauses_hold(r, e.pairs@) == (pair_clauses_hold(r, old(e).pairs@) && between_upto(po, tv, w as int, r, k as int, a as int, c as int, b as int)));
                            }
                        }
                    } else {
                        proof {
                            assert forall|r: Rel| #[trigger] pair_clauses_hold(r, e.pairs@)
                                == (pair_clauses_hold(r, old(e).pairs@) && between_upto(po, tv, w as int, r, k as int, a as int, c + 1, 0)) by {
                                assert(pair_clauses_hold(r, e.pairs@) == (pair_clauses_hold(r, old(e).pairs@) && between_upto(po, tv, w as int, r, k as int, a as int, c as int, 0)));
                            }
                        }
                    }
                    c = c + 1;
                }
                proof {
                    assert forall|r: Rel| #[trigger] pair_clauses_hold(r, e.pairs@)
                        == (pair_clauses_hold(r, old(e).pairs@) && between_upto(po, tv, w as int, r, k as int, a + 1, 0, 0)) by {
                        assert(pair_clauses_hold(r, e.pairs@) == (pair_clauses_hold(r, old(e).pairs@) && between_upto(po, tv, w as int, r, k as int, a as int, c as int, 0)));
                    }
                }
            } else {
                proof {
                    assert forall|r: Rel| #[trigger] pair_clauses_hold(r, e.pairs@)
                        == (pair_clauses_hold(r, old(e).pairs@) && between_upto(po, tv, w as int, r, k as int, a + 1, 0, 0)) by {
                        assert(pair_clauses_hold(r, e.pairs@) == (pair_clauses_hold(r, old(e).pairs@) && between_upto(po, tv, w as int, r, k as int, a as int, 0, 0)));
                    }
                }
            }
            a = a + 1;
        }
        proof {
            assert forall|r: Rel| #[trigger] pair_clauses_hold(r, e.pairs@)
                == (pair_clauses_hold(r, old(e).pairs@) && between_upto(po, tv, w as int, r, k + 1, 0, 0, 0)) by {
                assert(pair_clauses_hold(r, e.pairs@) == (pair_clauses_hold(r, old(e).pairs@) && between_upto(po, tv, w as int, r, k as int, a as int, 0, 0)));
            }
        }
        k = k + 1;
    }
    proof {
        assert forall|r: Rel| #[trigger] pair_clauses_hold(r, e.pairs@)
            == (pair_clauses_hold(r, old(e).pairs@) && between_ok(av, tv, w as int, r)) by {
            assert(pair_clauses_hold(r, e.pairs@) == (pair_clauses_hold(r, old(e).pairs@) && between_upto(po, tv, w as int, r, k as int, 0, 0, 0)));
            if between_upto(po, tv, w as int, r, k as int, 0, 0, 0) {
                assert forall|x: Seq<char>, i1: int, i2: int, ir: int| #![trigger wr_edge(av, x, tv[i1], tv[ir]), writes_var(av, tv[i2], x)]
                    0 <= i1 < tv.len() && 0 <= i2 < tv.len() && 0 <= ir < tv.len() && i1 != i2 && ir != i2
                    && writes_var(av, tv[i1], x) && writes_var(av, tv[i2], x) && wr_edge(av, x, tv[i1], tv[ir])
                    && r(w + i1, w + i2) implies r(w + i1, ir) && r(ir, w + i2) by {
                    lemma_writer_mentions(av, tv[i1], x);
                    let kk = entry_of(po, x);
                    assert(wr_edge(po.av(), entry_label(po, kk), tv[i1], tv[ir]));
                    assert(writes_var(po.av(), tv[i2], entry_label(po, kk)));
                }
            }
        }
    }
}

// ---------------------------------------------------------------------------
// Orders of transactions
// ---------------------------------------------------------------------------

/// A relation on transactions: `rt(a, b)` says that `a` comes before `b`.
pub type TxnRel = spec_fn((u64, u64), (u64, u64)) -> bool;

/// `rt` is a strict total order on the transactions of `av`.
pub open spec fn strict_total_order(av: AtomicView, rt: TxnRel) -> bool {
    &&& forall|a: (u64, u64), b: (u64, u64)| #![trigger rt(a, b), rt(b, a)]
        is_txn(av, a) && is_txn(av, b) && a != b ==> (rt(a, b) || rt(b, a)) && !(rt(a, b) && rt(b, a))
    &&& forall|a: (u64, u64), b: (u64, u64), c: (u64, u64)| #![trigger rt(a, b), rt(b, c)]
        is_txn(av, a) && is_txn(av, b) && is_txn(av, c) && a != b && b != c && a != c && rt(a, b) && rt(b, c) ==> rt(a, c)
}

/// `rt` orders the transactions of `av` as a serialization: a strict total
/// order that extends visibility, puts the initial readers of a variable
/// before its other writers, and puts a reader of a variable from `w1`
/// between `w1` and any other writer of it that follows `w1`.
pub open spec fn serial_order(av: AtomicView, vis: Set<((u64, u64), (u64, u64))>, rt: TxnRel) -> bool {
    &&& strict_total_order(av, rt)
    &&& forall|a: (u64, u64), b: (u64, u64)| #![trigger vis.contains((a, b))]
        is_txn(av, a) && is_txn(av, b) && vis.contains((a, b)) ==> rt(a, b)
    &&& forall|x: Seq<char>, a: (u64, u64), b: (u64, u64)| #![trigger wr_edge(av, x, (0u64, 0u64), a), writes_var(av, b, x)]
        wr_edge(av, x, (0u64, 0u64), a) && writes_var(av, b, x) && a != b ==> rt(a, b)
    &&& forall|x: Seq<char>, w1: (u64, u64), w2: (u64, u64), rd: (u64, u64)| #![trigger wr_edge(av, x, w1, rd), writes_var(av, w2, x)]
        writes_var(av, w1, x) && writes_var(av, w2, x) && w1 != w2 && wr_edge(av, x, w1, rd) && rd != w2 && rt(w1, w2)
        ==> rt(w1, rd) && rt(rd, w2)
}

/// An order of the positions of a numbering is an order of its transactions.
proof fn lemma_positions_to_order(av: AtomicView, vis: Set<((u64, u64), (u64, u64))>, tv: Seq<(u64, u64)>, offsets: Seq<usize>, rel: Rel)
    requires
        numbering(av, tv, offsets),
        serial_positions(av, vis, tv, rel),
    ensures
        serial_order(av, vis, |a: (u64, u64), b: (u64, u64)| rel(number_of(offsets, a), number_of(offsets, b))),
{
    let rt = |a: (u64, u64), b: (u64, u64)| rel(number_of(offsets, a), number_of(offsets, b));
    let n = tv.len() as int;
    assert forall|a: (u64, u64), b: (u64, u64)| #![trigger rt(a, b), rt(b, a)]
        is_txn(av, a) && is_txn(av, b) && a != b implies (rt(a, b) || rt(b, a)) && !(rt(a, b) && rt(b, a)) by {
        let i = number_of(offsets, a);
        let j = number_of(offsets, b);
        assert(i != j);
        if i < j {
            assert(rel(i, j) || rel(j, i));
        } else {
            assert(rel(j, i) || rel(i, j));
        }
    }
    assert forall|a: (u64, u64), b: (u64, u64), c: (u64, u64)| #![trigger rt(a, b), rt(b, c)]
        is_txn(av, a) && is_txn(av, b) && is_txn(av, c) && a != b && b != c && a != c && rt(a, b) && rt(b, c) implies rt(a, c) by {
        let i = number_of(offsets, a);
        let j = number_of(offsets, b);
        let l = number_of(offsets, c);
        assert(rel(i, j) && rel(j, l));
    }
    assert forall|a: (u64, u64), b: (u64, u64)| #![trigger vis.contains((a, b))]
        is_txn(av, a) && is_txn(av, b) && vis.contains((a, b)) implies rt(a, b) by {
        let i = number_of(offsets, a);
        let j = number_of(offsets, b);
        assert(vis.contains((tv[i], tv[j])));
    }
    assert forall|x: Seq<char>, a: (u64, u64), b: (u64, u64)| #![trigger wr_edge(av, x, (0u64, 0u64), a), writes_var(av, b, x)]
        wr_edge(av, x, (0u64, 0u64), a) && writes_var(av, b, x) && a != b implies rt(a, b) by {
        let i = number_of(offsets, a);
        let j = number_of(offsets, b);
        assert(wr_edge(av, x, (0u64, 0u64), tv[i]) && writes_var(av, tv[j], x));
    }
    assert forall|x: Seq<char>, w1: (u64, u64), w2: (u64, u64), rd: (u64, u64)| #![trigger wr_edge(av, x, w1, rd), writes_var(av, w2, x)]
        writes_var(av, w1, x) && writes_var(av, w2, x) && w1 != w2 && wr_edge(av, x, w1, rd) && rd != w2 && rt(w1, w2)
        implies rt(w1, rd) && rt(rd, w2) by {
        let i1 = number_of(offsets, w1);
        let i2 = number_of(offsets, w2);
        let ir = number_of(offsets, rd);
        assert(wr_edge(av, x, tv[i1], tv[ir]) && writes_var(av, tv[i2], x));
    }
}

/// An order of the transactions of a numbering is an order of its positions.
proof fn lemma_order_to_positions(av: AtomicView, vis: Set<((u64, u64), (u64, u64))>, tv: Seq<(u64, u64)>, offsets: Seq<usize>, rt: TxnRel)
    requires
        numbering(av, tv, offsets),
        serial_order(av, vis, rt),
    ensures
        serial_positions(av, vis, tv, |i: int, j: int| rt(tv[i], tv[j])),
{
    let rel = |i: int, j: int| rt(tv[i], tv[j]);
    let n = tv.len() as int;
    assert forall|a: int, b: int| #![trigger rel(a, b), rel(b, a)] 0 <= a < b < n
        implies (rel(a, b) || rel(b, a)) && !(rel(a, b) && rel(b, a)) by {
        if tv[a] == tv[b] {
            lemma_numbering_injective(av, tv, offsets, a, b);
        }
        assert(is_txn(av, tv[a]) && is_txn(av, tv[b]));
    }
    assert forall|a: int, b: int, c: int| #![trigger rel(a, b), rel(b, c)]
        0 <= a < n && 0 <= b < n && 0 <= c < n && a != b && b != c && a != c && rel(a, b) && rel(b, c) implies rel(a, c) by {
        if tv[a] == tv[b] { lemma_numbering_injective(av, tv, offsets, a, b); }
        if tv[b] == tv[c] { lemma_numbering_injective(av, tv, offsets, b, c); }
        if tv[a] == tv[c] { lemma_numbering_injective(av, tv, offsets, a, c); }
        assert(is_txn(av, tv[a]) && is_txn(av, tv[b]) && is_txn(av, tv[c]));
    }
    assert forall|i: int, j: int| #![trigger vis.contains((tv[i], tv[j]))]
        0 <= i < n && 0 <= j < n && vis.contains((tv[i], tv[j])) implies rel(i, j) by {
        assert(is_txn(av, tv[i]) && is_txn(av, tv[j]));
    }
    assert forall|x: Seq<char>, i: int, j: int| #![trigger wr_edge(av, x, (0u64, 0u64), tv[i]), writes_var(av, tv[j], x)]
        0 <= i < n && 0 <= j < n && i != j && wr_edge(av, x, (0u64, 0u64), tv[i]) && writes_var(av, tv[j], x) implies rel(i, j) by {
        if tv[i] == tv[j] { lemma_numbering_injective(av, tv, offsets, i, j); }
    }
    assert forall|x: Seq<char>, i1: int, i2: int, ir: int| #![trigger wr_edge(av, x, tv[i1], tv[ir]), writes_var(av, tv[i2], x)]
        0 <= i1 < n && 0 <= i2 < n && 0 <= ir < n && i1 != i2 && ir != i2
        && writes_var(av, tv[i1], x) && writes_var(av, tv[i2], x) && wr_edge(av, x, tv[i1], tv[ir])
        && rel(i1, i2) implies rel(i1, ir) && rel(ir, i2) by {
        if tv[i1] == tv[i2] { lemma_numbering_injective(av, tv, offsets, i1, i2); }
        if tv[ir] == tv[i2] { lemma_numbering_injective(av, tv, offsets, ir, i2); }
    }
}

/// Whether the transactions of the partial order have an order that is a
/// serialization, as the SAT solver finds.
pub fn check_serializable_from_po<V: Label>(po: &AtomicTransactionPO<V>) -> (r: bool)
    requires
        po.well_formed(),
        txn_count(po.av()) * txn_count(po.av()) < VAR_LIMIT,
    ensures
        r == exists|rt: TxnRel| #[trigger] serial_order(po.av(), po.vis(), rt),
{
    let ghost av = po.av();
    let ghost vis = po.vis();
    proof {
        assert(txn_count(av) < usize::MAX) by (nonlinear_arith)
            requires txn_count(av) * txn_count(av) < VAR_LIMIT;
    }
    let (txns, offsets) = number_transactions(po);
    let ghost tv = tid_views(txns@);
    let n = txns.len();
    let no_edges: Vec<(usize, usize)> = Vec::new();
    let mut e = encode_ordering(n, &no_edges);
    add_visibility(&mut e, po, &txns, 0);
    add_initial_readers(&mut e, po, &txns, 0);
    add_reads_between(&mut e, po, &txns, 0);
    let ghost pairs = e.pairs@;
    let r = e.solve();
    proof {
        assert forall|rel: Rel| #[trigger] pair_clauses_hold(rel, pairs) == serial_positions(av, vis, tv, rel) by {
            assert(units_hold(rel, no_edges@));
        }
        if r {
            let rel = choose|rel: Rel| #[trigger] pair_clauses_hold(rel, pairs);
            lemma_positions_to_order(av, vis, tv, offsets@, rel);
            let rt = |a: (u64, u64), b: (u64, u64)| rel(number_of(offsets@, a), number_of(offsets@, b));
            assert(serial_order(av, vis, rt));
        } else {
            assert forall|rt: TxnRel| !#[trigger] serial_order(av, vis, rt) by {
                if serial_order(av, vis, rt) {
                    lemma_order_to_positions(av, vis, tv, offsets@, rt);
                    assert(pair_clauses_hold(|i: int, j: int| rt(tv[i], tv[j]), pairs));
                }
            }
        }
    }
    r
}

/// A sequence that lists every transaction once, in a serialization order,
/// is a serialization, where every read is justified and visibility is
/// irreflexive.
pub proof fn lemma_sorted_txns_accepted(av: AtomicView, vis: Set<((u64, u64), (u64, u64))>, rt: TxnRel, o: Seq<(u64, u64)>)
    requires
        serial_order(av, vis, rt),
        reads_justified(av, vis),
        forall|t: (u64, u64)| !vis.contains((t, t)),
        lists_all_txns(av, o),
        forall|i: int, j: int| 0 <= i < j < o.len() ==> rt(#[trigger] o[i], #[trigger] o[j]),
    ensures
        is_serialization(av, vis, o),
{
    assert forall|i: int, j: int| 0 <= j <= i < o.len() implies !vis.contains((#[trigger] o[i], #[trigger] o[j])) by {
        if vis.contains((o[i], o[j])) && j < i {
            assert(is_txn(av, o[i]) && is_txn(av, o[j]));
            assert(rt(o[i], o[j]));
            assert(rt(o[j], o[i]));
            assert(o[i] != o[j]);
        }
    }
    assert(respects_vis(vis, o));
    assert forall|i: int, x: Seq<char>, w: (u64, u64)| 0 <= i < o.len() && #[trigger] reads_of(av, o[i]).contains((x, w))
        implies read_explained(av, o, i, x, w) by {
        let rd = o[i];
        assert(is_txn(av, rd));
        assert(wr_edge(av, x, w, rd));
        if w == (0u64, 0u64) {
            assert forall|k: int| 0 <= k < i implies !writes_var(av, #[trigger] o[k], x) by {
                if writes_var(av, o[k], x) {
                    assert(o[k] != rd);
                    assert(rt(o[k], rd));
                    assert(rt(rd, o[k]));
                }
            }
        } else {
            assert(writes_var(av, w, x) && w != rd && vis.contains((w, rd)));
            assert(rt(w, rd));
            assert(o.contains(w));
            let j = choose|j: int| 0 <= j < o.len() && o[j] == w;
            if j > i {
                assert(rt(o[i], o[j]));
            }
            assert(j != i);
            assert forall|k: int| j < k < i implies !writes_var(av, #[trigger] o[k], x) by {
                if writes_var(av, o[k], x) {
                    let b = o[k];
                    assert(rt(o[j], o[k]));
                    assert(rt(o[k], o[i]));
                    assert(b != w && b != rd);
                    assert(wr_edge(av, x, w, rd) && writes_var(av, b, x));
                    assert(rt(rd, b));
                }
            }
        }
    }
}

/// A serialization of the partial order, as the SAT solver finds it: `None`
/// when the solver finds the constraints unsatisfiable, or its order is not
/// accepted.
pub fn search_serial<V: Label>(po: &AtomicTransactionPO<V>) -> (r: Option<Vec<TransactionId>>)
    requires
        po.well_formed(),
        txn_count(po.av()) * txn_count(po.av()) < VAR_LIMIT,
    ensures
        r matches Some(ord) ==> is_serialization(po.av(), po.vis(), tid_views(ord@)),
        !(exists|rt: TxnRel| #[trigger] serial_order(po.av(), po.vis(), rt)) ==> r is None,
        (exists|rt: TxnRel| #[trigger] serial_order(po.av(), po.vis(), rt)) && reads_justified(po.av(), po.vis())
            && (forall|t: (u64, u64)| !po.vis().contains((t, t))) ==> r is Some,
{
    let ghost av = po.av();
    let ghost vis = po.vis();
    proof {
        assert(txn_count(av) < usize::MAX) by (nonlinear_arith)
            requires txn_count(av) * txn_count(av) < VAR_LIMIT;
    }
    let (txns, offsets) = number_transactions(po);
    let ghost tv = tid_views(txns@);
    let n = txns.len();
    let no_edges: Vec<(usize, usize)> = Vec::new();
    let mut e = encode_ordering(n, &no_edges);
    add_visibility(&mut e, po, &txns, 0);
    add_initial_readers(&mut e, po, &txns, 0);
    add_reads_between(&mut e, po, &txns, 0);
    let ghost pairs = e.pairs@;
    proof {
        assert forall|rel: Rel| #[trigger] pair_clauses_hold(rel, pairs) == serial_positions(av, vis, tv, rel) by {
            assert(units_hold(rel, no_edges@));
        }
    }
    if !e.solve() {
        proof {
            assert forall|rt: TxnRel| !#[trigger] serial_order(av, vis, rt) by {
                if serial_order(av, vis, rt) {
                    lemma_order_to_positions(av, vis, tv, offsets@, rt);
                    assert(pair_clauses_hold(|i: int, j: int| rt(tv[i], tv[j]), pairs));
                }
            }
        }
        return None;
    }
    let order = extract_order(&e);
    let ghost rel = e.model_rel();
    proof {
        assert(pair_clauses_hold(rel, pairs));
        assert(serial_positions(av, vis, tv, rel));
        lemma_positions_to_order(av, vis, tv, offsets@, rel);
        let rt0 = |a: (u64, u64), b: (u64, u64)| rel(number_of(offsets@, a), number_of(offsets@, b));
        assert(serial_order(av, vis, rt0));
        assert forall|i: int, j: int| 0 <= i < j < order@.len() implies rel(#[trigger] order@[i] as int, #[trigger] order@[j] as int) by {
            let a = order@[i] as int;
            let b = order@[j] as int;
            assert(a != b);
            if rel(b, a) {
                lemma_rank_lt(rel, n as int, b, a);
            } else if a < b {
                assert(rel(a, b) || rel(b, a));
            } else {
                assert(rel(b, a) || rel(a, b));
            }
        }
    }
    let mut ord: Vec<TransactionId> = Vec::new();
    let mut k: usize = 0;
    while k < order.len()
        invariant
            0 <= k <= order@.len(),
            n == txns@.len(),
            tv == tid_views(txns@),
            forall|m: int| 0 <= m < order@.len() ==> #[trigger] order@[m] < n,
            ord@.len() == k,
            forall|m: int| 0 <= m < k ==> #[trigger] tid_views(ord@)[m] == tv[order@[m] as int],
        decreases order@.len() - k,
    {
        let ghost o0 = ord@;
        ord.push(txns[order[k]]);
        proof {
            assert forall|m: int| 0 <= m < k + 1 implies #[trigger] tid_views(ord@)[m] == tv[order@[m] as int] by {
                if m < k {
                    assert(ord@[m] == o0[m]);
                    assert(tid_views(o0)[m] == o0[m]@);
                }
            }
        }
        k = k + 1;
    }
    proof {
        let o = tid_views(ord@);
        if (exists|rt: TxnRel| #[trigger] serial_order(av, vis, rt)) && reads_justified(av, vis) && (forall|t: (u64, u64)| !vis.contains((t, t))) {
            lemma_positions_to_order(av, vis, tv, offsets@, rel);
            let rt = |a: (u64, u64), b: (u64, u64)| rel(number_of(offsets@, a), number_of(offsets@, b));
            assert forall|v: int| 0 <= v < n implies #[trigger] number_of(offsets@, tv[v]) == v by {}
            assert forall|i: int, j: int| 0 <= i < j < o.len() implies rt(#[trigger] o[i], #[trigger] o[j]) by {
                assert(o[i] == tv[order@[i] as int]);
                assert(o[j] == tv[order@[j] as int]);
                assert(number_of(offsets@, tv[order@[i] as int]) == order@[i]);
                assert(number_of(offsets@, tv[order@[j] as int]) == order@[j]);
                assert(rel(order@[i] as int, order@[j] as int));
            }
            assert forall|i: int, j: int| 0 <= i < o.len() && 0 <= j < o.len() && i != j implies o[i] != o[j] by {
                assert(o[i] == tv[order@[i] as int]);
                assert(o[j] == tv[order@[j] as int]);
                if i < j {
                    assert(order@[i] != order@[j]);
                } else {
                    assert(order@[j] != order@[i]);
                }
                if o[i] == o[j] {
                    lemma_numbering_injective(av, tv, offsets@, order@[i] as int, order@[j] as int);
                }
            }
            assert(o.no_duplicates());
            assert forall|i: int| 0 <= i < o.len() implies is_txn(av, #[trigger] o[i]) by {
                assert(o[i] == tv[order@[i] as int]);
            }
            assert forall|t: (u64, u64)| #[trigger] is_txn(av, t) implies o.contains(t) by {
                let i = number_of(offsets@, t);
                assert(order@.contains(i as usize));
                let a = choose|a: int| 0 <= a < order@.len() && order@[a] == i as usize;
                assert(o[a] == tv[i]);
            }
            assert(lists_all_txns(av, o));
            lemma_sorted_txns_accepted(av, vis, rt, o);
        }
    }
    if check_serialization(po, &ord) {
        Some(ord)
    } else {
        None
    }
}

/// A serialization orders the transactions as a serialization order: each
/// before those that come later in it.
pub proof fn lemma_serialization_orders(av: AtomicView, vis: Set<((u64, u64), (u64, u64))>, o: Seq<(u64, u64)>)
    requires
        is_serialization(av, vis, o),
    ensures
        serial_order(av, vis, |a: (u64, u64), b: (u64, u64)| pos_in(o, a) < pos_in(o, b)),
{
    let rt = |a: (u64, u64), b: (u64, u64)| pos_in(o, a) < pos_in(o, b);
    assert forall|t: (u64, u64)| is_txn(av, t) implies 0 <= #[trigger] pos_in(o, t) < o.len() && o[pos_in(o, t)] == t by {
        assert(o.contains(t));
    }
    assert forall|a: (u64, u64), b: (u64, u64)| #![trigger rt(a, b), rt(b, a)]
        is_txn(av, a) && is_txn(av, b) && a != b implies (rt(a, b) || rt(b, a)) && !(rt(a, b) && rt(b, a)) by {
        assert(pos_in(o, a) != pos_in(o, b));
    }
    assert forall|a: (u64, u64), b: (u64, u64)| #![trigger vis.contains((a, b))]
        is_txn(av, a) && is_txn(av, b) && vis.contains((a, b)) implies rt(a, b) by {
        let i = pos_in(o, a);
        let j = pos_in(o, b);
        assert(o[i] == a && o[j] == b);
        if j <= i {
            assert(!vis.contains((o[i], o[j])));
        }
    }
    assert forall|x: Seq<char>, a: (u64, u64), b: (u64, u64)| #![trigger wr_edge(av, x, (0u64, 0u64), a), writes_var(av, b, x)]
        wr_edge(av, x, (0u64, 0u64), a) && writes_var(av, b, x) && a != b implies rt(a, b) by {
        assert(is_txn(av, a) && is_txn(av, b));
        let i = pos_in(o, a);
        let k = pos_in(o, b);
        assert(o[i] == a && o[k] == b);
        assert(reads_of(av, o[i]).contains((x, (0u64, 0u64))));
        assert(read_explained(av, o, i, x, (0u64, 0u64)));
        if exists|j: int| 0 <= j < i && o[j] == (0u64, 0u64) && forall|k2: int| j < k2 < i ==> !writes_var(av, #[trigger] o[k2], x) {
            let j = choose|j: int| 0 <= j < i && o[j] == (0u64, 0u64) && forall|k2: int| j < k2 < i ==> !writes_var(av, #[trigger] o[k2], x);
            assert(is_txn(av, o[j]));
        }
        if k < i {
            assert(writes_var(av, o[k], x));
        }
        assert(k != i);
    }
    assert forall|x: Seq<char>, w1: (u64, u64), w2: (u64, u64), rd: (u64, u64)| #![trigger wr_edge(av, x, w1, rd), writes_var(av, w2, x)]
        writes_var(av, w1, x) && writes_var(av, w2, x) && w1 != w2 && wr_edge(av, x, w1, rd) && rd != w2 && rt(w1, w2)
        implies rt(w1, rd) && rt(rd, w2) by {
        assert(is_txn(av, rd) && is_txn(av, w1) && is_txn(av, w2));
        let i = pos_in(o, rd);
        let j1 = pos_in(o, w1);
        let k = pos_in(o, w2);
        assert(o[i] == rd && o[j1] == w1 && o[k] == w2);
        assert(reads_of(av, o[i]).contains((x, w1)));
        assert(read_explained(av, o, i, x, w1));
        assert(w1 != (0u64, 0u64));
        let j = choose|j: int| 0 <= j < i && o[j] == w1 && forall|k2: int| j < k2 < i ==> !writes_var(av, #[trigger] o[k2], x);
        assert(j == j1);
        if k < i {
            assert(writes_var(av, o[k], x));
        }
        assert(k != i);
    }
}

} // verus!
