//! The transactions of an atomic history, numbered session by session.
use vstd::prelude::*;

use crate::graph::digraph::tid_views;
use crate::history::atomic::types::{AtomicView, TransactionId};
use crate::history::atomic::{is_txn, AtomicTransactionPO};
use crate::history::raw::types::Transaction;
use crate::label::Label;
use crate::sat::solver::VAR_LIMIT;

verus! {

/// The number of transactions of an atomic history.
pub open spec fn txn_count(av: AtomicView) -> nat
    decreases av.len(),
{
    if av.len() == 0 {
        0
    } else {
        txn_count(av.drop_last()) + av.last().len()
    }
}

/// The number of the transaction `t` in a list that starts session `s` at
/// `offsets[s - 1]`.
pub open spec fn number_of(offsets: Seq<usize>, t: (u64, u64)) -> int {
    offsets[t.0 - 1] + t.1
}

/// `txns` lists the transactions of `av` once each, session by session, and
/// transaction `t` is at position `number_of(offsets, t)`.
pub open spec fn numbering(av: AtomicView, txns: Seq<(u64, u64)>, offsets: Seq<usize>) -> bool {
    &&& offsets.len() == av.len()
    &&& txns.len() == txn_count(av)
    &&& forall|k: int| 0 <= k < txns.len() ==> is_txn(av, #[trigger] txns[k]) && number_of(offsets, txns[k]) == k
    &&& forall|t: (u64, u64)| #[trigger] is_txn(av, t) ==> 0 <= number_of(offsets, t) < txns.len() && txns[number_of(offsets, t)] == t
}

/// Distinct positions of a numbering hold distinct transactions.
pub proof fn lemma_numbering_injective(av: AtomicView, txns: Seq<(u64, u64)>, offsets: Seq<usize>, i: int, j: int)
    requires
        numbering(av, txns, offsets),
        0 <= i < txns.len(),
        0 <= j < txns.len(),
        txns[i] == txns[j],
    ensures
        i == j,
{
    assert(number_of(offsets, txns[i]) == i);
    assert(number_of(offsets, txns[j]) == j);
}

proof fn lemma_txn_count_push(av: AtomicView, s: int)
    requires
        0 <= s < av.len(),
    ensures
        txn_count(av.subrange(0, s + 1)) == txn_count(av.subrange(0, s)) + av[s].len(),
{
    assert(av.subrange(0, s + 1).drop_last() =~= av.subrange(0, s));
}

/// The transactions of the partial order's history, session by session, with
/// the position where each session starts.
pub fn number_transactions<V: Label>(po: &AtomicTransactionPO<V>) -> (r: (Vec<TransactionId>, Vec<usize>))
    requires
        txn_count(po.av()) < usize::MAX,
    ensures
        numbering(po.av(), tid_views(r.0@), r.1@),
{
    let ghost av = po.av();
    let mut txns: Vec<TransactionId> = Vec::new();
    let mut offsets: Vec<usize> = Vec::new();
    let mut s: usize = 0;
    proof {
        assert(av.subrange(0, 0) =~= Seq::<Seq<(Set<Seq<char>>, Set<(Seq<char>, (u64, u64))>)>>::empty());
    }
    while s < po.history.0.len()
        invariant
            0 <= s <= av.len(),
            av == po.av(),
            av.len() == po.history.0@.len(),
            txn_count(av) < usize::MAX,
            offsets@.len() == s,
            txns@.len() == txn_count(av.subrange(0, s as int)),
            forall|k: int| 0 <= k < txns@.len() ==> is_txn(av, #[trigger] tid_views(txns@)[k])
                && tid_views(txns@)[k].0 <= s && number_of(offsets@, tid_views(txns@)[k]) == k,
            forall|t: (u64, u64)| #[trigger] is_txn(av, t) && t.0 <= s
                ==> 0 <= number_of(offsets@, t) < txns@.len() && tid_views(txns@)[number_of(offsets@, t)] == t,
        decreases av.len() - s,
    {
        proof {
            lemma_txn_count_push(av, s as int);
            lemma_txn_count_prefix_bound(av, s as int + 1);
        }
        let start = txns.len();
        offsets.push(start);
        let mut t: usize = 0;
        while t < po.history.0[s].len()
            invariant
                0 <= s < av.len(),
                s < po.history.0.len(),
                av == po.av(),
                av.len() == po.history.0@.len(),
                offsets@.len() == s + 1,
                offsets@[s as int] == start,
                start == txn_count(av.subrange(0, s as int)),
                start + av[s as int].len() <= txn_count(av),
                txn_count(av) < usize::MAX,
                0 <= t <= av[s as int].len(),
                txns@.len() == start + t,
                forall|k: int| 0 <= k < txns@.len() ==> is_txn(av, #[trigger] tid_views(txns@)[k])
                    && tid_views(txns@)[k].0 <= s + 1 && number_of(offsets@, tid_views(txns@)[k]) == k,
                forall|u: (u64, u64)| #[trigger] is_txn(av, u) && (u.0 <= s || (u.0 == s + 1 && u.1 < t))
                    ==> 0 <= number_of(offsets@, u) < txns@.len() && tid_views(txns@)[number_of(offsets@, u)] == u,
            decreases av[s as int].len() - t,
        {
            let ghost before = txns@;
            txns.push(TransactionId { session_id: (s + 1) as u64, session_height: t as u64 });
            proof {
                assert forall|k: int| 0 <= k < txns@.len() implies is_txn(av, #[trigger] tid_views(txns@)[k])
                    && tid_views(txns@)[k].0 <= s + 1 && number_of(offsets@, tid_views(txns@)[k]) == k by {
                    if k < before.len() {
                        assert(tid_views(txns@)[k] == tid_views(before)[k]);
                    }
                }
                assert forall|u: (u64, u64)| #[trigger] is_txn(av, u) && (u.0 <= s || (u.0 == s + 1 && u.1 < t + 1))
                    implies 0 <= number_of(offsets@, u) < txns@.len() && tid_views(txns@)[number_of(offsets@, u)] == u by {
                    if u.0 <= s || (u.0 == s + 1 && u.1 < t) {
                        assert(tid_views(txns@)[number_of(offsets@, u)] == tid_views(before)[number_of(offsets@, u)]);
                    }
                }
            }
            t = t + 1;
        }
        proof {
            assert forall|u: (u64, u64)| #[trigger] is_txn(av, u) && u.0 <= s + 1
                implies 0 <= number_of(offsets@, u) < txns@.len() && tid_views(txns@)[number_of(offsets@, u)] == u by {
            }
        }
        s = s + 1;
    }
    proof {
        assert(av.subrange(0, s as int) =~= av);
    }
    (txns, offsets)
}

proof fn lemma_txn_count_prefix_bound(av: AtomicView, k: int)
    requires
        0 <= k <= av.len(),
    ensures
        txn_count(av.subrange(0, k)) <= txn_count(av),
    decreases av.len() - k,
{
    if k < av.len() {
        lemma_txn_count_prefix_bound(av, k + 1);
        lemma_txn_count_push(av, k);
    } else {
        assert(av.subrange(0, k) =~= av);
    }
}

/// The number of transactions of a raw history.
pub open spec fn history_txn_count<V>(h: Seq<Vec<Transaction<V, u64>>>) -> nat
    decreases h.len(),
{
    if h.len() == 0 {
        0
    } else {
        history_txn_count(h.drop_last()) + h.last()@.len()
    }
}

/// An atomic view with the shape of a raw history has as many transactions.
pub proof fn lemma_txn_count_shape<V>(av: AtomicView, h: Seq<Vec<Transaction<V, u64>>>)
    requires
        av.len() == h.len(),
        forall|s: int| 0 <= s < h.len() ==> (#[trigger] av[s]).len() == h[s]@.len(),
    ensures
        txn_count(av) == history_txn_count(h),
    decreases h.len(),
{
    if h.len() > 0 {
        lemma_txn_count_shape(av.drop_last(), h.drop_last());
    }
}

/// The history is small enough for the SAT encodings of the split phases:
/// `2 n` vertices, with `n` its transactions, have fewer than `VAR_LIMIT`
/// ordered pairs.
pub open spec fn fits_sat(av: AtomicView) -> bool {
    (2 * txn_count(av)) * (2 * txn_count(av)) < VAR_LIMIT
}

/// Whether the partial order is small enough for the SAT encodings.
pub fn fits_sat_exec<V: Label>(po: &AtomicTransactionPO<V>) -> (r: bool)
    ensures
        r == fits_sat(po.av()),
{
    let ghost av = po.av();
    let cap: u64 = 30000;
    let mut c: u64 = 0;
    let mut s: usize = 0;
    while s < po.history.0.len()
        invariant
            0 <= s <= po.history.0@.len(),
            av == po.av(),
            av.len() == po.history.0@.len(),
            c <= cap,
            cap == 30000,
            c == if txn_count(av.take(s as int)) < cap { txn_count(av.take(s as int)) } else { cap as nat },
        decreases po.history.0@.len() - s,
    {
        let l = po.history.0[s].len();
        assert(av[s as int].len() == l);
        assert(av.take(s + 1).drop_last() =~= av.take(s as int));
        assert(av.take(s + 1).last() == av[s as int]);
        if (l as u64) >= cap - c {
            c = cap;
        } else {
            c = c + l as u64;
        }
        s = s + 1;
    }
    assert(av.take(av.len() as int) =~= av);
    proof {
        if txn_count(av) >= cap {
            assert((2 * txn_count(av)) * (2 * txn_count(av)) >= 60000 * 60000) by (nonlinear_arith)
                requires txn_count(av) >= 30000;
        }
    }
    assert((2 * c) * (2 * c) <= 60000 * 60000) by (nonlinear_arith)
        requires c <= 30000;
    (2 * c) * (2 * c) < VAR_LIMIT as u64
}

} // verus!
