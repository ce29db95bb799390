//! Read Committed: every read observes a committed write, and the reads of a
//! transaction observe writes in an order that the commit order can follow.
//!
//! The check builds a committed order graph and tests it for acyclicity:
//! 1. session order: the root precedes the first transaction of each session,
//!    and each transaction precedes the next one of its session;
//! 2. write-read: a transaction that writes what another reads precedes it;
//! 3. committed order: when a transaction reads a variable from one
//!    transaction and later from another, the first writer precedes the
//!    second.
use vstd::prelude::*;

use crate::consistency::error::Error;
use crate::consistency::Consistency;
use crate::graph::digraph::{acyclic_rel, edge_set, is_acyclic_spec, lemma_acyclic_edge_set, DiGraph};
use crate::history::atomic::types::TransactionId;
use crate::history::raw::error::Error as NonAtomicError;
use crate::history::raw::types::{Event, Session, Transaction};
use crate::history::raw::{
    collect_writes, event_at, in_history, is_valid_history, is_write_list, is_write_of, lemma_pos_fits, positions,
    reads_initial, resolve, valid_history, validity_error_holds,
};
use crate::label::Label;

verus! {

/// The identifier of transaction `t` of session `s` (sessions numbered from 1).
pub open spec fn tid_of_pos(s: int, t: int) -> (u64, u64) {
    ((s + 1) as u64, t as u64)
}

/// The transaction whose write a read of `version` of `x` observes: the root
/// `(0, 0)` for the initial value.
pub open spec fn writer_tid<V: Label>(h: Seq<Vec<Transaction<V, u64>>>, x: Seq<char>, version: Option<u64>) -> (u64, u64) {
    if reads_initial(h, x, version) {
        (0u64, 0u64)
    } else {
        let (s, t, e) = choose|s: int, t: int, e: int| is_write_of(h, s, t, e, x, version.unwrap());
        tid_of_pos(s, t)
    }
}

/// The variable of the event at a position.
pub open spec fn var_at<V: Label>(h: Seq<Vec<Transaction<V, u64>>>, s: int, t: int, e: int) -> Seq<char> {
    event_at(h, s, t, e).var_of().label()
}

/// The version a read at a position names.
pub open spec fn version_at<V>(h: Seq<Vec<Transaction<V, u64>>>, s: int, t: int, e: int) -> Option<u64> {
    match event_at(h, s, t, e) {
        Event::Read { version, .. } => version,
        Event::Write { version, .. } => Some(version),
    }
}

/// The transaction that the read at a position observes.
pub open spec fn read_writer<V: Label>(h: Seq<Vec<Transaction<V, u64>>>, s: int, t: int, e: int) -> (u64, u64) {
    writer_tid(h, var_at(h, s, t, e), version_at(h, s, t, e))
}

/// The event at a position is a read that observes another transaction.
pub open spec fn external_read<V: Label>(h: Seq<Vec<Transaction<V, u64>>>, s: int, t: int, e: int) -> bool {
    in_history(h, s, t, e) && event_at(h, s, t, e) is Read && read_writer(h, s, t, e) != tid_of_pos(s, t)
}

/// The last read of `x` among the first `e` events of transaction `(s, t)`
/// that observes another transaction.
pub open spec fn last_external_read<V: Label>(h: Seq<Vec<Transaction<V, u64>>>, s: int, t: int, e: int, x: Seq<char>) -> Option<int>
    decreases e,
{
    if e <= 0 {
        None
    } else if external_read(h, s, t, e - 1) && var_at(h, s, t, e - 1) == x {
        Some(e - 1)
    } else {
        last_external_read(h, s, t, e - 1, x)
    }
}

/// The session order edges: the root before the first transaction of each
/// session that has one, and each transaction before the next in its
/// session.
pub open spec fn chain_edge<V>(h: Seq<Vec<Transaction<V, u64>>>, a: (u64, u64), b: (u64, u64)) -> bool {
    ||| a == (0u64, 0u64) && b.1 == 0 && 1 <= b.0 <= h.len() && h[b.0 - 1]@.len() > 0
    ||| 1 <= b.0 <= h.len() && a.0 == b.0 && 1 <= b.1 < h[b.0 - 1]@.len() && a.1 == b.1 - 1
}

/// The edges that the read at a position adds: from its writer to its
/// transaction, and, when the previous read of the variable in the
/// transaction observed a different transaction, from that writer to its
/// writer.
pub open spec fn read_edge<V: Label>(h: Seq<Vec<Transaction<V, u64>>>, s: int, t: int, e: int, a: (u64, u64), b: (u64, u64)) -> bool {
    external_read(h, s, t, e) && {
        ||| a == read_writer(h, s, t, e) && b == tid_of_pos(s, t)
        ||| (last_external_read(h, s, t, e, var_at(h, s, t, e)) matches Some(p)
            && a == read_writer(h, s, t, p) && b == read_writer(h, s, t, e) && a != b)
    }
}

/// The committed order of a history.
pub open spec fn committed_order<V: Label>(h: Seq<Vec<Transaction<V, u64>>>) -> Set<((u64, u64), (u64, u64))> {
    Set::new(|p: ((u64, u64), (u64, u64))|
        chain_edge(h, p.0, p.1) || exists|s: int, t: int, e: int| #[trigger] read_edge(h, s, t, e, p.0, p.1))
}

/// With unique versions, the writer of a version is the transaction of its
/// write.
pub proof fn lemma_writer_tid<V: Label>(h: Seq<Vec<Transaction<V, u64>>>, x: Seq<char>, v: u64, s: int, t: int, e: int)
    requires
        valid_history(h),
        is_write_of(h, s, t, e, x, v),
    ensures
        writer_tid(h, x, Some(v)) == tid_of_pos(s, t),
{
    assert(!reads_initial(h, x, Some(v)));
    let (s2, t2, e2) = choose|s2: int, t2: int, e2: int| is_write_of(h, s2, t2, e2, x, v);
    assert(is_write_of(h, s2, t2, e2, x, v));
}

/// The last read of a prefix that observes another transaction is one.
pub proof fn lemma_last_external_read<V: Label>(h: Seq<Vec<Transaction<V, u64>>>, s: int, t: int, e: int, x: Seq<char>)
    ensures
        last_external_read(h, s, t, e, x) matches Some(p) ==> 0 <= p < e && external_read(h, s, t, p),
    decreases e,
{
    if e > 0 {
        lemma_last_external_read(h, s, t, e - 1, x);
    }
}

proof fn lemma_last_external_is<V: Label>(h: Seq<Vec<Transaction<V, u64>>>, s: int, t: int, p: int, e: int, x: Seq<char>)
    requires
        0 <= p < e,
        external_read(h, s, t, p),
        var_at(h, s, t, p) == x,
        forall|m: int| p < m < e ==> !(#[trigger] external_read(h, s, t, m) && var_at(h, s, t, m) == x),
    ensures
        last_external_read(h, s, t, e, x) == Some(p),
    decreases e,
{
    if e - 1 != p {
        assert(!(external_read(h, s, t, e - 1) && var_at(h, s, t, e - 1) == x));
        lemma_last_external_is(h, s, t, p, e - 1, x);
    }
}

/// The committed order holds the session order: the root precedes the
/// first transaction of every session that has one, and each transaction
/// precedes the next one of its session.
pub proof fn lemma_session_order_in_committed_order<V: Label>(h: Seq<Vec<Transaction<V, u64>>>, s: int, t: int)
    requires
        0 <= s < h.len(),
        0 <= t < h[s]@.len(),
        s + 1 <= u64::MAX,
        t <= u64::MAX,
    ensures
        t == 0 ==> committed_order(h).contains(((0u64, 0u64), tid_of_pos(s, 0))),
        t > 0 ==> committed_order(h).contains((tid_of_pos(s, t - 1), tid_of_pos(s, t))),
{
    assert(tid_of_pos(s, t).0 == s + 1);
    assert(tid_of_pos(s, t).1 == t);
    if t > 0 {
        assert(tid_of_pos(s, t - 1).1 == t - 1);
        assert(chain_edge(h, tid_of_pos(s, t - 1), tid_of_pos(s, t)));
    } else {
        assert(chain_edge(h, (0u64, 0u64), tid_of_pos(s, 0)));
    }
}

/// Every read that observes another transaction puts that transaction
/// before its own in the committed order.
pub proof fn lemma_writer_precedes_reader<V: Label>(h: Seq<Vec<Transaction<V, u64>>>, s: int, t: int, e: int)
    requires
        external_read(h, s, t, e),
    ensures
        committed_order(h).contains((read_writer(h, s, t, e), tid_of_pos(s, t))),
{
    assert(read_edge(h, s, t, e, read_writer(h, s, t, e), tid_of_pos(s, t)));
}

/// When a transaction reads a variable from one transaction and then, with
/// no read of the variable from another transaction in between, from a
/// different one, the first writer precedes the second in the committed
/// order.
pub proof fn lemma_consecutive_reads_order_writers<V: Label>(h: Seq<Vec<Transaction<V, u64>>>, s: int, t: int, p: int, e: int)
    requires
        0 <= p < e,
        external_read(h, s, t, p),
        external_read(h, s, t, e),
        var_at(h, s, t, p) == var_at(h, s, t, e),
        forall|m: int| p < m < e ==> !(#[trigger] external_read(h, s, t, m) && var_at(h, s, t, m) == var_at(h, s, t, e)),
        read_writer(h, s, t, p) != read_writer(h, s, t, e),
    ensures
        committed_order(h).contains((read_writer(h, s, t, p), read_writer(h, s, t, e))),
{
    lemma_last_external_is(h, s, t, p, e, var_at(h, s, t, e));
    assert(read_edge(h, s, t, e, read_writer(h, s, t, p), read_writer(h, s, t, e)));
}

/// The transaction that the read at `(s, t, e)` observes.
pub(crate) fn read_writer_tid<V: Label>(h: &[Session<V, u64>], ws: &Vec<(usize, usize, usize)>, s: usize, t: usize, e: usize) -> (r: TransactionId)
    requires
        valid_history(h@),
        is_write_list(h@, ws@),
        in_history(h@, s as int, t as int, e as int),
        event_at(h@, s as int, t as int, e as int) is Read,
    ensures
        r@ == read_writer(h@, s as int, t as int, e as int),
{
    let ev = &h[s][t].events[e];
    match ev {
        Event::Read { variable, version } => {
            assert(crate::history::raw::local_read_ok(h@, s as int, t as int, e as int));
            assert(crate::history::raw::external_read_ok(h@, s as int, t as int, e as int));
            match resolve(h, ws, variable, *version) {
                Some(Some(w)) => {
                    proof {
                        assert(h.len() == h@.len());
                        lemma_pos_fits(h@, w.0 as int, w.1 as int, w.2 as int);
                        lemma_writer_tid(h@, variable.label(), version.unwrap(), w.0 as int, w.1 as int, w.2 as int);
                    }
                    TransactionId { session_id: (w.0 + 1) as u64, session_height: w.1 as u64 }
                },
                _ => TransactionId::root(),
            }
        },
        Event::Write { .. } => TransactionId::root(),
    }
}

/// The last read of `x` before event `e` of transaction `(s, t)` that
/// observes another transaction.
fn last_external_read_in<V: Label>(h: &[Session<V, u64>], ws: &Vec<(usize, usize, usize)>, s: usize, t: usize, e: usize, x: &V) -> (r: Option<usize>)
    requires
        valid_history(h@),
        is_write_list(h@, ws@),
        in_history(h@, s as int, t as int, e as int),
        s < usize::MAX,
    ensures
        r matches Some(p) ==> last_external_read(h@, s as int, t as int, e as int, x.label()) == Some(p as int),
        r is None ==> last_external_read(h@, s as int, t as int, e as int, x.label()) is None,
{
    let me = TransactionId { session_id: (s + 1) as u64, session_height: t as u64 };
    let mut last: Option<usize> = None;
    let mut i: usize = 0;
    while i < e
        invariant
            0 <= i <= e,
            valid_history(h@),
            is_write_list(h@, ws@),
            in_history(h@, s as int, t as int, e as int),
            me@ == tid_of_pos(s as int, t as int),
            last matches Some(p) ==> last_external_read(h@, s as int, t as int, i as int, x.label()) == Some(p as int),
            last is None ==> last_external_read(h@, s as int, t as int, i as int, x.label()) is None,
        decreases e - i,
    {
        let ev = &h[s][t].events[i];
        assert(in_history(h@, s as int, t as int, i as int));
        match ev {
            Event::Read { variable, .. } => {
                if variable.same_label(x) {
                    let w = read_writer_tid(h, ws, s, t, i);
                    if !(w.session_id == me.session_id && w.session_height == me.session_height) {
                        last = Some(i);
                    }
                }
            },
            Event::Write { .. } => {},
        }
        i = i + 1;
    }
    last
}

/// Checks whether a history satisfies Read Committed.
///
/// On success, returns the committed order graph, which is acyclic.
///
/// # Errors
///
/// - [`Error::NonAtomic`] if the history is not valid;
/// - [`Error::Cycle`] with an edge on a cycle of the committed order.
#[verifier::loop_isolation(false)]
pub fn check_committed_read<V: Label>(histories: &[Session<V, u64>]) -> (r: Result<DiGraph, Error<V, u64>>)
    ensures
        r.is_ok() <==> valid_history(histories@) && acyclic_rel(committed_order(histories@)),
        r matches Ok(g) ==> edge_set(g.view()) == committed_order(histories@) && is_acyclic_spec(g.view()),
        r matches Err(Error::NonAtomic(e)) ==> !valid_history(histories@) && validity_error_holds(histories@, e),
        r matches Err(Error::Cycle { level, a, b }) ==> level == Consistency::CommittedRead && valid_history(histories@)
            && committed_order(histories@).contains((a@, b@)) && !acyclic_rel(committed_order(histories@)),
        !(r matches Err(Error::Invalid(_))),
{
    let ghost h = histories@;
    match is_valid_history(histories) {
        Err(e) => return Err(Error::NonAtomic(e)),
        Ok(()) => {},
    }
    proof { assert(histories.len() == h.len()); }
    let mut g = DiGraph::new();
    let root = TransactionId::root();
    let mut s: usize = 0;
    while s < histories.len()
        invariant
            0 <= s <= histories.len(),
            h.len() == histories.len(),
            forall|a: (u64, u64), b: (u64, u64)| #[trigger] edge_set(g.view()).contains((a, b)) <==>
                (a == (0u64, 0u64) && b.1 == 0 && 1 <= b.0 <= s && h[b.0 - 1]@.len() > 0)
                || (1 <= b.0 <= s && a.0 == b.0 && 1 <= b.1 < h[b.0 - 1]@.len() && a.1 == b.1 - 1),
        decreases histories.len() - s,
    {
        let first = TransactionId { session_id: (s + 1) as u64, session_height: 0 };
        let n = histories[s].len();
        if n > 0 {
            g.add_edge(root, first);
        }
        let mut t: usize = 1;
        while t < n
            invariant
                1 <= t,
                t <= n || t == 1,
                n == h[s as int]@.len(),
                0 <= s < histories.len(),
                h.len() == histories.len(),
                forall|a: (u64, u64), b: (u64, u64)| #[trigger] edge_set(g.view()).contains((a, b)) <==>
                    (a == (0u64, 0u64) && b.1 == 0 && 1 <= b.0 <= s + 1 && h[b.0 - 1]@.len() > 0)
                    || (1 <= b.0 <= s && a.0 == b.0 && 1 <= b.1 < h[b.0 - 1]@.len() && a.1 == b.1 - 1)
                    || (b.0 == s + 1 && a.0 == b.0 && 1 <= b.1 < t && a.1 == b.1 - 1),
            decreases n - t,
        {
            let prev = TransactionId { session_id: (s + 1) as u64, session_height: (t - 1) as u64 };
            let cur = TransactionId { session_id: (s + 1) as u64, session_height: t as u64 };
            g.add_edge(prev, cur);
            t = t + 1;
        }
        assert forall|a: (u64, u64), b: (u64, u64)| #[trigger] edge_set(g.view()).contains((a, b)) <==>
            (a == (0u64, 0u64) && b.1 == 0 && 1 <= b.0 <= s + 1 && h[b.0 - 1]@.len() > 0)
            || (1 <= b.0 <= s + 1 && a.0 == b.0 && 1 <= b.1 < h[b.0 - 1]@.len() && a.1 == b.1 - 1) by {
            if b.0 == s + 1 {
                assert(b.0 - 1 == s);
                assert(h[b.0 - 1]@.len() == n);
            }
        }
        s = s + 1;
    }
    assert forall|a: (u64, u64), b: (u64, u64)| #[trigger] edge_set(g.view()).contains((a, b)) <==> chain_edge(h, a, b) by {}
    let ps = positions(histories);
    let ws = match collect_writes(histories, &ps) {
        Err(e) => return Err(Error::NonAtomic(e)),
        Ok(ws) => ws,
    };
    let mut k: usize = 0;
    while k < ps.len()
        invariant
            0 <= k <= ps.len(),
            valid_history(h),
            is_write_list(h, ws@),
            forall|a: (u64, u64), b: (u64, u64)| #[trigger] edge_set(g.view()).contains((a, b)) <==>
                chain_edge(h, a, b) || exists|m: int| 0 <= m < k && #[trigger] read_edge(h, ps@[m].0 as int, ps@[m].1 as int, ps@[m].2 as int, a, b),
        decreases ps.len() - k,
    {
        let (s, t, e) = ps[k];
        assert(in_history(h, ps@[k as int].0 as int, ps@[k as int].1 as int, ps@[k as int].2 as int));
        proof { lemma_pos_fits(h, s as int, t as int, e as int); }
        let ghost g0 = edge_set(g.view());
        let ev = &histories[s][t].events[e];
        match ev {
            Event::Read { variable, .. } => {
                let w = read_writer_tid(histories, &ws, s, t, e);
                let me = TransactionId { session_id: (s + 1) as u64, session_height: t as u64 };
                if !(w.session_id == me.session_id && w.session_height == me.session_height) {
                    let prev = last_external_read_in(histories, &ws, s, t, e, variable);
                    proof {
                        lemma_last_external_read(h, s as int, t as int, e as int, variable.label());
                    }
                    match prev {
                        Some(p) => {
                            let pw = read_writer_tid(histories, &ws, s, t, p);
                            if !(pw.session_id == w.session_id && pw.session_height == w.session_height) {
                                g.add_edge(pw, w);
                            }
                        },
                        None => {},
                    }
                    g.add_edge(w, me);
                    proof {
                        assert forall|a: (u64, u64), b: (u64, u64)| #[trigger] edge_set(g.view()).contains((a, b)) <==>
                            chain_edge(h, a, b) || exists|m: int| 0 <= m < k + 1 && #[trigger] read_edge(h, ps@[m].0 as int, ps@[m].1 as int, ps@[m].2 as int, a, b) by {
                            let here = read_edge(h, s as int, t as int, e as int, a, b);
                            assert(here == read_edge(h, ps@[k as int].0 as int, ps@[k as int].1 as int, ps@[k as int].2 as int, a, b));
                            if exists|m: int| 0 <= m < k + 1 && #[trigger] read_edge(h, ps@[m].0 as int, ps@[m].1 as int, ps@[m].2 as int, a, b) {
                                let m = choose|m: int| 0 <= m < k + 1 && #[trigger] read_edge(h, ps@[m].0 as int, ps@[m].1 as int, ps@[m].2 as int, a, b);
                                if m < k {
                                    assert(g0.contains((a, b)));
                                }
                            }
                            if g0.contains((a, b)) && !chain_edge(h, a, b) {
                                let m = choose|m: int| 0 <= m < k && #[trigger] read_edge(h, ps@[m].0 as int, ps@[m].1 as int, ps@[m].2 as int, a, b);
                                assert(0 <= m < k + 1);
                            }
                        }
                    }
                } else {
                    proof {
                        assert forall|a: (u64, u64), b: (u64, u64)| #[trigger] edge_set(g.view()).contains((a, b)) <==>
                            chain_edge(h, a, b) || exists|m: int| 0 <= m < k + 1 && #[trigger] read_edge(h, ps@[m].0 as int, ps@[m].1 as int, ps@[m].2 as int, a, b) by {
                            assert(!read_edge(h, ps@[k as int].0 as int, ps@[k as int].1 as int, ps@[k as int].2 as int, a, b));
                            if exists|m: int| 0 <= m < k + 1 && #[trigger] read_edge(h, ps@[m].0 as int, ps@[m].1 as int, ps@[m].2 as int, a, b) {
                                let m = choose|m: int| 0 <= m < k + 1 && #[trigger] read_edge(h, ps@[m].0 as int, ps@[m].1 as int, ps@[m].2 as int, a, b);
                                assert(m < k);
                            }
                            if g0.contains((a, b)) && !chain_edge(h, a, b) {
                                let m = choose|m: int| 0 <= m < k && #[trigger] read_edge(h, ps@[m].0 as int, ps@[m].1 as int, ps@[m].2 as int, a, b);
                                assert(0 <= m < k + 1);
                            }
                        }
                    }
                }
            },
            Event::Write { .. } => {
                proof {
                    assert forall|a: (u64, u64), b: (u64, u64)| #[trigger] edge_set(g.view()).contains((a, b)) <==>
                        chain_edge(h, a, b) || exists|m: int| 0 <= m < k + 1 && #[trigger] read_edge(h, ps@[m].0 as int, ps@[m].1 as int, ps@[m].2 as int, a, b) by {
                        assert(!read_edge(h, ps@[k as int].0 as int, ps@[k as int].1 as int, ps@[k as int].2 as int, a, b));
                        if exists|m: int| 0 <= m < k + 1 && #[trigger] read_edge(h, ps@[m].0 as int, ps@[m].1 as int, ps@[m].2 as int, a, b) {
                            let m = choose|m: int| 0 <= m < k + 1 && #[trigger] read_edge(h, ps@[m].0 as int, ps@[m].1 as int, ps@[m].2 as int, a, b);
                            assert(m < k);
                        }
                        if g0.contains((a, b)) && !chain_edge(h, a, b) {
                            let m = choose|m: int| 0 <= m < k && #[trigger] read_edge(h, ps@[m].0 as int, ps@[m].1 as int, ps@[m].2 as int, a, b);
                            assert(0 <= m < k + 1);
                        }
                    }
                }
            },
        }
        k = k + 1;
    }
    proof {
        assert(edge_set(g.view()) =~= committed_order(h)) by {
            assert forall|p: ((u64, u64), (u64, u64))| edge_set(g.view()).contains(p) <==> #[trigger] committed_order(h).contains(p) by {
                let (a, b) = p;
                assert(edge_set(g.view()).contains((a, b)) == edge_set(g.view()).contains(p));
                if exists|m: int| 0 <= m < ps@.len() && #[trigger] read_edge(h, ps@[m].0 as int, ps@[m].1 as int, ps@[m].2 as int, a, b) {
                    let m = choose|m: int| 0 <= m < ps@.len() && #[trigger] read_edge(h, ps@[m].0 as int, ps@[m].1 as int, ps@[m].2 as int, a, b);
                    assert(read_edge(h, ps@[m].0 as int, ps@[m].1 as int, ps@[m].2 as int, a, b));
                }
                if exists|s1: int, t1: int, e1: int| #[trigger] read_edge(h, s1, t1, e1, a, b) {
                    let (s1, t1, e1) = choose|s1: int, t1: int, e1: int| #[trigger] read_edge(h, s1, t1, e1, a, b);
                    assert(in_history(h, s1, t1, e1));
                    let m = choose|m: int| 0 <= m < ps@.len() && ps@[m] == (s1 as usize, t1 as usize, e1 as usize);
                    lemma_pos_fits(h, s1, t1, e1);
                    assert(read_edge(h, ps@[m].0 as int, ps@[m].1 as int, ps@[m].2 as int, a, b));
                }
            }
        }
        lemma_acyclic_edge_set(g.view());
    }
    match g.find_cycle_edge() {
        None => Ok(g),
        Some((a, b)) => {
            proof {
                assert(edge_set(g.view()).contains((a@, b@)));
            }
            Err(Error::Cycle { level: Consistency::CommittedRead, a, b })
        },
    }
}

} // verus!
