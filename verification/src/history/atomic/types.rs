//! Identifiers and per-transaction information of atomic histories.
use vstd::prelude::*;

use crate::consistency::error::Error;
use crate::consistency::saturation::committed_read::{committed_order, external_read, read_writer, read_writer_tid, tid_of_pos, var_at};
use crate::consistency::saturation::repeatable_read::{check_repeatable_read, non_repeatable_holds, repeatable_reads};
use crate::graph::digraph::acyclic_rel;
use crate::history::raw::error::Error as NonAtomicError;
use crate::history::raw::types::{Event, Session, Transaction};
use crate::history::raw::{collect_writes, event_at, in_history, is_write_list, lemma_pos_fits, positions, valid_history, validity_error_holds};
use crate::label::Label;

verus! {

/// Identifies a transaction by its session (numbered from 1; 0 is the
/// synthetic root that wrote every initial value) and its position in it.
#[derive(Debug, Clone, Copy, PartialEq, Eq, Structural, PartialOrd, Ord, Hash)]
pub struct TransactionId {
    pub session_id: u64,
    pub session_height: u64,
}

impl View for TransactionId {
    type V = (u64, u64);

    open spec fn view(&self) -> (u64, u64) {
        (self.session_id, self.session_height)
    }
}

impl TransactionId {
    /// The synthetic root transaction `(0, 0)`.
    pub fn root() -> (r: Self)
        ensures
            r@ == (0u64, 0u64),
    {
        TransactionId { session_id: 0, session_height: 0 }
    }

    /// Builds the identifier from its plain pair.
    pub fn from_pair(p: (u64, u64)) -> (r: Self)
        ensures
            r@ == p,
    {
        TransactionId { session_id: p.0, session_height: p.1 }
    }

    /// The identifier as a plain pair.
    pub fn to_pair(&self) -> (r: (u64, u64))
        ensures
            r == self@,
    {
        (self.session_id, self.session_height)
    }
}

impl Default for TransactionId {
    fn default() -> (r: Self)
        ensures
            r@ == (0u64, 0u64),
    {
        TransactionId { session_id: 0, session_height: 0 }
    }
}

/// The abstract view of one transaction of an atomic history: the variables
/// it writes, and each variable it reads from another transaction, paired
/// with that transaction.
pub type TxnView = (Set<Seq<char>>, Set<(Seq<char>, (u64, u64))>);

/// The abstract view of an atomic history: per session, per transaction.
pub type AtomicView = Seq<Seq<TxnView>>;

/// The event at `(a.0 - 1, a.1, e)` writes the variable named `x`.
pub open spec fn write_to_at<V: Label>(h: Seq<Vec<Transaction<V, u64>>>, a: (u64, u64), e: int, x: Seq<char>) -> bool {
    in_history(h, a.0 - 1, a.1 as int, e) && event_at(h, a.0 - 1, a.1 as int, e) is Write && var_at(h, a.0 - 1, a.1 as int, e) == x
}

/// The event at `(b.0 - 1, b.1, e)` reads `x` from transaction `a`, another
/// transaction than `b`.
pub open spec fn reads_from_at<V: Label>(h: Seq<Vec<Transaction<V, u64>>>, b: (u64, u64), e: int, x: Seq<char>, a: (u64, u64)) -> bool {
    external_read(h, b.0 - 1, b.1 as int, e) && var_at(h, b.0 - 1, b.1 as int, e) == x && read_writer(h, b.0 - 1, b.1 as int, e) == a
}

/// Some element of `s` has the label `x`.
pub open spec fn labels_contain<V: Label>(s: Seq<V>, x: Seq<char>) -> bool {
    exists|i: int| 0 <= i < s.len() && #[trigger] s[i].label() == x
}

/// Some pair of `s` has the label `x` and the transaction `a`.
pub open spec fn pairs_contain<V: Label>(s: Seq<(V, TransactionId)>, x: Seq<char>, a: (u64, u64)) -> bool {
    exists|i: int| 0 <= i < s.len() && #[trigger] s[i].0.label() == x && s[i].1@ == a
}

/// One of the first `e` events of transaction `tid` writes `x`.
pub open spec fn writes_before<V: Label>(h: Seq<Vec<Transaction<V, u64>>>, tid: (u64, u64), e: int, x: Seq<char>) -> bool {
    exists|e1: int| 0 <= e1 < e && #[trigger] write_to_at(h, tid, e1, x)
}

/// One of the first `e` events of transaction `tid` reads `x` from `a`.
pub open spec fn reads_before<V: Label>(h: Seq<Vec<Transaction<V, u64>>>, tid: (u64, u64), e: int, x: Seq<char>, a: (u64, u64)) -> bool {
    exists|e1: int| 0 <= e1 < e && #[trigger] reads_from_at(h, tid, e1, x, a)
}

/// The atomic view of a raw history.
pub open spec fn atomic_view_of<V: Label>(h: Seq<Vec<Transaction<V, u64>>>) -> AtomicView {
    Seq::new(h.len(), |s: int| Seq::new(h[s]@.len(), |t: int| (
        Set::new(|x: Seq<char>| exists|e: int| #[trigger] write_to_at(h, tid_of_pos(s, t), e, x)),
        Set::new(|p: (Seq<char>, (u64, u64))| exists|e: int| #[trigger] reads_from_at(h, tid_of_pos(s, t), e, p.0, p.1)),
    )))
}

/// The history has a valid atomic abstraction: it is valid, satisfies Read
/// Committed and Repeatable Read.
pub open spec fn atomic_ok<V: Label>(h: Seq<Vec<Transaction<V, u64>>>) -> bool {
    valid_history(h) && acyclic_rel(committed_order(h)) && repeatable_reads(h)
}

/// Information about a transaction: each variable it reads from another
/// transaction, with that transaction, and the variables it writes.
#[derive(Debug)]
pub struct AtomicTransactionInfo<Variable> {
    pub reads: Vec<(Variable, TransactionId)>,
    pub writes: Vec<Variable>,
}

impl<Variable: Label> AtomicTransactionInfo<Variable> {
    /// The abstract view of the transaction.
    pub open spec fn view(&self) -> TxnView {
        (
            Set::new(|x: Seq<char>| exists|i: int| 0 <= i < self.writes@.len() && #[trigger] self.writes@[i].label() == x),
            Set::new(|p: (Seq<char>, (u64, u64))| exists|i: int| 0 <= i < self.reads@.len()
                && #[trigger] self.reads@[i].0.label() == p.0 && self.reads@[i].1@ == p.1),
        )
    }
}

/// An atomic history: the information of transaction `t` of session `s` is
/// at `[s][t]`, and its identifier is `(s + 1, t)`.
#[derive(Debug)]
pub struct AtomicTransactionHistory<Variable>(pub Vec<Vec<AtomicTransactionInfo<Variable>>>);

impl<Variable: Label> AtomicTransactionHistory<Variable> {
    /// The abstract view of the atomic history.
    pub open spec fn view(&self) -> AtomicView {
        Seq::new(self.0@.len(), |s: int| Seq::new(self.0@[s]@.len(), |t: int| self.0@[s]@[t].view()))
    }

    /// The atomic history of a raw history that is valid and satisfies
    /// Repeatable Read.
    ///
    /// # Errors
    ///
    /// The error of [`check_repeatable_read`].
    #[verifier::loop_isolation(false)]
    pub fn try_from(histories: &[Session<Variable, u64>]) -> (r: Result<Self, Error<Variable, u64>>)
        ensures
            r.is_ok() <==> atomic_ok(histories@),
            r matches Ok(ah) ==> ah.view() == atomic_view_of(histories@),
            r matches Err(Error::NonAtomic(e)) ==> (validity_error_holds(histories@, e) && !valid_history(histories@))
                || (valid_history(histories@) && acyclic_rel(committed_order(histories@)) && non_repeatable_holds(histories@, e)),
            r matches Err(Error::Cycle { level, a, b }) ==> level == crate::consistency::Consistency::CommittedRead && valid_history(histories@)
                && committed_order(histories@).contains((a@, b@)) && !acyclic_rel(committed_order(histories@)),
            !(r matches Err(Error::Invalid(_))),
    {
        let ghost h = histories@;
        match check_repeatable_read(histories) {
            Err(e) => return Err(e),
            Ok(()) => {},
        }
        proof { assert(histories.len() == h.len()); }
        let ps = positions(histories);
        let ws = match collect_writes(histories, &ps) {
            Err(e) => return Err(Error::NonAtomic(e)),
            Ok(ws) => ws,
        };
        let ghost av = atomic_view_of(h);
        let mut sessions: Vec<Vec<AtomicTransactionInfo<Variable>>> = Vec::new();
        let mut s: usize = 0;
        while s < histories.len()
            invariant
                0 <= s <= histories.len(),
                h.len() == histories.len(),
                valid_history(h),
                is_write_list(h, ws@),
                av == atomic_view_of(h),
                sessions@.len() == s,
                forall|i: int| 0 <= i < s ==> #[trigger] sessions@[i]@.len() == h[i]@.len(),
                forall|i: int, j: int| 0 <= i < s && 0 <= j < h[i]@.len() ==> #[trigger] sessions@[i]@[j].view() == av[i][j],
            decreases histories.len() - s,
        {
            let mut infos: Vec<AtomicTransactionInfo<Variable>> = Vec::new();
            let mut t: usize = 0;
            while t < histories[s].len()
                invariant
                    0 <= s < histories.len(),
                    0 <= t <= h[s as int]@.len(),
                    infos@.len() == t,
                    forall|j: int| 0 <= j < t ==> #[trigger] infos@[j].view() == av[s as int][j],
                decreases h[s as int]@.len() - t,
            {
                let me = TransactionId { session_id: (s + 1) as u64, session_height: t as u64 };
                let ghost tid = tid_of_pos(s as int, t as int);
                let mut reads: Vec<(Variable, TransactionId)> = Vec::new();
                let mut writes: Vec<Variable> = Vec::new();
                let n = histories[s][t].events.len();
                let mut e: usize = 0;
                while e < n
                    invariant
                        0 <= s < histories.len(),
                        0 <= t < h[s as int]@.len(),
                        n == h[s as int]@[t as int].events@.len(),
                        0 <= e <= n,
                        me@ == tid,
                        tid == tid_of_pos(s as int, t as int),
                        forall|x: Seq<char>| #![trigger labels_contain(writes@, x)] #![trigger writes_before(h, tid, e as int, x)]
                            labels_contain(writes@, x) <==> writes_before(h, tid, e as int, x),
                        forall|x: Seq<char>, a: (u64, u64)| #![trigger pairs_contain(reads@, x, a)] #![trigger reads_before(h, tid, e as int, x, a)]
                            pairs_contain(reads@, x, a) <==> reads_before(h, tid, e as int, x, a),
                    decreases n - e,
                {
                    assert(in_history(h, s as int, t as int, e as int));
                    assert(tid.0 - 1 == s && tid.1 == t);
                    let ghost w0 = writes@;
                    let ghost r0 = reads@;
                    match &histories[s][t].events[e] {
                        Event::Write { variable, .. } => {
                            writes.push(variable.copy_label());
                            proof {
                                assert forall|x: Seq<char>| #![trigger labels_contain(writes@, x)] #![trigger writes_before(h, tid, e + 1, x)]
                                    labels_contain(writes@, x) <==> writes_before(h, tid, e + 1, x) by {
                                    assert(labels_contain(w0, x) <==> writes_before(h, tid, e as int, x));
                                    if exists|i: int| 0 <= i < writes@.len() && #[trigger] writes@[i].label() == x {
                                        let i = choose|i: int| 0 <= i < writes@.len() && #[trigger] writes@[i].label() == x;
                                        if i < w0.len() {
                                            assert(w0[i].label() == x);
                                        } else {
                                            assert(write_to_at(h, tid, e as int, x));
                                        }
                                    }
                                    if exists|e1: int| 0 <= e1 < e + 1 && #[trigger] write_to_at(h, tid, e1, x) {
                                        let e1 = choose|e1: int| 0 <= e1 < e + 1 && #[trigger] write_to_at(h, tid, e1, x);
                                        if e1 < e {
                                            let i = choose|i: int| 0 <= i < w0.len() && #[trigger] w0[i].label() == x;
                                            assert(writes@[i] == w0[i]);
                                        } else {
                                            assert(writes@[w0.len() as int].label() == x);
                                        }
                                    }
                                }
                                assert forall|x: Seq<char>, a: (u64, u64)| !#[trigger] reads_from_at(h, tid, e as int, x, a) by {}
                                assert forall|x: Seq<char>, a: (u64, u64)| #![trigger pairs_contain(reads@, x, a)] #![trigger reads_before(h, tid, e + 1, x, a)]
                                    pairs_contain(reads@, x, a) <==> reads_before(h, tid, e + 1, x, a) by {
                                    assert(pairs_contain(r0, x, a) <==> reads_before(h, tid, e as int, x, a));
                                    if reads_before(h, tid, e + 1, x, a) {
                                        let e1 = choose|e1: int| 0 <= e1 < e + 1 && #[trigger] reads_from_at(h, tid, e1, x, a);
                                    }
                                }
                            }
                        },
                        Event::Read { variable, .. } => {
                            let w = read_writer_tid(histories, &ws, s, t, e);
                            if !(w.session_id == me.session_id && w.session_height == me.session_height) {
                                reads.push((variable.copy_label(), w));
                                proof {
                                    assert(reads_from_at(h, tid, e as int, variable.label(), w@));
                                    assert forall|x: Seq<char>, a: (u64, u64)| #![trigger pairs_contain(reads@, x, a)] #![trigger reads_before(h, tid, e + 1, x, a)]
                                        pairs_contain(reads@, x, a) <==> reads_before(h, tid, e + 1, x, a) by {
                                        assert(pairs_contain(r0, x, a) <==> reads_before(h, tid, e as int, x, a));
                                        if exists|i: int| 0 <= i < reads@.len() && #[trigger] reads@[i].0.label() == x && reads@[i].1@ == a {
                                            let i = choose|i: int| 0 <= i < reads@.len() && #[trigger] reads@[i].0.label() == x && reads@[i].1@ == a;
                                            if i < r0.len() {
                                                assert(r0[i].0.label() == x && r0[i].1@ == a);
                                            } else {
                                                assert(reads_from_at(h, tid, e as int, x, a));
                                            }
                                        }
                                        if exists|e1: int| 0 <= e1 < e + 1 && #[trigger] reads_from_at(h, tid, e1, x, a) {
                                            let e1 = choose|e1: int| 0 <= e1 < e + 1 && #[trigger] reads_from_at(h, tid, e1, x, a);
                                            if e1 < e {
                                                let i = choose|i: int| 0 <= i < r0.len() && #[trigger] r0[i].0.label() == x && r0[i].1@ == a;
                                                assert(reads@[i] == r0[i]);
                                            } else {
                                                assert(reads@[r0.len() as int].0.label() == x && reads@[r0.len() as int].1@ == a);
                                            }
                                        }
                                    }
                                }
                            } else {
                                proof {
                                    assert forall|x: Seq<char>, a: (u64, u64)| !#[trigger] reads_from_at(h, tid, e as int, x, a) by {}
                                    assert forall|x: Seq<char>, a: (u64, u64)| #![trigger pairs_contain(reads@, x, a)] #![trigger reads_before(h, tid, e + 1, x, a)]
                                        pairs_contain(reads@, x, a) <==> reads_before(h, tid, e + 1, x, a) by {
                                        assert(pairs_contain(r0, x, a) <==> reads_before(h, tid, e as int, x, a));
                                        if reads_before(h, tid, e + 1, x, a) {
                                            let e1 = choose|e1: int| 0 <= e1 < e + 1 && #[trigger] reads_from_at(h, tid, e1, x, a);
                                        }
                                    }
                                }
                            }
                            proof {
                                assert forall|x: Seq<char>| !#[trigger] write_to_at(h, tid, e as int, x) by {}
                                assert forall|x: Seq<char>| #![trigger labels_contain(writes@, x)] #![trigger writes_before(h, tid, e + 1, x)]
                                    labels_contain(writes@, x) <==> writes_before(h, tid, e + 1, x) by {
                                    assert(labels_contain(w0, x) <==> writes_before(h, tid, e as int, x));
                                    if writes_before(h, tid, e + 1, x) {
                                        let e1 = choose|e1: int| 0 <= e1 < e + 1 && #[trigger] write_to_at(h, tid, e1, x);
                                    }
                                }
                            }
                        },
                    }
                    e = e + 1;
                }
                let info = AtomicTransactionInfo { reads, writes };
                proof {
                    let avt = av[s as int][t as int];
                    assert(avt == (
                        Set::new(|x: Seq<char>| exists|e: int| #[trigger] write_to_at(h, tid_of_pos(s as int, t as int), e, x)),
                        Set::new(|p: (Seq<char>, (u64, u64))| exists|e: int| #[trigger] reads_from_at(h, tid_of_pos(s as int, t as int), e, p.0, p.1)),
                    ));
                    assert forall|x: Seq<char>| #[trigger] info.view().0.contains(x) <==> avt.0.contains(x) by {
                        assert(labels_contain(info.writes@, x) <==> writes_before(h, tid, n as int, x));
                        if exists|e1: int| #[trigger] write_to_at(h, tid, e1, x) {
                            let e1 = choose|e1: int| #[trigger] write_to_at(h, tid, e1, x);
                            assert(0 <= e1 < n);
                        }
                    }
                    assert forall|p: (Seq<char>, (u64, u64))| #[trigger] info.view().1.contains(p) <==> avt.1.contains(p) by {
                        assert(pairs_contain(info.reads@, p.0, p.1) <==> reads_before(h, tid, n as int, p.0, p.1));
                        if exists|e1: int| #[trigger] reads_from_at(h, tid, e1, p.0, p.1) {
                            let e1 = choose|e1: int| #[trigger] reads_from_at(h, tid, e1, p.0, p.1);
                            assert(0 <= e1 < n);
                        }
                    }
                    assert(info.view().0 =~= avt.0);
                    assert(info.view().1 =~= avt.1);
                }
                infos.push(info);
                t = t + 1;
            }
            sessions.push(infos);
            s = s + 1;
        }
        let ah = AtomicTransactionHistory(sessions);
        proof {
            assert(ah.view().len() == av.len());
            assert forall|i: int| 0 <= i < av.len() implies #[trigger] ah.view()[i] == av[i] by {
                assert(ah.view()[i] =~= av[i]);
            }
            assert(ah.view() =~= av);
        }
        Ok(ah)
    }
}

} // verus!
