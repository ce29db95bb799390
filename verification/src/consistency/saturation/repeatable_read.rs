//! Repeatable Read: within a transaction, every read of a variable observes
//! the same write, unless the transaction wrote the variable in between.
use vstd::prelude::*;

use crate::consistency::error::Error;
use crate::consistency::saturation::committed_read::{check_committed_read, committed_order, var_at, version_at, read_writer_tid};
use crate::consistency::Consistency;
use crate::graph::digraph::acyclic_rel;
use crate::history::raw::error::Error as NonAtomicError;
use crate::history::raw::types::{Event, EventId, Session, Transaction};
use crate::history::raw::{
    collect_writes, event_at, event_id, event_of_id, id_names, in_history, is_write_list, is_write_of, lemma_pos_fits,
    pos_id, positions, reads_initial, resolve, same_event, valid_history, validity_error_holds,
};
use crate::label::Label;

verus! {

/// The write that a read of `version` of `x` observes: the root `(0, 0, 0)`
/// for the initial value.
pub open spec fn writer_id<V: Label>(h: Seq<Vec<Transaction<V, u64>>>, x: Seq<char>, version: Option<u64>) -> (u64, u64, u64) {
    if reads_initial(h, x, version) {
        (0u64, 0u64, 0u64)
    } else {
        let (s, t, e) = choose|s: int, t: int, e: int| is_write_of(h, s, t, e, x, version.unwrap());
        pos_id(s, t, e)
    }
}

/// The write that the first `e` events of transaction `(s, t)` fix for `x`:
/// its latest write of `x`, else the write its first read of `x` observed.
pub open spec fn fixed_write<V: Label>(h: Seq<Vec<Transaction<V, u64>>>, s: int, t: int, e: int, x: Seq<char>) -> Option<(u64, u64, u64)>
    decreases e,
{
    if e <= 0 {
        None
    } else {
        let before = fixed_write(h, s, t, e - 1, x);
        if var_at(h, s, t, e - 1) != x {
            before
        } else {
            match event_at(h, s, t, e - 1) {
                Event::Write { .. } => Some(pos_id(s, t, e - 1)),
                Event::Read { version, .. } => if before is None {
                    Some(writer_id(h, x, version))
                } else {
                    before
                },
            }
        }
    }
}

/// A read at `(s, t, e)` observes the write its transaction fixed for the
/// variable, if it fixed one.
pub open spec fn repeatable_at<V: Label>(h: Seq<Vec<Transaction<V, u64>>>, s: int, t: int, e: int) -> bool {
    event_at(h, s, t, e) is Read ==> (fixed_write(h, s, t, e, var_at(h, s, t, e)) matches Some(w)
        ==> w == writer_id(h, var_at(h, s, t, e), version_at(h, s, t, e)))
}

/// Every read observes the write its transaction fixed for the variable.
pub open spec fn repeatable_reads<V: Label>(h: Seq<Vec<Transaction<V, u64>>>) -> bool {
    forall|s: int, t: int, e: int| #[trigger] in_history(h, s, t, e) ==> repeatable_at(h, s, t, e)
}

/// What a [`NonAtomicError::NonRepeatableRead`] reports is true of the
/// history: the read at `read_event_id` observes the second write, while its
/// transaction fixed the first.
pub open spec fn non_repeatable_holds<V: Label>(h: Seq<Vec<Transaction<V, u64>>>, e: NonAtomicError<V, u64>) -> bool {
    match e {
        NonAtomicError::NonRepeatableRead { read_event, read_event_id, write_event_ids } => {
            let (s, t, i) = (read_event_id@.0 - 1, read_event_id@.1 as int, read_event_id@.2 as int);
            &&& id_names(h, read_event_id@)
            &&& same_event(read_event, event_of_id(h, read_event_id@))
            &&& !repeatable_at(h, s, t, i)
            &&& fixed_write(h, s, t, i, var_at(h, s, t, i)) == Some(write_event_ids[0]@)
            &&& write_event_ids[1]@ == writer_id(h, var_at(h, s, t, i), version_at(h, s, t, i))
        },
        _ => false,
    }
}

/// With unique versions, the write a read observes is the one of its version.
pub proof fn lemma_writer_id<V: Label>(h: Seq<Vec<Transaction<V, u64>>>, x: Seq<char>, v: u64, s: int, t: int, e: int)
    requires
        valid_history(h),
        is_write_of(h, s, t, e, x, v),
    ensures
        writer_id(h, x, Some(v)) == pos_id(s, t, e),
{
    assert(!reads_initial(h, x, Some(v)));
    let (s2, t2, e2) = choose|s2: int, t2: int, e2: int| is_write_of(h, s2, t2, e2, x, v);
    assert(is_write_of(h, s2, t2, e2, x, v));
}

/// The event at `(s, t, j)` writes the variable named `x`.
pub open spec fn writes_var<V: Label>(h: Seq<Vec<Transaction<V, u64>>>, s: int, t: int, j: int, x: Seq<char>) -> bool {
    in_history(h, s, t, j) && event_at(h, s, t, j) is Write && var_at(h, s, t, j) == x
}

/// The event at `(s, t, j)` reads the variable named `x`.
pub open spec fn reads_var<V: Label>(h: Seq<Vec<Transaction<V, u64>>>, s: int, t: int, j: int, x: Seq<char>) -> bool {
    in_history(h, s, t, j) && event_at(h, s, t, j) is Read && var_at(h, s, t, j) == x
}

/// The read at `(s, t, e)` observes its transaction's latest earlier write
/// of its variable, if there is one; otherwise the same write as its
/// transaction's first read of the variable.
pub open spec fn read_repeats<V: Label>(h: Seq<Vec<Transaction<V, u64>>>, s: int, t: int, e: int) -> bool {
    let x = var_at(h, s, t, e);
    let w = writer_id(h, x, version_at(h, s, t, e));
    &&& forall|j: int| #![trigger writes_var(h, s, t, j, x)]
        0 <= j < e && writes_var(h, s, t, j, x) && (forall|m: int| j < m < e ==> !#[trigger] writes_var(h, s, t, m, x))
            ==> w == pos_id(s, t, j)
    &&& forall|j: int| #![trigger reads_var(h, s, t, j, x)]
        0 <= j < e && reads_var(h, s, t, j, x) && (forall|m: int| 0 <= m < e ==> !#[trigger] writes_var(h, s, t, m, x))
            && (forall|m: int| 0 <= m < j ==> !#[trigger] reads_var(h, s, t, m, x))
            ==> w == writer_id(h, x, version_at(h, s, t, j))
}

/// Every read of the history repeats in the sense of [`read_repeats`].
pub open spec fn reads_repeat<V: Label>(h: Seq<Vec<Transaction<V, u64>>>) -> bool {
    forall|s: int, t: int, e: int| #[trigger] in_history(h, s, t, e) && event_at(h, s, t, e) is Read ==> read_repeats(h, s, t, e)
}

proof fn lemma_fixed_none<V: Label>(h: Seq<Vec<Transaction<V, u64>>>, s: int, t: int, e: int, x: Seq<char>)
    requires
        0 <= s < h.len(),
        0 <= t < h[s]@.len(),
        e <= h[s]@[t].events@.len(),
        forall|m: int| 0 <= m < e ==> !#[trigger] writes_var(h, s, t, m, x) && !reads_var(h, s, t, m, x),
    ensures
        fixed_write(h, s, t, e, x) is None,
    decreases e,
{
    if e > 0 {
        assert(!writes_var(h, s, t, e - 1, x) && !reads_var(h, s, t, e - 1, x));
        lemma_fixed_none(h, s, t, e - 1, x);
    }
}

proof fn lemma_fixed_by_last_write<V: Label>(h: Seq<Vec<Transaction<V, u64>>>, s: int, t: int, e: int, j: int, x: Seq<char>)
    requires
        0 <= j < e <= h[s]@[t].events@.len(),
        writes_var(h, s, t, j, x),
        forall|m: int| j < m < e ==> !#[trigger] writes_var(h, s, t, m, x),
    ensures
        fixed_write(h, s, t, e, x) == Some(pos_id(s, t, j)),
    decreases e,
{
    if e - 1 > j {
        assert(!writes_var(h, s, t, e - 1, x));
        lemma_fixed_by_last_write(h, s, t, e - 1, j, x);
    }
}

proof fn lemma_fixed_by_first_read<V: Label>(h: Seq<Vec<Transaction<V, u64>>>, s: int, t: int, e: int, j: int, x: Seq<char>)
    requires
        0 <= j < e <= h[s]@[t].events@.len(),
        reads_var(h, s, t, j, x),
        forall|m: int| 0 <= m < e ==> !#[trigger] writes_var(h, s, t, m, x),
        forall|m: int| 0 <= m < j ==> !#[trigger] reads_var(h, s, t, m, x),
    ensures
        fixed_write(h, s, t, e, x) == Some(writer_id(h, x, version_at(h, s, t, j))),
    decreases e,
{
    if e - 1 > j {
        assert(!writes_var(h, s, t, e - 1, x));
        lemma_fixed_by_first_read(h, s, t, e - 1, j, x);
    } else {
        assert forall|m: int| 0 <= m < j implies !#[trigger] writes_var(h, s, t, m, x) && !reads_var(h, s, t, m, x) by {
            assert(!writes_var(h, s, t, m, x));
        }
        lemma_fixed_none(h, s, t, j, x);
    }
}

proof fn lemma_last_write<V: Label>(h: Seq<Vec<Transaction<V, u64>>>, s: int, t: int, e: int, x: Seq<char>) -> (r: Option<int>)
    ensures
        r is None ==> forall|m: int| 0 <= m < e ==> !#[trigger] writes_var(h, s, t, m, x),
        r matches Some(j) ==> 0 <= j < e && writes_var(h, s, t, j, x) && forall|m: int| j < m < e ==> !#[trigger] writes_var(h, s, t, m, x),
    decreases e,
{
    if e <= 0 {
        None
    } else if writes_var(h, s, t, e - 1, x) {
        Some(e - 1)
    } else {
        lemma_last_write(h, s, t, e - 1, x)
    }
}

proof fn lemma_first_read<V: Label>(h: Seq<Vec<Transaction<V, u64>>>, s: int, t: int, e: int, x: Seq<char>) -> (r: Option<int>)
    ensures
        r is None ==> forall|m: int| 0 <= m < e ==> !#[trigger] reads_var(h, s, t, m, x),
        r matches Some(j) ==> 0 <= j < e && reads_var(h, s, t, j, x) && forall|m: int| 0 <= m < j ==> !#[trigger] reads_var(h, s, t, m, x),
    decreases e,
{
    if e <= 0 {
        None
    } else {
        match lemma_first_read(h, s, t, e - 1, x) {
            Some(j) => Some(j),
            None => if reads_var(h, s, t, e - 1, x) { Some(e - 1) } else { None },
        }
    }
}

/// Repeatable Read, stated without the fixed write: every read of a
/// variable observes its transaction's latest earlier write of the
/// variable, if there is one, and otherwise the same write as the
/// transaction's first read of the variable. (With the history valid and
/// its committed order acyclic, this is when `check_repeatable_read`
/// succeeds.)
pub proof fn lemma_repeatable_reads_iff<V: Label>(h: Seq<Vec<Transaction<V, u64>>>)
    ensures
        repeatable_reads(h) <==> reads_repeat(h),
{
    assert forall|s: int, t: int, e: int| #[trigger] in_history(h, s, t, e)
        implies (repeatable_at(h, s, t, e) <==> (event_at(h, s, t, e) is Read ==> read_repeats(h, s, t, e))) by {
        if event_at(h, s, t, e) is Read {
            let x = var_at(h, s, t, e);
            let w = writer_id(h, x, version_at(h, s, t, e));
            match lemma_last_write(h, s, t, e, x) {
                Some(j) => {
                    lemma_fixed_by_last_write(h, s, t, e, j, x);
                    assert forall|j2: int| 0 <= j2 < e && writes_var(h, s, t, j2, x)
                        && (forall|m: int| j2 < m < e ==> !#[trigger] writes_var(h, s, t, m, x)) implies j2 == j by {
                        if j2 < j {
                            assert(!writes_var(h, s, t, j, x));
                        } else if j < j2 {
                            assert(!writes_var(h, s, t, j2, x));
                        }
                    }
                    assert(!(forall|m: int| 0 <= m < e ==> !#[trigger] writes_var(h, s, t, m, x)));
                },
                None => {
                    match lemma_first_read(h, s, t, e, x) {
                        Some(j) => {
                            lemma_fixed_by_first_read(h, s, t, e, j, x);
                            assert forall|j2: int| 0 <= j2 < e && reads_var(h, s, t, j2, x)
                                && (forall|m: int| 0 <= m < j2 ==> !#[trigger] reads_var(h, s, t, m, x)) implies j2 == j by {
                                if j2 < j {
                                    assert(!reads_var(h, s, t, j2, x));
                                } else if j < j2 {
                                    assert(!reads_var(h, s, t, j, x));
                                }
                            }
                        },
                        None => {
                            lemma_fixed_none(h, s, t, e, x);
                        },
                    }
                },
            }
        }
    }
}

/// The write that the read at `(s, t, e)` observes.
fn read_writer_id<V: Label>(h: &[Session<V, u64>], ws: &Vec<(usize, usize, usize)>, s: usize, t: usize, e: usize) -> (r: EventId)
    requires
        valid_history(h@),
        is_write_list(h@, ws@),
        in_history(h@, s as int, t as int, e as int),
        event_at(h@, s as int, t as int, e as int) is Read,
    ensures
        r@ == writer_id(h@, var_at(h@, s as int, t as int, e as int), version_at(h@, s as int, t as int, e as int)),
{
    let ev = &h[s][t].events[e];
    match ev {
        Event::Read { variable, version } => {
            assert(crate::history::raw::local_read_ok(h@, s as int, t as int, e as int));
            assert(crate::history::raw::external_read_ok(h@, s as int, t as int, e as int));
            match resolve(h, ws, variable, *version) {
                Some(Some(w)) => {
                    proof {
                        assert(h.len() == h@.len());
                        lemma_pos_fits(h@, w.0 as int, w.1 as int, w.2 as int);
                        lemma_writer_id(h@, variable.label(), version.unwrap(), w.0 as int, w.1 as int, w.2 as int);
                    }
                    event_id(w.0, w.1, w.2)
                },
                _ => EventId { session_id: 0, session_height: 0, transaction_height: 0 },
            }
        },
        Event::Write { .. } => EventId { session_id: 0, session_height: 0, transaction_height: 0 },
    }
}

/// The write that the first `e` events of transaction `(s, t)` fix for `x`.
fn fixed_write_in<V: Label>(h: &[Session<V, u64>], ws: &Vec<(usize, usize, usize)>, s: usize, t: usize, e: usize, x: &V) -> (r: Option<EventId>)
    requires
        valid_history(h@),
        is_write_list(h@, ws@),
        in_history(h@, s as int, t as int, e as int),
    ensures
        r matches Some(w) ==> fixed_write(h@, s as int, t as int, e as int, x.label()) == Some(w@),
        r is None ==> fixed_write(h@, s as int, t as int, e as int, x.label()) is None,
{
    proof {
        assert(h.len() == h@.len());
        lemma_pos_fits(h@, s as int, t as int, e as int);
    }
    let mut fixed: Option<EventId> = None;
    let mut i: usize = 0;
    while i < e
        invariant
            0 <= i <= e,
            valid_history(h@),
            is_write_list(h@, ws@),
            in_history(h@, s as int, t as int, e as int),
            s < usize::MAX,
            fixed matches Some(w) ==> fixed_write(h@, s as int, t as int, i as int, x.label()) == Some(w@),
            fixed is None ==> fixed_write(h@, s as int, t as int, i as int, x.label()) is None,
        decreases e - i,
    {
        assert(in_history(h@, s as int, t as int, i as int));
        let ev = &h[s][t].events[i];
        match ev {
            Event::Write { variable, .. } => {
                if variable.same_label(x) {
                    fixed = Some(event_id(s, t, i));
                }
            },
            Event::Read { variable, .. } => {
                if variable.same_label(x) && fixed.is_none() {
                    fixed = Some(read_writer_id(h, ws, s, t, i));
                }
            },
        }
        i = i + 1;
    }
    fixed
}

/// Checks whether a history satisfies Repeatable Read: it is valid, satisfies
/// Read Committed, and every read observes the write its transaction fixed
/// for the variable.
///
/// # Errors
///
/// - [`Error::NonAtomic`] if the history is not valid, or with
///   [`NonAtomicError::NonRepeatableRead`] for the first read that observes
///   another write than the one fixed;
/// - [`Error::Cycle`] if it fails Read Committed.
#[verifier::loop_isolation(false)]
pub fn check_repeatable_read<V: Label>(histories: &[Session<V, u64>]) -> (r: Result<(), Error<V, u64>>)
    ensures
        r.is_ok() <==> valid_history(histories@) && acyclic_rel(committed_order(histories@)) && repeatable_reads(histories@),
        r.is_ok() <==> valid_history(histories@) && acyclic_rel(committed_order(histories@)) && reads_repeat(histories@),
        r matches Err(Error::NonAtomic(e)) ==> (validity_error_holds(histories@, e) && !valid_history(histories@))
            || (valid_history(histories@) && acyclic_rel(committed_order(histories@)) && non_repeatable_holds(histories@, e)),
        r matches Err(Error::Cycle { level, a, b }) ==> level == Consistency::CommittedRead && valid_history(histories@)
            && committed_order(histories@).contains((a@, b@)) && !acyclic_rel(committed_order(histories@)),
        !(r matches Err(Error::Invalid(_))),
{
    let ghost h = histories@;
    proof {
        lemma_repeatable_reads_iff(h);
    }
    match check_committed_read(histories) {
        Err(e) => return Err(e),
        Ok(_) => {},
    }
    proof { assert(histories.len() == h.len()); }
    let ps = positions(histories);
    let ws = match collect_writes(histories, &ps) {
        Err(e) => return Err(Error::NonAtomic(e)),
        Ok(ws) => ws,
    };
    let mut k: usize = 0;
    while k < ps.len()
        invariant
            0 <= k <= ps.len(),
            valid_history(h),
            is_write_list(h, ws@),
            forall|m: int| 0 <= m < k ==> repeatable_at(h, #[trigger] ps@[m].0 as int, ps@[m].1 as int, ps@[m].2 as int),
        decreases ps.len() - k,
    {
        let (s, t, e) = ps[k];
        assert(in_history(h, ps@[k as int].0 as int, ps@[k as int].1 as int, ps@[k as int].2 as int));
        proof { lemma_pos_fits(h, s as int, t as int, e as int); }
        let ev = &histories[s][t].events[e];
        match ev {
            Event::Read { variable, .. } => {
                let w = read_writer_id(histories, &ws, s, t, e);
                match fixed_write_in(histories, &ws, s, t, e, variable) {
                    Some(f) => {
                        if !(f.session_id == w.session_id && f.session_height == w.session_height
                            && f.transaction_height == w.transaction_height) {
                            let read_event = crate::history::raw::copy_event(ev);
                            return Err(Error::NonAtomic(NonAtomicError::NonRepeatableRead {
                                read_event,
                                read_event_id: event_id(s, t, e),
                                write_event_ids: [f, w],
                            }));
                        }
                    },
                    None => {},
                }
            },
            Event::Write { .. } => {},
        }
        k = k + 1;
    }
    proof {
        assert forall|s: int, t: int, e: int| #[trigger] in_history(h, s, t, e) implies repeatable_at(h, s, t, e) by {
            let m = choose|m: int| 0 <= m < ps@.len() && ps@[m] == (s as usize, t as usize, e as usize);
            lemma_pos_fits(h, s, t, e);
            assert(repeatable_at(h, ps@[m].0 as int, ps@[m].1 as int, ps@[m].2 as int));
        }
    }
    Ok(())
}

} // verus!
