//! Raw histories and the checks that make them valid.
//!
//! A valid history has a unique writer for every version of a variable, and
//! every read observes a write that is visible to it:
//! - a read of the initial value (`x==?`, or `x==0` where nothing writes
//!   `x:=0`) observes the synthetic root transaction;
//! - a read of a version written in its own transaction observes the latest
//!   write of the variable before it there;
//! - any other read observes the final write of the variable in a committed
//!   transaction.
pub mod display;
pub mod error;
pub mod lexer;
pub mod parser;
pub mod round_trip;
pub mod types;

use vstd::prelude::*;

use crate::history::raw::error::Error;
use crate::history::atomic::types::TransactionId;
use crate::history::raw::types::{Event, EventId, Session, Transaction};
use crate::label::Label;

verus! {

/// `(s, t, e)` is the position of an event: session `s`, transaction `t`,
/// event `e`, all counted from 0.
pub open spec fn in_history<V>(h: Seq<Vec<Transaction<V, u64>>>, s: int, t: int, e: int) -> bool {
    0 <= s < h.len() && 0 <= t < h[s]@.len() && 0 <= e < h[s]@[t].events@.len()
}

/// The event at a position.
pub open spec fn event_at<V>(h: Seq<Vec<Transaction<V, u64>>>, s: int, t: int, e: int) -> Event<V, u64> {
    h[s]@[t].events@[e]
}

/// The identifier of the event at a position; sessions are numbered from 1.
pub open spec fn pos_id(s: int, t: int, e: int) -> (u64, u64, u64) {
    ((s + 1) as u64, t as u64, e as u64)
}

/// The event at `(s, t, e)` writes version `v` of the variable named `x`.
pub open spec fn is_write_of<V: Label>(h: Seq<Vec<Transaction<V, u64>>>, s: int, t: int, e: int, x: Seq<char>, v: u64) -> bool {
    in_history(h, s, t, e) && match event_at(h, s, t, e) {
        Event::Write { variable, version } => variable.label() == x && version == v,
        Event::Read { .. } => false,
    }
}

/// The event at `(s, t, e)` is a write.
pub open spec fn is_write_at<V>(h: Seq<Vec<Transaction<V, u64>>>, s: int, t: int, e: int) -> bool {
    in_history(h, s, t, e) && event_at(h, s, t, e) is Write
}

/// Some event writes version `v` of `x`.
pub open spec fn written<V: Label>(h: Seq<Vec<Transaction<V, u64>>>, x: Seq<char>, v: u64) -> bool {
    exists|s: int, t: int, e: int| #[trigger] is_write_of(h, s, t, e, x, v)
}

/// No two events write the same version of the same variable.
pub open spec fn unique_versions<V: Label>(h: Seq<Vec<Transaction<V, u64>>>) -> bool {
    forall|s1: int, t1: int, e1: int, s2: int, t2: int, e2: int, x: Seq<char>, v: u64|
        #![trigger is_write_of(h, s1, t1, e1, x, v), is_write_of(h, s2, t2, e2, x, v)]
        is_write_of(h, s1, t1, e1, x, v) && is_write_of(h, s2, t2, e2, x, v) ==> s1 == s2 && t1 == t2 && e1 == e2
}

/// A read of `version` of `x` observes the initial value: it reads no
/// version, or version 0 where nothing writes it.
pub open spec fn reads_initial<V: Label>(h: Seq<Vec<Transaction<V, u64>>>, x: Seq<char>, version: Option<u64>) -> bool {
    version is None || (version == Some(0u64) && !written(h, x, 0))
}

/// A read of `version` of `x` has something to observe.
pub open spec fn resolvable<V: Label>(h: Seq<Vec<Transaction<V, u64>>>, x: Seq<char>, version: Option<u64>) -> bool {
    reads_initial(h, x, version) || written(h, x, version.unwrap())
}

/// The position and version of the last write of `x` among the first `e`
/// events of transaction `(s, t)`.
pub open spec fn last_local_write<V: Label>(h: Seq<Vec<Transaction<V, u64>>>, s: int, t: int, e: int, x: Seq<char>) -> Option<(int, u64)>
    decreases e,
{
    if e <= 0 {
        None
    } else {
        match event_at(h, s, t, e - 1) {
            Event::Write { variable, version } => if variable.label() == x {
                Some((e - 1, version))
            } else {
                last_local_write(h, s, t, e - 1, x)
            },
            Event::Read { .. } => last_local_write(h, s, t, e - 1, x),
        }
    }
}

/// The number of events of transaction `(s, t)`.
pub open spec fn txn_len<V>(h: Seq<Vec<Transaction<V, u64>>>, s: int, t: int) -> int {
    h[s]@[t].events@.len() as int
}

/// A read at `(s, t, e)` that names a version has something to observe, and
/// if that is a write of its own transaction, the transaction's latest write of
/// the variable before the read wrote that version.
pub open spec fn local_read_ok<V: Label>(h: Seq<Vec<Transaction<V, u64>>>, s: int, t: int, e: int) -> bool {
    match event_at(h, s, t, e) {
        Event::Read { variable, version } => match version {
            Some(v) => {
                &&& resolvable(h, variable.label(), version)
                &&& forall|e2: int| #[trigger] is_write_of(h, s, t, e2, variable.label(), v)
                    ==> (last_local_write(h, s, t, e, variable.label()) matches Some(w) && w.1 == v)
            },
            None => true,
        },
        Event::Write { .. } => true,
    }
}

/// The write at `(ws, wt, we)` of `x` is the final write of `x` in its
/// transaction, and that transaction committed.
pub open spec fn committed_final_write<V: Label>(h: Seq<Vec<Transaction<V, u64>>>, ws: int, wt: int, we: int, x: Seq<char>) -> bool {
    h[ws]@[wt].committed && (last_local_write(h, ws, wt, txn_len(h, ws, wt), x) matches Some(w) && w.0 == we)
}

/// A read at `(s, t, e)` observes the initial value, a write of its own
/// transaction (which the local rule governs), or a write of another
/// transaction that is the final write of the variable there, committed.
pub open spec fn external_read_ok<V: Label>(h: Seq<Vec<Transaction<V, u64>>>, s: int, t: int, e: int) -> bool {
    match event_at(h, s, t, e) {
        Event::Read { variable, version } => {
            ||| reads_initial(h, variable.label(), version)
            ||| (version is Some && exists|ws: int, wt: int, we: int|
                #[trigger] is_write_of(h, ws, wt, we, variable.label(), version.unwrap())
                    && ((ws == s && wt == t) || committed_final_write(h, ws, wt, we, variable.label())))
        },
        Event::Write { .. } => true,
    }
}

/// Every read that names a version is resolvable and consistent with its own
/// transaction's writes.
pub open spec fn local_reads_ok<V: Label>(h: Seq<Vec<Transaction<V, u64>>>) -> bool {
    forall|s: int, t: int, e: int| #[trigger] in_history(h, s, t, e) ==> local_read_ok(h, s, t, e)
}

/// Every read observes the initial value or a committed final write.
pub open spec fn external_reads_ok<V: Label>(h: Seq<Vec<Transaction<V, u64>>>) -> bool {
    forall|s: int, t: int, e: int| #[trigger] in_history(h, s, t, e) ==> external_read_ok(h, s, t, e)
}

/// A valid history: unique versions, and every read observes a visible write.
pub open spec fn valid_history<V: Label>(h: Seq<Vec<Transaction<V, u64>>>) -> bool {
    unique_versions(h) && local_reads_ok(h) && external_reads_ok(h)
}

/// Two events are the same operation on the same names.
pub open spec fn same_event<V: Label>(a: Event<V, u64>, b: Event<V, u64>) -> bool {
    match (a, b) {
        (Event::Read { variable: x1, version: v1 }, Event::Read { variable: x2, version: v2 }) => x1.label() == x2.label() && v1 == v2,
        (Event::Write { variable: x1, version: v1 }, Event::Write { variable: x2, version: v2 }) => x1.label() == x2.label() && v1 == v2,
        _ => false,
    }
}

/// The event at the position that `id` names, when `id` names one.
pub open spec fn id_names<V>(h: Seq<Vec<Transaction<V, u64>>>, id: (u64, u64, u64)) -> bool {
    id.0 >= 1 && in_history(h, id.0 - 1, id.1 as int, id.2 as int)
}

/// The event that `id` names.
pub open spec fn event_of_id<V>(h: Seq<Vec<Transaction<V, u64>>>, id: (u64, u64, u64)) -> Event<V, u64> {
    event_at(h, id.0 - 1, id.1 as int, id.2 as int)
}

/// The read at `id` observes the write at `w`: both name events, `w` writes
/// the variable and version that `id` reads.
pub open spec fn observes<V: Label>(h: Seq<Vec<Transaction<V, u64>>>, id: (u64, u64, u64), w: (u64, u64, u64)) -> bool {
    id_names(h, id) && id_names(h, w) && match event_of_id(h, id) {
        Event::Read { variable, version } => version is Some
            && is_write_of(h, w.0 - 1, w.1 as int, w.2 as int, variable.label(), version.unwrap()),
        Event::Write { .. } => false,
    }
}

/// What an error of [`is_valid_history`] reports is true of the history.
pub open spec fn validity_error_holds<V: Label>(h: Seq<Vec<Transaction<V, u64>>>, err: Error<V, u64>) -> bool {
    match err {
        Error::SameVersionWrite { event, ids } => {
            &&& !unique_versions(h)
            &&& id_names(h, ids[0]@) && id_names(h, ids[1]@) && ids[0]@ != ids[1]@
            &&& same_event(event, event_of_id(h, ids[0]@))
            &&& event is Write && same_event(event_of_id(h, ids[1]@), event)
        },
        Error::IncompleteHistory { event, id } => {
            &&& id_names(h, id@) && same_event(event, event_of_id(h, id@))
            &&& event matches Event::Read { variable, version } && !resolvable(h, variable.label(), version)
        },
        Error::InconsistentLocalRead { read_event_id, write_event_id, read_event } => {
            &&& observes(h, read_event_id@, write_event_id@)
            &&& same_event(read_event, event_of_id(h, read_event_id@))
            &&& read_event_id@.0 == write_event_id@.0 && read_event_id@.1 == write_event_id@.1
            &&& !local_read_ok(h, read_event_id@.0 - 1, read_event_id@.1 as int, read_event_id@.2 as int)
        },
        Error::OverwrittenRead { read_event, read_event_id, overwritten_write_event_id, committed_write_event, committed_write_event_id } => {
            &&& observes(h, read_event_id@, overwritten_write_event_id@)
            &&& (read_event_id@.0 != overwritten_write_event_id@.0 || read_event_id@.1 != overwritten_write_event_id@.1)
            &&& same_event(read_event, event_of_id(h, read_event_id@))
            &&& id_names(h, committed_write_event_id@)
            &&& same_event(committed_write_event, event_of_id(h, committed_write_event_id@))
            &&& committed_write_event_id@.0 == overwritten_write_event_id@.0
            &&& committed_write_event_id@.1 == overwritten_write_event_id@.1
            &&& committed_write_event_id@.2 != overwritten_write_event_id@.2
            &&& committed_write_event is Write && read_event.var_of().label() == committed_write_event.var_of().label()
            &&& h[committed_write_event_id@.0 - 1]@[committed_write_event_id@.1 as int].committed
        },
        Error::UncommittedWrite { read_event, read_event_id, write_event_id } => {
            &&& observes(h, read_event_id@, write_event_id@)
            &&& (read_event_id@.0 != write_event_id@.0 || read_event_id@.1 != write_event_id@.1)
            &&& same_event(read_event, event_of_id(h, read_event_id@))
            &&& !h[write_event_id@.0 - 1]@[write_event_id@.1 as int].committed
        },
        _ => false,
    }
}

/// A copy of an event with the same names.
pub fn copy_event<V: Label>(e: &Event<V, u64>) -> (r: Event<V, u64>)
    ensures
        same_event(r, *e),
{
    match e {
        Event::Read { variable, version } => Event::Read { variable: variable.copy_label(), version: *version },
        Event::Write { variable, version } => Event::Write { variable: variable.copy_label(), version: *version },
    }
}

/// A copy of a session: each transaction with the same commit status and
/// the same events.
pub fn copy_session<V: Label>(s: &Session<V, u64>) -> (r: Session<V, u64>)
    ensures
        r@.len() == s@.len(),
        forall|t: int| 0 <= t < s@.len() ==> (#[trigger] r@[t]).committed == s@[t].committed
            && r@[t].events@.len() == s@[t].events@.len()
            && forall|e: int| 0 <= e < s@[t].events@.len() ==> same_event(#[trigger] r@[t].events@[e], s@[t].events@[e]),
{
    let mut r: Session<V, u64> = Vec::new();
    let mut t: usize = 0;
    while t < s.len()
        invariant
            0 <= t <= s@.len(),
            r@.len() == t,
            forall|u: int| 0 <= u < t ==> (#[trigger] r@[u]).committed == s@[u].committed
                && r@[u].events@.len() == s@[u].events@.len()
                && forall|e: int| 0 <= e < s@[u].events@.len() ==> same_event(#[trigger] r@[u].events@[e], s@[u].events@[e]),
        decreases s@.len() - t,
    {
        let mut events: Vec<Event<V, u64>> = Vec::new();
        let mut e: usize = 0;
        while e < s[t].events.len()
            invariant
                0 <= t < s@.len(),
                0 <= e <= s@[t as int].events@.len(),
                events@.len() == e,
                forall|k: int| 0 <= k < e ==> same_event(#[trigger] events@[k], s@[t as int].events@[k]),
            decreases s@[t as int].events@.len() - e,
        {
            events.push(copy_event(&s[t].events[e]));
            e = e + 1;
        }
        r.push(Transaction { events, committed: s[t].committed });
        t = t + 1;
    }
    r
}

/// The identifier of the event at a position.
pub(crate) fn event_id(s: usize, t: usize, e: usize) -> (r: EventId)
    requires
        s < usize::MAX,
    ensures
        r@ == pos_id(s as int, t as int, e as int),
{
    EventId { session_id: (s + 1) as u64, session_height: t as u64, transaction_height: e as u64 }
}

/// `a` comes before `b` in the order of sessions, transactions, events.
pub open spec fn pos_lt(a: (usize, usize, usize), b: (usize, usize, usize)) -> bool {
    a.0 < b.0 || (a.0 == b.0 && (a.1 < b.1 || (a.1 == b.1 && a.2 < b.2)))
}

/// Event identifier `a` comes before `b`: by session, then transaction,
/// then event.
pub open spec fn id_lt(a: (u64, u64, u64), b: (u64, u64, u64)) -> bool {
    a.0 < b.0 || (a.0 == b.0 && (a.1 < b.1 || (a.1 == b.1 && a.2 < b.2)))
}

/// Every position of the history once, sessions first, then transactions,
/// then events.
pub fn positions<V>(h: &[Session<V, u64>]) -> (r: Vec<(usize, usize, usize)>)
    ensures
        r@.no_duplicates(),
        forall|k: int| 0 <= k < r@.len() ==> in_history(h@, #[trigger] r@[k].0 as int, r@[k].1 as int, r@[k].2 as int),
        forall|s: int, t: int, e: int| #[trigger] in_history(h@, s, t, e)
            ==> exists|k: int| 0 <= k < r@.len() && r@[k] == (s as usize, t as usize, e as usize),
        forall|i: int, j: int| 0 <= i < j < r@.len() ==> pos_lt(#[trigger] r@[i], #[trigger] r@[j]),
{
    let mut r: Vec<(usize, usize, usize)> = Vec::new();
    let mut s: usize = 0;
    while s < h.len()
        invariant
            0 <= s <= h.len(),
            r@.no_duplicates(),
            forall|a: int, b: int| 0 <= a < b < r@.len() ==> pos_lt(#[trigger] r@[a], #[trigger] r@[b]),
            forall|k: int| 0 <= k < r@.len() ==> pos_lt(#[trigger] r@[k], (s, 0usize, 0usize)),
            forall|k: int| 0 <= k < r@.len() ==> in_history(h@, #[trigger] r@[k].0 as int, r@[k].1 as int, r@[k].2 as int),
            forall|s1: int, t: int, e: int| #[trigger] in_history(h@, s1, t, e) && s1 < s
                ==> exists|k: int| 0 <= k < r@.len() && r@[k] == (s1 as usize, t as usize, e as usize),
        decreases h.len() - s,
    {
        let mut t: usize = 0;
        while t < h[s].len()
            invariant
                0 <= s < h.len(),
                r@.no_duplicates(),
                forall|a: int, b: int| 0 <= a < b < r@.len() ==> pos_lt(#[trigger] r@[a], #[trigger] r@[b]),
            forall|a: int, b: int| 0 <= a < b < r@.len() ==> pos_lt(#[trigger] r@[a], #[trigger] r@[b]),
                forall|k: int| 0 <= k < r@.len() ==> pos_lt(#[trigger] r@[k], (s, t, 0usize)),
                0 <= t <= h[s as int]@.len(),
                forall|k: int| 0 <= k < r@.len() ==> in_history(h@, #[trigger] r@[k].0 as int, r@[k].1 as int, r@[k].2 as int),
                forall|s1: int, t1: int, e: int| #[trigger] in_history(h@, s1, t1, e) && (s1 < s || (s1 == s && t1 < t))
                    ==> exists|k: int| 0 <= k < r@.len() && r@[k] == (s1 as usize, t1 as usize, e as usize),
            decreases h[s as int]@.len() - t,
        {
            let mut e: usize = 0;
            while e < h[s][t].events.len()
                invariant
                    0 <= s < h.len(),
                    r@.no_duplicates(),
                    forall|a: int, b: int| 0 <= a < b < r@.len() ==> pos_lt(#[trigger] r@[a], #[trigger] r@[b]),
                forall|a: int, b: int| 0 <= a < b < r@.len() ==> pos_lt(#[trigger] r@[a], #[trigger] r@[b]),
            forall|a: int, b: int| 0 <= a < b < r@.len() ==> pos_lt(#[trigger] r@[a], #[trigger] r@[b]),
                    forall|k: int| 0 <= k < r@.len() ==> pos_lt(#[trigger] r@[k], (s, t, e)),
                    0 <= t < h[s as int]@.len(),
                    0 <= e <= h[s as int]@[t as int].events@.len(),
                    forall|k: int| 0 <= k < r@.len() ==> in_history(h@, #[trigger] r@[k].0 as int, r@[k].1 as int, r@[k].2 as int),
                    forall|s1: int, t1: int, e1: int| #[trigger] in_history(h@, s1, t1, e1) && (s1 < s || (s1 == s && t1 < t) || (s1 == s && t1 == t && e1 < e))
                        ==> exists|k: int| 0 <= k < r@.len() && r@[k] == (s1 as usize, t1 as usize, e1 as usize),
                decreases h[s as int]@[t as int].events@.len() - e,
            {
                let ghost r0 = r@;
                r.push((s, t, e));
                proof {
                    assert forall|a: int, b: int| 0 <= a < b < r@.len() implies pos_lt(#[trigger] r@[a], #[trigger] r@[b]) by {
                        if b < r0.len() {
                            assert(r@[a] == r0[a] && r@[b] == r0[b]);
                        } else {
                            assert(r@[a] == r0[a]);
                            assert(pos_lt(r0[a], (s, t, e)));
                        }
                    }
                    assert forall|k: int| 0 <= k < r@.len() implies pos_lt(#[trigger] r@[k], (s, t, (e + 1) as usize)) by {
                        if k < r0.len() {
                            assert(r@[k] == r0[k]);
                            assert(pos_lt(r0[k], (s, t, e)));
                        }
                    }
                    assert forall|i: int, j: int| 0 <= i < r@.len() && 0 <= j < r@.len() && i != j implies r@[i] != r@[j] by {
                        if i < r0.len() && j < r0.len() {
                            assert(r@[i] == r0[i] && r@[j] == r0[j]);
                        } else if i < r0.len() {
                            assert(pos_lt(r0[i], (s, t, e)));
                        } else {
                            assert(pos_lt(r0[j], (s, t, e)));
                        }
                    }
                    assert forall|s1: int, t1: int, e1: int| #[trigger] in_history(h@, s1, t1, e1)
                        && (s1 < s || (s1 == s && t1 < t) || (s1 == s && t1 == t && e1 < e + 1))
                        implies exists|k: int| 0 <= k < r@.len() && r@[k] == (s1 as usize, t1 as usize, e1 as usize) by {
                        if s1 == s && t1 == t && e1 == e {
                            assert(r@[r0.len() as int] == (s1 as usize, t1 as usize, e1 as usize));
                        } else {
                            let k = choose|k: int| 0 <= k < r0.len() && r0[k] == (s1 as usize, t1 as usize, e1 as usize);
                            assert(r@[k] == r0[k]);
                        }
                    }
                }
                e = e + 1;
            }
            t = t + 1;
        }
        s = s + 1;
    }
    r
}


/// The indices of a position fit in `usize`.
pub proof fn lemma_pos_fits<V>(h: Seq<Vec<Transaction<V, u64>>>, s: int, t: int, e: int)
    requires
        in_history(h, s, t, e),
        h.len() <= usize::MAX,
    ensures
        s < usize::MAX,
        t < usize::MAX,
        e < usize::MAX,
{
    assert(h[s].len() == h[s]@.len());
    assert(h[s]@[t].events.len() == h[s]@[t].events@.len());
}

/// `ps` lists every position of the history once.
pub open spec fn is_position_list<V>(h: Seq<Vec<Transaction<V, u64>>>, ps: Seq<(usize, usize, usize)>) -> bool {
    &&& ps.no_duplicates()
    &&& forall|k: int| 0 <= k < ps.len() ==> in_history(h, #[trigger] ps[k].0 as int, ps[k].1 as int, ps[k].2 as int)
    &&& forall|s: int, t: int, e: int| #[trigger] in_history(h, s, t, e)
        ==> exists|k: int| 0 <= k < ps.len() && ps[k] == (s as usize, t as usize, e as usize)
}

/// `ws` lists the position of every write of the history, and nothing else.
pub open spec fn is_write_list<V>(h: Seq<Vec<Transaction<V, u64>>>, ws: Seq<(usize, usize, usize)>) -> bool {
    &&& forall|j: int| 0 <= j < ws.len() ==> is_write_at(h, #[trigger] ws[j].0 as int, ws[j].1 as int, ws[j].2 as int)
    &&& forall|s: int, t: int, e: int| #[trigger] is_write_at(h, s, t, e)
        ==> exists|j: int| 0 <= j < ws.len() && ws[j] == (s as usize, t as usize, e as usize)
}

/// The positions of all writes, or the first write (in the order of `ps`)
/// that repeats the version of an earlier one.
#[verifier::loop_isolation(false)]
pub(crate) fn collect_writes<V: Label>(h: &[Session<V, u64>], ps: &Vec<(usize, usize, usize)>) -> (r: Result<Vec<(usize, usize, usize)>, Error<V, u64>>)
    requires
        is_position_list(h@, ps@),
        forall|i: int, j: int| 0 <= i < j < ps@.len() ==> pos_lt(#[trigger] ps@[i], #[trigger] ps@[j]),
    ensures
        r.is_ok() <==> unique_versions(h@),
        r matches Ok(ws) ==> is_write_list(h@, ws@),
        r matches Err(err) ==> validity_error_holds(h@, err) && err is SameVersionWrite,
        r matches Err(Error::SameVersionWrite { ids, .. }) ==> id_lt(ids[1]@, ids[0]@),
{
    let mut ws: Vec<(usize, usize, usize)> = Vec::new();
    let mut k: usize = 0;
    while k < ps.len()
        invariant
            0 <= k <= ps.len(),
            is_position_list(h@, ps@),
            forall|j: int| 0 <= j < ws@.len() ==> is_write_at(h@, #[trigger] ws@[j].0 as int, ws@[j].1 as int, ws@[j].2 as int),
            forall|j: int| 0 <= j < ws@.len() ==> exists|m: int| 0 <= m < k && ps@[m] == #[trigger] ws@[j],
            forall|m: int| 0 <= m < k && is_write_at(h@, #[trigger] ps@[m].0 as int, ps@[m].1 as int, ps@[m].2 as int)
                ==> exists|j: int| 0 <= j < ws@.len() && ws@[j] == ps@[m],
            forall|j1: int, j2: int, x: Seq<char>, v: u64|
                #![trigger is_write_of(h@, ws@[j1].0 as int, ws@[j1].1 as int, ws@[j1].2 as int, x, v), is_write_of(h@, ws@[j2].0 as int, ws@[j2].1 as int, ws@[j2].2 as int, x, v)]
                0 <= j1 < ws@.len() && 0 <= j2 < ws@.len()
                && is_write_of(h@, ws@[j1].0 as int, ws@[j1].1 as int, ws@[j1].2 as int, x, v)
                && is_write_of(h@, ws@[j2].0 as int, ws@[j2].1 as int, ws@[j2].2 as int, x, v) ==> j1 == j2,
        decreases ps.len() - k,
    {
        let (s, t, e) = ps[k];
        assert(in_history(h@, ps@[k as int].0 as int, ps@[k as int].1 as int, ps@[k as int].2 as int));
        let ev = &h[s][t].events[e];
        match ev {
            Event::Write { variable, version } => {
                let ghost x = variable.label();
                let mut j: usize = 0;
                while j < ws.len()
                    invariant
                        0 <= j <= ws.len(),
                        in_history(h@, s as int, t as int, e as int),
                        is_write_of(h@, s as int, t as int, e as int, x, *version),
                        forall|i: int| 0 <= i < ws@.len() ==> is_write_at(h@, #[trigger] ws@[i].0 as int, ws@[i].1 as int, ws@[i].2 as int),
                        forall|i: int| 0 <= i < j ==> !is_write_of(h@, #[trigger] ws@[i].0 as int, ws@[i].1 as int, ws@[i].2 as int, x, *version),
                    decreases ws.len() - j,
                {
                    let (s2, t2, e2) = ws[j];
                    assert(is_write_at(h@, ws@[j as int].0 as int, ws@[j as int].1 as int, ws@[j as int].2 as int));
                    match &h[s2][t2].events[e2] {
                        Event::Write { variable: v2, version: ver2 } => {
                            if *ver2 == *version && v2.same_label(variable) {
                                proof {
                                    let m = choose|m: int| 0 <= m < k && ps@[m] == ws@[j as int];
                                    assert(ps@[m] != ps@[k as int]);
                                    assert(is_write_of(h@, s2 as int, t2 as int, e2 as int, x, *version));
                                    assert(pos_lt(ps@[m], ps@[k as int]));
                                    lemma_pos_fits(h@, s as int, t as int, e as int);
                                    lemma_pos_fits(h@, s2 as int, t2 as int, e2 as int);
                                }
                                return Err(Error::SameVersionWrite { event: copy_event(ev), ids: [event_id(s, t, e), event_id(s2, t2, e2)] });
                            }
                        },
                        Event::Read { .. } => {},
                    }
                    j = j + 1;
                }
                let ghost w0 = ws@;
                ws.push((s, t, e));
                proof {
                    assert forall|i: int| 0 <= i < ws@.len() implies exists|m: int| 0 <= m < k + 1 && ps@[m] == #[trigger] ws@[i] by {
                        if i < w0.len() {
                            assert(ws@[i] == w0[i]);
                            let m = choose|m: int| 0 <= m < k && ps@[m] == w0[i];
                        } else {
                            assert(ps@[k as int] == ws@[i]);
                        }
                    }
                    assert forall|m: int| 0 <= m < k + 1 && is_write_at(h@, #[trigger] ps@[m].0 as int, ps@[m].1 as int, ps@[m].2 as int)
                        implies exists|i: int| 0 <= i < ws@.len() && ws@[i] == ps@[m] by {
                        if m < k {
                            let i = choose|i: int| 0 <= i < w0.len() && w0[i] == ps@[m];
                            assert(ws@[i] == w0[i]);
                        } else {
                            assert(ws@[w0.len() as int] == ps@[m]);
                        }
                    }
                    assert forall|j1: int, j2: int, y: Seq<char>, v: u64|
                        0 <= j1 < ws@.len() && 0 <= j2 < ws@.len()
                        && #[trigger] is_write_of(h@, ws@[j1].0 as int, ws@[j1].1 as int, ws@[j1].2 as int, y, v)
                        && #[trigger] is_write_of(h@, ws@[j2].0 as int, ws@[j2].1 as int, ws@[j2].2 as int, y, v) implies j1 == j2 by {
                        if j1 < w0.len() && j2 < w0.len() {
                            assert(ws@[j1] == w0[j1] && ws@[j2] == w0[j2]);
                        } else if j1 < w0.len() {
                            assert(ws@[j1] == w0[j1]);
                            assert(y == x && v == *version);
                        } else if j2 < w0.len() {
                            assert(ws@[j2] == w0[j2]);
                            assert(y == x && v == *version);
                        }
                    }
                }
            },
            Event::Read { .. } => {
                proof {
                    assert forall|m: int| 0 <= m < k + 1 && is_write_at(h@, #[trigger] ps@[m].0 as int, ps@[m].1 as int, ps@[m].2 as int)
                        implies exists|i: int| 0 <= i < ws@.len() && ws@[i] == ps@[m] by {
                        if m == k {
                            assert(!is_write_at(h@, s as int, t as int, e as int));
                        }
                    }
                    assert forall|i: int| 0 <= i < ws@.len() implies exists|m: int| 0 <= m < k + 1 && ps@[m] == #[trigger] ws@[i] by {
                        let m = choose|m: int| 0 <= m < k && ps@[m] == ws@[i];
                    }
                }
            },
        }
        k = k + 1;
    }
    proof {
        assert forall|s1: int, t1: int, e1: int, s2: int, t2: int, e2: int, x: Seq<char>, v: u64|
            #[trigger] is_write_of(h@, s1, t1, e1, x, v) && #[trigger] is_write_of(h@, s2, t2, e2, x, v)
            implies s1 == s2 && t1 == t2 && e1 == e2 by {
            assert(in_history(h@, s1, t1, e1));
            assert(in_history(h@, s2, t2, e2));
            assert(h.len() == h@.len());
            lemma_pos_fits(h@, s1, t1, e1);
            lemma_pos_fits(h@, s2, t2, e2);
            let m1 = choose|m: int| 0 <= m < ps@.len() && ps@[m] == (s1 as usize, t1 as usize, e1 as usize);
            let m2 = choose|m: int| 0 <= m < ps@.len() && ps@[m] == (s2 as usize, t2 as usize, e2 as usize);
            assert(ps@[m1].0 as int == s1 && ps@[m1].1 as int == t1 && ps@[m1].2 as int == e1);
            assert(ps@[m2].0 as int == s2 && ps@[m2].1 as int == t2 && ps@[m2].2 as int == e2);
            assert(is_write_at(h@, ps@[m1].0 as int, ps@[m1].1 as int, ps@[m1].2 as int));
            assert(is_write_at(h@, ps@[m2].0 as int, ps@[m2].1 as int, ps@[m2].2 as int));
            assert(ps@[m1].0 as int == s1 && ps@[m1].1 as int == t1 && ps@[m1].2 as int == e1);
            assert(ps@[m2].0 as int == s2 && ps@[m2].1 as int == t2 && ps@[m2].2 as int == e2);
            let j1 = choose|j: int| 0 <= j < ws@.len() && ws@[j] == ps@[m1];
            let j2 = choose|j: int| 0 <= j < ws@.len() && ws@[j] == ps@[m2];
            assert(is_write_of(h@, ws@[j1].0 as int, ws@[j1].1 as int, ws@[j1].2 as int, x, v));
            assert(is_write_of(h@, ws@[j2].0 as int, ws@[j2].1 as int, ws@[j2].2 as int, x, v));
        }
        assert forall|s1: int, t1: int, e1: int| #[trigger] is_write_at(h@, s1, t1, e1)
            implies exists|j: int| 0 <= j < ws@.len() && ws@[j] == (s1 as usize, t1 as usize, e1 as usize) by {
            assert(in_history(h@, s1, t1, e1));
            assert(h.len() == h@.len());
            lemma_pos_fits(h@, s1, t1, e1);
            let m = choose|m: int| 0 <= m < ps@.len() && ps@[m] == (s1 as usize, t1 as usize, e1 as usize);
            assert(ps@[m].0 as int == s1 && ps@[m].1 as int == t1 && ps@[m].2 as int == e1);
            assert(is_write_at(h@, ps@[m].0 as int, ps@[m].1 as int, ps@[m].2 as int));
        }
    }
    Ok(ws)
}


/// `key` is the read that observes the write `w`: the same variable, and
/// `w`'s version.
pub open spec fn keys_write<V: Label>(key: Event<V, u64>, w: Event<V, u64>) -> bool {
    match (key, w) {
        (Event::Read { variable: x, version }, Event::Write { variable: y, version: v }) => x.label() == y.label() && version == Some(v),
        _ => false,
    }
}

/// All writes of the history, as a table from the read that observes each
/// write (its variable and version) to the write's identifier.
///
/// # Errors
///
/// [`Error::SameVersionWrite`] if two events write the same version of the
/// same variable.
pub fn get_all_writes<V: Label>(histories: &[Session<V, u64>]) -> (r: Result<Vec<(Event<V, u64>, EventId)>, Error<V, u64>>)
    ensures
        r.is_ok() <==> unique_versions(histories@),
        r matches Ok(m) ==> forall|j: int| 0 <= j < m@.len() ==> #[trigger] id_names(histories@, m@[j].1@)
            && keys_write(m@[j].0, event_of_id(histories@, m@[j].1@)),
        r matches Ok(m) ==> forall|s: int, t: int, e: int| #[trigger] is_write_at(histories@, s, t, e)
            ==> exists|j: int| 0 <= j < m@.len() && m@[j].1@ == pos_id(s, t, e),
        r matches Ok(m) ==> forall|i: int, j: int| 0 <= i < m@.len() && 0 <= j < m@.len()
            && same_event(#[trigger] m@[i].0, #[trigger] m@[j].0) ==> m@[i].1@ == m@[j].1@,
        r matches Err(err) ==> validity_error_holds(histories@, err) && err is SameVersionWrite,
        r matches Err(Error::SameVersionWrite { ids, .. }) ==> id_lt(ids[1]@, ids[0]@),
{
    let ps = positions(histories);
    match collect_writes(histories, &ps) {
        Err(err) => Err(err),
        Ok(ws) => {
            let mut m: Vec<(Event<V, u64>, EventId)> = Vec::new();
            let mut j: usize = 0;
            while j < ws.len()
                invariant
                    0 <= j <= ws.len(),
                    is_write_list(histories@, ws@),
                    m@.len() == j,
                    histories.len() == histories@.len(),
                    forall|i: int| 0 <= i < j ==> #[trigger] m@[i].1@ == pos_id(ws@[i].0 as int, ws@[i].1 as int, ws@[i].2 as int)
                        && keys_write(m@[i].0, event_at(histories@, ws@[i].0 as int, ws@[i].1 as int, ws@[i].2 as int)),
                decreases ws.len() - j,
            {
                let (s, t, e) = ws[j];
                assert(is_write_at(histories@, ws@[j as int].0 as int, ws@[j as int].1 as int, ws@[j as int].2 as int));
                proof {
                    lemma_pos_fits(histories@, s as int, t as int, e as int);
                }
                match &histories[s][t].events[e] {
                    Event::Write { variable, version } => {
                        m.push((Event::Read { variable: variable.copy_label(), version: Some(*version) }, event_id(s, t, e)));
                    },
                    Event::Read { .. } => {
                        proof {
                            assert(false);
                        }
                    },
                }
                j = j + 1;
            }
            proof {
                assert forall|i: int| 0 <= i < m@.len() implies #[trigger] id_names(histories@, m@[i].1@)
                    && keys_write(m@[i].0, event_of_id(histories@, m@[i].1@)) by {
                    assert(is_write_at(histories@, ws@[i].0 as int, ws@[i].1 as int, ws@[i].2 as int));
                    lemma_pos_fits(histories@, ws@[i].0 as int, ws@[i].1 as int, ws@[i].2 as int);
                }
                assert forall|s: int, t: int, e: int| #[trigger] is_write_at(histories@, s, t, e)
                    implies exists|i: int| 0 <= i < m@.len() && m@[i].1@ == pos_id(s, t, e) by {
                    let i = choose|i: int| 0 <= i < ws@.len() && ws@[i] == (s as usize, t as usize, e as usize);
                    lemma_pos_fits(histories@, s, t, e);
                    assert(m@[i].1@ == pos_id(s, t, e));
                }
                assert forall|i: int, k: int| 0 <= i < m@.len() && 0 <= k < m@.len()
                    && same_event(#[trigger] m@[i].0, #[trigger] m@[k].0) implies m@[i].1@ == m@[k].1@ by {
                    let (s1, t1, e1) = (ws@[i].0 as int, ws@[i].1 as int, ws@[i].2 as int);
                    let (s2, t2, e2) = (ws@[k].0 as int, ws@[k].1 as int, ws@[k].2 as int);
                    assert(is_write_at(histories@, s1, t1, e1) && is_write_at(histories@, s2, t2, e2));
                    assert(m@[i].1@ == pos_id(s1, t1, e1));
                    assert(m@[k].1@ == pos_id(s2, t2, e2));
                    assert(keys_write(m@[i].0, event_at(histories@, s1, t1, e1)));
                    assert(keys_write(m@[k].0, event_at(histories@, s2, t2, e2)));
                    match (event_at(histories@, s1, t1, e1), event_at(histories@, s2, t2, e2)) {
                        (Event::Write { variable: y1, version: v1 }, Event::Write { variable: y2, version: v2 }) => {
                            assert(is_write_of(histories@, s1, t1, e1, y1.label(), v1));
                            match (m@[i].0, m@[k].0) {
                                (Event::Read { variable: x1, version: o1 }, Event::Read { variable: x2, version: o2 }) => {
                                    assert(x1.label() == x2.label() && o1 == o2);
                                    assert(y2.label() == y1.label() && v2 == v1);
                                },
                                _ => {},
                            }
                            assert(is_write_of(histories@, s2, t2, e2, y1.label(), v1));
                        },
                        _ => {},
                    }
                }
            }
            Ok(m)
        },
    }
}

/// The position of the write of version `v` of `x`, if there is one.
pub(crate) fn find_writer<V: Label>(h: &[Session<V, u64>], ws: &Vec<(usize, usize, usize)>, x: &V, v: u64) -> (r: Option<(usize, usize, usize)>)
    requires
        is_write_list(h@, ws@),
    ensures
        r matches Some(p) ==> is_write_of(h@, p.0 as int, p.1 as int, p.2 as int, x.label(), v),
        r is None ==> !written(h@, x.label(), v),
{
    let mut j: usize = 0;
    while j < ws.len()
        invariant
            0 <= j <= ws.len(),
            is_write_list(h@, ws@),
            forall|i: int| 0 <= i < j ==> !is_write_of(h@, #[trigger] ws@[i].0 as int, ws@[i].1 as int, ws@[i].2 as int, x.label(), v),
        decreases ws.len() - j,
    {
        let (s, t, e) = ws[j];
        assert(is_write_at(h@, ws@[j as int].0 as int, ws@[j as int].1 as int, ws@[j as int].2 as int));
        match &h[s][t].events[e] {
            Event::Write { variable, version } => {
                if *version == v && variable.same_label(x) {
                    return Some((s, t, e));
                }
            },
            Event::Read { .. } => {},
        }
        j = j + 1;
    }
    proof {
        assert forall|s: int, t: int, e: int| !#[trigger] is_write_of(h@, s, t, e, x.label(), v) by {
            if is_write_of(h@, s, t, e, x.label(), v) {
                assert(is_write_at(h@, s, t, e));
                let i = choose|i: int| 0 <= i < ws@.len() && ws@[i] == (s as usize, t as usize, e as usize);
                assert(h.len() == h@.len());
                lemma_pos_fits(h@, s, t, e);
                assert(is_write_of(h@, ws@[i].0 as int, ws@[i].1 as int, ws@[i].2 as int, x.label(), v));
            }
        }
    }
    None
}

/// What a read of `version` of `x` observes: `None` if nothing,
/// `Some(None)` for the initial value, `Some(Some(p))` for the write at `p`.
pub(crate) fn resolve<V: Label>(h: &[Session<V, u64>], ws: &Vec<(usize, usize, usize)>, x: &V, version: Option<u64>) -> (r: Option<Option<(usize, usize, usize)>>)
    requires
        is_write_list(h@, ws@),
    ensures
        r is None <==> !resolvable(h@, x.label(), version),
        r == Some(None::<(usize, usize, usize)>) <==> reads_initial(h@, x.label(), version),
        r matches Some(Some(p)) ==> version is Some && is_write_of(h@, p.0 as int, p.1 as int, p.2 as int, x.label(), version.unwrap()),
{
    match version {
        None => Some(None),
        Some(v) => match find_writer(h, ws, x, v) {
            Some(p) => Some(Some(p)),
            None => if v == 0 {
                Some(None)
            } else {
                None
            },
        },
    }
}

/// The position and version of the last write of `x` among the first
/// `upto` events of transaction `(s, t)`.
pub(crate) fn last_write_in<V: Label>(h: &[Session<V, u64>], s: usize, t: usize, upto: usize, x: &V) -> (r: Option<(usize, u64)>)
    requires
        s < h@.len(),
        t < h@[s as int]@.len(),
        upto <= h@[s as int]@[t as int].events@.len(),
    ensures
        r matches Some(w) ==> last_local_write(h@, s as int, t as int, upto as int, x.label()) == Some((w.0 as int, w.1)),
        r is None ==> last_local_write(h@, s as int, t as int, upto as int, x.label()) is None,
{
    let mut last: Option<(usize, u64)> = None;
    let mut i: usize = 0;
    while i < upto
        invariant
            0 <= i <= upto,
            s < h@.len(),
            t < h@[s as int]@.len(),
            upto <= h@[s as int]@[t as int].events@.len(),
            last matches Some(w) ==> last_local_write(h@, s as int, t as int, i as int, x.label()) == Some((w.0 as int, w.1)),
            last is None ==> last_local_write(h@, s as int, t as int, i as int, x.label()) is None,
        decreases upto - i,
    {
        match &h[s][t].events[i] {
            Event::Write { variable, version } => {
                if variable.same_label(x) {
                    last = Some((i, *version));
                }
            },
            Event::Read { .. } => {},
        }
        i = i + 1;
    }
    last
}

/// Checks that every read of a version is resolvable and, where it reads its
/// own transaction's write, reads the latest one.
///
/// # Errors
///
/// [`Error::SameVersionWrite`], [`Error::IncompleteHistory`] or
/// [`Error::InconsistentLocalRead`], for the first offending event.
#[verifier::loop_isolation(false)]
pub fn consistent_local_reads<V: Label>(histories: &[Session<V, u64>]) -> (r: Result<(), Error<V, u64>>)
    ensures
        r.is_ok() <==> unique_versions(histories@) && local_reads_ok(histories@),
        r matches Err(err) ==> validity_error_holds(histories@, err),
        r matches Err(err) ==> !(err is OverwrittenRead || err is UncommittedWrite),
{
    let ghost h = histories@;
    let ps = positions(histories);
    let ws = match collect_writes(histories, &ps) {
        Err(err) => return Err(err),
        Ok(ws) => ws,
    };
    proof { assert(histories.len() == h.len()); }
    let mut k: usize = 0;
    while k < ps.len()
        invariant
            0 <= k <= ps.len(),
            forall|m: int| 0 <= m < k ==> local_read_ok(h, #[trigger] ps@[m].0 as int, ps@[m].1 as int, ps@[m].2 as int),
        decreases ps.len() - k,
    {
        let (s, t, e) = ps[k];
        assert(in_history(h, ps@[k as int].0 as int, ps@[k as int].1 as int, ps@[k as int].2 as int));
        proof { lemma_pos_fits(h, s as int, t as int, e as int); }
        let ev = &histories[s][t].events[e];
        match ev {
            Event::Read { variable, version } => {
                match version {
                    Some(v) => {
                        match resolve(histories, &ws, variable, *version) {
                            None => {
                                return Err(Error::IncompleteHistory { event: copy_event(ev), id: event_id(s, t, e) });
                            },
                            Some(None) => {
                                proof {
                                    assert forall|e2: int| #[trigger] is_write_of(h, s as int, t as int, e2, variable.label(), *v)
                                        implies false by {}
                                }
                            },
                            Some(Some(w)) => {
                                proof { lemma_pos_fits(h, w.0 as int, w.1 as int, w.2 as int); }
                                if w.0 == s && w.1 == t {
                                    let lw = last_write_in(histories, s, t, e, variable);
                                    let fine = match lw {
                                        Some(p) => p.1 == *v,
                                        None => false,
                                    };
                                    if !fine {
                                        proof {
                                            assert(is_write_of(h, s as int, t as int, w.2 as int, variable.label(), *v));
                                            assert(!local_read_ok(h, s as int, t as int, e as int));
                                        }
                                        return Err(Error::InconsistentLocalRead {
                                            read_event_id: event_id(s, t, e),
                                            write_event_id: event_id(w.0, w.1, w.2),
                                            read_event: copy_event(ev),
                                        });
                                    }
                                } else {
                                    proof {
                                        assert forall|e2: int| #[trigger] is_write_of(h, s as int, t as int, e2, variable.label(), *v)
                                            implies false by {
                                            assert(is_write_of(h, w.0 as int, w.1 as int, w.2 as int, variable.label(), *v));
                                        }
                                    }
                                }
                            },
                        }
                    },
                    None => {},
                }
            },
            Event::Write { .. } => {},
        }
        k = k + 1;
    }
    proof {
        assert forall|s: int, t: int, e: int| #[trigger] in_history(h, s, t, e) implies local_read_ok(h, s, t, e) by {
            let m = choose|m: int| 0 <= m < ps@.len() && ps@[m] == (s as usize, t as usize, e as usize);
            lemma_pos_fits(h, s, t, e);
            assert(local_read_ok(h, ps@[m].0 as int, ps@[m].1 as int, ps@[m].2 as int));
        }
    }
    Ok(())
}

/// The event at `(s, t, e)` is the last write of its variable in a committed
/// transaction.
pub open spec fn last_committed_write<V: Label>(h: Seq<Vec<Transaction<V, u64>>>, s: int, t: int, e: int) -> bool {
    &&& is_write_at(h, s, t, e)
    &&& h[s]@[t].committed
    &&& forall|f: int| e < f < h[s]@[t].events@.len() ==> !(#[trigger] is_write_of(h, s, t, f, write_label(event_at(h, s, t, e)), write_version(event_at(h, s, t, f))))
}

/// The name of the variable a write writes.
pub open spec fn write_label<V: Label>(ev: Event<V, u64>) -> Seq<char> {
    match ev {
        Event::Write { variable, .. } => variable.label(),
        Event::Read { variable, .. } => variable.label(),
    }
}

/// The version a write writes.
pub open spec fn write_version<V>(ev: Event<V, u64>) -> u64 {
    match ev {
        Event::Write { version, .. } => version,
        Event::Read { .. } => 0,
    }
}

/// The committed writes: for each committed transaction and each variable
/// it writes, the version of its last write of the variable and that
/// write's identifier, keyed by the transaction and the variable.
pub fn get_committed_writes<V: Label>(histories: &[Session<V, u64>]) -> (r: Vec<((TransactionId, V), (u64, EventId))>)
    requires
        histories@.len() < u64::MAX,
    ensures
        forall|j: int| 0 <= j < r@.len() ==> {
            let id = (#[trigger] r@[j]).1.1@;
            &&& id_names(histories@, id)
            &&& last_committed_write(histories@, id.0 - 1, id.1 as int, id.2 as int)
            &&& r@[j].0.0@ == (id.0, id.1)
            &&& r@[j].0.1.label() == write_label(event_of_id(histories@, id))
            &&& r@[j].1.0 == write_version(event_of_id(histories@, id))
        },
        forall|s: int, t: int, e: int| #[trigger] last_committed_write(histories@, s, t, e)
            ==> exists|j: int| 0 <= j < r@.len() && r@[j].1.1@ == pos_id(s, t, e),
        forall|i: int, j: int| 0 <= i < j < r@.len() ==> #[trigger] r@[i].1.1@ != #[trigger] r@[j].1.1@,
{
    let ghost h = histories@;
    let mut out: Vec<((TransactionId, V), (u64, EventId))> = Vec::new();
    let mut s: usize = 0;
    while s < histories.len()
        invariant
            h == histories@,
            h.len() < u64::MAX,
            0 <= s <= h.len(),
            forall|j: int| 0 <= j < out@.len() ==> {
                let id = (#[trigger] out@[j]).1.1@;
                &&& id_names(h, id)
                &&& id.0 <= s
                &&& last_committed_write(h, id.0 - 1, id.1 as int, id.2 as int)
                &&& out@[j].0.0@ == (id.0, id.1)
                &&& out@[j].0.1.label() == write_label(event_of_id(h, id))
                &&& out@[j].1.0 == write_version(event_of_id(h, id))
            },
            forall|a: int, t: int, e: int| 0 <= a < s && #[trigger] last_committed_write(h, a, t, e)
                ==> exists|j: int| 0 <= j < out@.len() && out@[j].1.1@ == pos_id(a, t, e),
            forall|i: int, j: int| 0 <= i < j < out@.len() ==> #[trigger] out@[i].1.1@ != #[trigger] out@[j].1.1@,
        decreases h.len() - s,
    {
        let mut t: usize = 0;
        while t < histories[s].len()
            invariant
                h == histories@,
                h.len() < u64::MAX,
                0 <= s < h.len(),
                0 <= t <= h[s as int]@.len(),
                forall|j: int| 0 <= j < out@.len() ==> {
                    let id = (#[trigger] out@[j]).1.1@;
                    &&& id_names(h, id)
                    &&& (id.0 <= s || (id.0 == s + 1 && id.1 < t))
                    &&& last_committed_write(h, id.0 - 1, id.1 as int, id.2 as int)
                    &&& out@[j].0.0@ == (id.0, id.1)
                    &&& out@[j].0.1.label() == write_label(event_of_id(h, id))
                    &&& out@[j].1.0 == write_version(event_of_id(h, id))
                },
                forall|a: int, u: int, e: int| #[trigger] last_committed_write(h, a, u, e) && (0 <= a < s || (a == s && u < t))
                    ==> exists|j: int| 0 <= j < out@.len() && out@[j].1.1@ == pos_id(a, u, e),
                forall|i: int, j: int| 0 <= i < j < out@.len() ==> #[trigger] out@[i].1.1@ != #[trigger] out@[j].1.1@,
            decreases h[s as int]@.len() - t,
        {
            let txn = &histories[s][t];
            if txn.committed {
                let n = txn.events.len();
                let mut e: usize = 0;
                while e < n
                    invariant
                        h == histories@,
                        h.len() < u64::MAX,
                        0 <= s < h.len(),
                        0 <= t < h[s as int]@.len(),
                        *txn == h[s as int]@[t as int],
                        txn.committed,
                        n == txn.events@.len(),
                        0 <= e <= n,
                        forall|j: int| 0 <= j < out@.len() ==> {
                            let id = (#[trigger] out@[j]).1.1@;
                            &&& id_names(h, id)
                            &&& (id.0 <= s || (id.0 == s + 1 && id.1 < t) || (id.0 == s + 1 && id.1 == t && id.2 < e))
                            &&& last_committed_write(h, id.0 - 1, id.1 as int, id.2 as int)
                            &&& out@[j].0.0@ == (id.0, id.1)
                            &&& out@[j].0.1.label() == write_label(event_of_id(h, id))
                            &&& out@[j].1.0 == write_version(event_of_id(h, id))
                        },
                        forall|a: int, u: int, f: int| #[trigger] last_committed_write(h, a, u, f)
                            && (0 <= a < s || (a == s && u < t) || (a == s && u == t && f < e))
                            ==> exists|j: int| 0 <= j < out@.len() && out@[j].1.1@ == pos_id(a, u, f),
                        forall|i: int, j: int| 0 <= i < j < out@.len() ==> #[trigger] out@[i].1.1@ != #[trigger] out@[j].1.1@,
                    decreases n - e,
                {
                    match &txn.events[e] {
                        Event::Write { variable, version } => {
                            let mut later = false;
                            let mut f: usize = e + 1;
                            while f < n
                                invariant
                                    *txn == h[s as int]@[t as int],
                                    n == txn.events@.len(),
                                    e < f <= n,
                                    txn.events@[e as int] == (Event::Write { variable: *variable, version: *version }),
                                    later <==> exists|g: int| e < g < f && #[trigger] is_write_of(h, s as int, t as int, g, variable.label(), write_version(event_at(h, s as int, t as int, g))),
                                    0 <= s < h.len(),
                                    0 <= t < h[s as int]@.len(),
                                decreases n - f,
                            {
                                if let Event::Write { variable: other, .. } = &txn.events[f] {
                                    if other.same_label(variable) {
                                        later = true;
                                    }
                                }
                                proof {
                                    let g = f as int;
                                    if is_write_of(h, s as int, t as int, g, variable.label(), write_version(event_at(h, s as int, t as int, g))) {
                                        assert(later);
                                    }
                                }
                                f = f + 1;
                            }
                            let ghost id = pos_id(s as int, t as int, e as int);
                            proof {
                                assert(event_at(h, s as int, t as int, e as int) == txn.events@[e as int]);
                                assert(is_write_at(h, s as int, t as int, e as int));
                                assert(write_label(event_at(h, s as int, t as int, e as int)) == variable.label());
                                if later {
                                    let g = choose|g: int| e < g < n && #[trigger] is_write_of(h, s as int, t as int, g, variable.label(), write_version(event_at(h, s as int, t as int, g)));
                                    assert(!last_committed_write(h, s as int, t as int, e as int));
                                } else {
                                    assert forall|g: int| e < g < h[s as int]@[t as int].events@.len() implies !(#[trigger] is_write_of(h, s as int, t as int, g, write_label(event_at(h, s as int, t as int, e as int)), write_version(event_at(h, s as int, t as int, g)))) by {
                                        if is_write_of(h, s as int, t as int, g, variable.label(), write_version(event_at(h, s as int, t as int, g))) {
                                            assert(exists|g2: int| e < g2 < f && #[trigger] is_write_of(h, s as int, t as int, g2, variable.label(), write_version(event_at(h, s as int, t as int, g2))));
                                        }
                                    }
                                }
                                assert(later <==> !last_committed_write(h, s as int, t as int, e as int));
                            }
                            if !later {
                                let sid: u64 = s as u64 + 1;
                                let eid = EventId { session_id: sid, session_height: t as u64, transaction_height: e as u64 };
                                let key = (TransactionId { session_id: sid, session_height: t as u64 }, variable.copy_label());
                                let ghost o0 = out@;
                                out.push((key, (*version, eid)));
                                proof {
                                    assert(eid@ == id);
                                    assert forall|i: int, j: int| 0 <= i < j < out@.len() implies #[trigger] out@[i].1.1@ != #[trigger] out@[j].1.1@ by {
                                        if j == out@.len() - 1 {
                                            assert(o0[i].1.1@.2 < e || o0[i].1.1@.0 != s + 1 || o0[i].1.1@.1 != t);
                                        } else {
                                            assert(o0[i].1.1@ != o0[j].1.1@);
                                        }
                                    }
                                    assert forall|j: int| 0 <= j < out@.len() implies {
                                        let id2 = (#[trigger] out@[j]).1.1@;
                                        &&& id_names(h, id2)
                                        &&& (id2.0 <= s || (id2.0 == s + 1 && id2.1 < t) || (id2.0 == s + 1 && id2.1 == t && id2.2 < e + 1))
                                        &&& last_committed_write(h, id2.0 - 1, id2.1 as int, id2.2 as int)
                                        &&& out@[j].0.0@ == (id2.0, id2.1)
                                        &&& out@[j].0.1.label() == write_label(event_of_id(h, id2))
                                        &&& out@[j].1.0 == write_version(event_of_id(h, id2))
                                    } by {
                                        if j < o0.len() {
                                            assert(out@[j] == o0[j]);
                                        }
                                    }
                                    assert forall|a: int, u: int, g: int| #[trigger] last_committed_write(h, a, u, g)
                                        && (0 <= a < s || (a == s && u < t) || (a == s && u == t && g < e + 1))
                                        implies exists|j: int| 0 <= j < out@.len() && out@[j].1.1@ == pos_id(a, u, g) by {
                                        if a == s && u == t && g == e {
                                            assert(out@[out@.len() - 1].1.1@ == pos_id(a, u, g));
                                        } else {
                                            let j = choose|j: int| 0 <= j < o0.len() && o0[j].1.1@ == pos_id(a, u, g);
                                            assert(out@[j] == o0[j]);
                                        }
                                    }
                                }
                            }
                        },
                        Event::Read { .. } => {
                            proof {
                                assert(!is_write_at(h, s as int, t as int, e as int));
                            }
                        },
                    }
                    e = e + 1;
                }
            } else {
                proof {
                    assert forall|a: int, u: int, f: int| #[trigger] last_committed_write(h, a, u, f) && (0 <= a < s || (a == s && u < t + 1))
                        implies exists|j: int| 0 <= j < out@.len() && out@[j].1.1@ == pos_id(a, u, f) by {
                        if a == s && u == t {
                            assert(!h[s as int]@[t as int].committed);
                        }
                    }
                }
            }
            t = t + 1;
        }
        s = s + 1;
    }
    out
}

/// Checks that every read observes the initial value or the final write of a
/// committed transaction.
///
/// # Errors
///
/// [`Error::SameVersionWrite`], [`Error::IncompleteHistory`],
/// [`Error::OverwrittenRead`] or [`Error::UncommittedWrite`], for the first
/// offending event.
#[verifier::loop_isolation(false)]
pub fn committed_external_reads<V: Label>(histories: &[Session<V, u64>]) -> (r: Result<(), Error<V, u64>>)
    ensures
        r.is_ok() <==> unique_versions(histories@) && external_reads_ok(histories@),
        r matches Err(err) ==> validity_error_holds(histories@, err),
{
    let ghost h = histories@;
    let ps = positions(histories);
    let ws = match collect_writes(histories, &ps) {
        Err(err) => return Err(err),
        Ok(ws) => ws,
    };
    proof { assert(histories.len() == h.len()); }
    let mut k: usize = 0;
    while k < ps.len()
        invariant
            0 <= k <= ps.len(),
            forall|m: int| 0 <= m < k ==> external_read_ok(h, #[trigger] ps@[m].0 as int, ps@[m].1 as int, ps@[m].2 as int),
        decreases ps.len() - k,
    {
        let (s, t, e) = ps[k];
        assert(in_history(h, ps@[k as int].0 as int, ps@[k as int].1 as int, ps@[k as int].2 as int));
        proof { lemma_pos_fits(h, s as int, t as int, e as int); }
        let ev = &histories[s][t].events[e];
        match ev {
            Event::Read { variable, version } => {
                match resolve(histories, &ws, variable, *version) {
                    None => {
                        return Err(Error::IncompleteHistory { event: copy_event(ev), id: event_id(s, t, e) });
                    },
                    Some(None) => {},
                    Some(Some(w)) => {
                        let (ws_, wt, we) = w;
                        proof { lemma_pos_fits(h, ws_ as int, wt as int, we as int); }
                        let v = version.unwrap();
                        if ws_ == s && wt == t {
                            proof {
                                assert(is_write_of(h, ws_ as int, wt as int, we as int, variable.label(), v));
                            }
                        } else {
                            if !histories[ws_][wt].committed {
                                proof {
                                    assert forall|a: int, b: int, c: int|
                                        #[trigger] is_write_of(h, a, b, c, variable.label(), v) implies !((a == s && b == t) || committed_final_write(h, a, b, c, variable.label())) by {
                                        assert(is_write_of(h, ws_ as int, wt as int, we as int, variable.label(), v));
                                    }
                                }
                                return Err(Error::UncommittedWrite {
                                    read_event: copy_event(ev),
                                    read_event_id: event_id(s, t, e),
                                    write_event_id: event_id(ws_, wt, we),
                                });
                            }
                            let n = histories[ws_][wt].events.len();
                            let c = last_write_in(histories, ws_, wt, n, variable);
                            match c {
                                Some(cw) => {
                                    if cw.0 != we {
                                        proof {
                                            assert forall|a: int, b: int, d: int|
                                                #[trigger] is_write_of(h, a, b, d, variable.label(), v) implies !((a == s && b == t) || committed_final_write(h, a, b, d, variable.label())) by {
                                                assert(is_write_of(h, ws_ as int, wt as int, we as int, variable.label(), v));
                                            }
                                            lemma_last_local_write_is_write(h, ws_ as int, wt as int, n as int, variable.label());
                                        }
                                        return Err(Error::OverwrittenRead {
                                            read_event: copy_event(ev),
                                            read_event_id: event_id(s, t, e),
                                            overwritten_write_event_id: event_id(ws_, wt, we),
                                            committed_write_event: Event::Write { variable: variable.copy_label(), version: cw.1 },
                                            committed_write_event_id: event_id(ws_, wt, cw.0),
                                        });
                                    }
                                },
                                None => {
                                    proof {
                                        lemma_last_local_write_exists(h, ws_ as int, wt as int, n as int, we as int, variable.label());
                                    }
                                },
                            }
                        }
                    },
                }
            },
            Event::Write { .. } => {},
        }
        k = k + 1;
    }
    proof {
        assert forall|s: int, t: int, e: int| #[trigger] in_history(h, s, t, e) implies external_read_ok(h, s, t, e) by {
            let m = choose|m: int| 0 <= m < ps@.len() && ps@[m] == (s as usize, t as usize, e as usize);
            lemma_pos_fits(h, s, t, e);
            assert(external_read_ok(h, ps@[m].0 as int, ps@[m].1 as int, ps@[m].2 as int));
        }
    }
    Ok(())
}

/// The last write of a transaction's prefix is a write of that variable.
pub proof fn lemma_last_local_write_is_write<V: Label>(h: Seq<Vec<Transaction<V, u64>>>, s: int, t: int, n: int, x: Seq<char>)
    requires
        0 <= s < h.len(),
        0 <= t < h[s]@.len(),
        0 <= n <= h[s]@[t].events@.len(),
    ensures
        last_local_write(h, s, t, n, x) matches Some(w) ==> 0 <= w.0 < n && is_write_of(h, s, t, w.0, x, w.1),
    decreases n,
{
    if n > 0 {
        lemma_last_local_write_is_write(h, s, t, n - 1, x);
    }
}

/// A transaction prefix that holds a write of `x` has a last write of `x`.
pub proof fn lemma_last_local_write_exists<V: Label>(h: Seq<Vec<Transaction<V, u64>>>, s: int, t: int, n: int, e: int, x: Seq<char>)
    requires
        0 <= s < h.len(),
        0 <= t < h[s]@.len(),
        0 <= e < n <= h[s]@[t].events@.len(),
        event_at(h, s, t, e) matches Event::Write { variable, .. } && variable.label() == x,
    ensures
        last_local_write(h, s, t, n, x) is Some,
    decreases n,
{
    if n - 1 > e {
        lemma_last_local_write_exists(h, s, t, n - 1, e, x);
    }
}

/// Checks that the history is valid: every version has one writer and every
/// read observes a visible write.
///
/// # Errors
///
/// The error of [`consistent_local_reads`], else that of
/// [`committed_external_reads`].
pub fn is_valid_history<V: Label>(histories: &[Session<V, u64>]) -> (r: Result<(), Error<V, u64>>)
    ensures
        r.is_ok() <==> valid_history(histories@),
        r matches Err(err) ==> validity_error_holds(histories@, err),
        r matches Err(err) && (err is OverwrittenRead || err is UncommittedWrite)
            ==> unique_versions(histories@) && local_reads_ok(histories@),
        !unique_versions(histories@) || !local_reads_ok(histories@)
            ==> (r matches Err(err) && !(err is OverwrittenRead || err is UncommittedWrite)),
{
    match consistent_local_reads(histories) {
        Err(e) => {
            return Err(e);
        },
        Ok(()) => {},
    }
    committed_external_reads(histories)?;
    Ok(())
}

} // verus!
