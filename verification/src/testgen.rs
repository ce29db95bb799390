//! Random generation of histories whose reads all observe existing writes.
use vstd::prelude::*;

use crate::collections::{u64_map_clone, u64_map_contents, u64_map_get, u64_map_insert, u64_map_new, u64_set_contents, u64_set_insert, u64_set_new, U64Map};
use crate::history::raw::types::{Event, Session, Transaction};

verus! {

/// The thread-local random number generator of `rand`.
#[verifier::external_type_specification]
#[verifier::external_body]
pub struct ExThreadRng(rand::rngs::ThreadRng);

/// `rand::rng`: a handle on the thread-local random number generator.
#[verifier::external_body]
fn thread_rng() -> rand::rngs::ThreadRng {
    rand::rng()
}

/// `rand::RngExt::random_range` on `0..n`: a value below `n`, which must
/// be positive.
#[verifier::external_body]
fn random_below(rng: &mut rand::rngs::ThreadRng, n: u64) -> (r: u64)
    requires
        n > 0,
    ensures
        r < n,
{
    rand::RngExt::random_range(rng, 0..n)
}

/// `rand::RngExt::random::<bool>`: a random choice.
#[verifier::external_body]
fn random_bool(rng: &mut rand::rngs::ThreadRng) -> bool {
    rand::RngExt::random::<bool>(rng)
}

/// The parameters of one generated history.
#[derive(Clone, Debug, Default)]
pub struct HistParams {
    pub id: u64,
    pub n_node: u64,
    pub n_variable: u64,
    pub n_transaction: u64,
    pub n_event: u64,
}

/// The transaction writes version `v` of variable `x`.
pub open spec fn txn_writes(t: Transaction<u64, u64>, x: u64, v: u64) -> bool {
    exists|e: int| 0 <= e < t.events@.len() && t.events@[e] == (Event::<u64, u64>::Write { variable: x, version: v })
}

/// Some transaction of `ts` writes version `v` of variable `x`.
pub open spec fn txns_write(ts: Seq<Transaction<u64, u64>>, x: u64, v: u64) -> bool {
    exists|t: int| 0 <= t < ts.len() && #[trigger] txn_writes(ts[t], x, v)
}

/// Some transaction of the history writes version `v` of variable `x`.
pub open spec fn hist_writes(h: Seq<Session<u64, u64>>, x: u64, v: u64) -> bool {
    exists|s: int| 0 <= s < h.len() && #[trigger] txns_write(h[s]@, x, v)
}

/// The event reads version `v` of `x` only where `written(x, v)` holds.
pub open spec fn read_backed(ev: Event<u64, u64>, written: spec_fn(u64, u64) -> bool) -> bool {
    ev matches Event::Read { variable, version } ==> (version matches Some(v) && written(variable, v))
}

/// Every read of the history observes a version that some write of the
/// history wrote.
pub open spec fn coherent(h: Seq<Session<u64, u64>>) -> bool {
    forall|s: int, t: int, e: int| 0 <= s < h.len() && 0 <= t < h[s]@.len() && 0 <= e < h[s]@[t].events@.len()
        ==> read_backed(#[trigger] h[s]@[t].events@[e], |x: u64, v: u64| hist_writes(h, x, v))
}

/// The event names a variable below `n`.
pub open spec fn var_below(ev: Event<u64, u64>, n: u64) -> bool {
    match ev {
        Event::Read { variable, .. } => variable < n,
        Event::Write { variable, .. } => variable < n,
    }
}

/// The shape of a generated history: `n_node` sessions; the first opens
/// with a transaction writing version 0 of every variable; then each
/// session has `n_transaction` transactions of `n_event` events; every
/// transaction is committed and every event names a variable below
/// `n_variable`.
pub open spec fn generated_shape(h: Seq<Session<u64, u64>>, n_node: u64, n_variable: u64, n_transaction: u64, n_event: u64) -> bool {
    &&& h.len() == n_node
    &&& forall|s: int| 0 <= s < h.len() ==> #[trigger] h[s]@.len() == n_transaction + (if s == 0 { 1int } else { 0int })
    &&& n_node > 0 ==> h[0]@[0].events@.len() == n_variable
        && forall|k: int| 0 <= k < n_variable ==> #[trigger] h[0]@[0].events@[k] == (Event::<u64, u64>::Write { variable: k as u64, version: 0 })
    &&& forall|s: int, t: int| 0 <= s < h.len() && 0 <= t < h[s]@.len() && !(s == 0 && t == 0) ==> #[trigger] h[s]@[t].events@.len() == n_event
    &&& forall|s: int, t: int| 0 <= s < h.len() && 0 <= t < h[s]@.len() ==> #[trigger] h[s]@[t].committed
    &&& forall|s: int, t: int, e: int| 0 <= s < h.len() && 0 <= t < h[s]@.len() && 0 <= e < h[s]@[t].events@.len()
        ==> var_below(#[trigger] h[s]@[t].events@[e], n_variable)
}

/// The sessions of a history, each as its sequence of transactions.
pub open spec fn session_seqs(h: Seq<Session<u64, u64>>) -> Seq<Seq<Transaction<u64, u64>>> {
    Seq::new(h.len(), |i: int| h[i]@)
}

/// `(s, t, e)` is the position of an event.
pub open spec fn at_pos(hv: Seq<Seq<Transaction<u64, u64>>>, s: int, t: int, e: int) -> bool {
    0 <= s < hv.len() && 0 <= t < hv[s].len() && 0 <= e < hv[s][t].events@.len()
}

/// Transaction `t2` of session `s2` is generated before transaction `t` of
/// session `s`: sessions are generated one after the other, the
/// transactions of a session in order.
pub open spec fn generated_before(s2: int, t2: int, s: int, t: int) -> bool {
    s2 < s || (s2 == s && t2 < t)
}

/// A transaction generated before transaction `(s, t)` writes version `v`
/// of `x`.
pub open spec fn written_before(hv: Seq<Seq<Transaction<u64, u64>>>, s: int, t: int, x: u64, v: u64) -> bool {
    exists|s2: int, t2: int, e2: int| generated_before(s2, t2, s, t) && #[trigger] at_pos(hv, s2, t2, e2)
        && hv[s2][t2].events@[e2] == (Event::<u64, u64>::Write { variable: x, version: v })
}

/// Version `v` of `x` is the highest version of `x` that the transactions
/// generated before transaction `(s, t)` wrote.
pub open spec fn latest_before(hv: Seq<Seq<Transaction<u64, u64>>>, s: int, t: int, x: u64, v: u64) -> bool {
    &&& written_before(hv, s, t, x, v)
    &&& forall|s2: int, t2: int, e2: int| generated_before(s2, t2, s, t) && #[trigger] at_pos(hv, s2, t2, e2)
        ==> (hv[s2][t2].events@[e2] matches Event::Write { variable, version } ==> (variable == x ==> version <= v))
}

/// Every read observes, of its variable, the highest version written by
/// the transactions generated before its own.
pub open spec fn reads_latest(hv: Seq<Seq<Transaction<u64, u64>>>) -> bool {
    forall|s: int, t: int, e: int| #[trigger] at_pos(hv, s, t, e)
        ==> (hv[s][t].events@[e] matches Event::Read { variable, version }
            ==> (version matches Some(v) && latest_before(hv, s, t, variable, v)))
}

proof fn lemma_latest_new_session(hv: Seq<Seq<Transaction<u64, u64>>>)
    requires
        reads_latest(hv),
    ensures
        reads_latest(hv.push(Seq::empty())),
{
    let hv2 = hv.push(Seq::<Transaction<u64, u64>>::empty());
    assert forall|s: int, t: int, e: int| #[trigger] at_pos(hv2, s, t, e)
        implies (hv2[s][t].events@[e] matches Event::Read { variable, version }
            ==> (version matches Some(v) && latest_before(hv2, s, t, variable, v))) by {
        assert(s < hv.len());
        assert(hv2[s] == hv[s]);
        assert(at_pos(hv, s, t, e));
        if let Event::Read { variable, version } = hv2[s][t].events@[e] {
            let v = version.unwrap();
            assert(latest_before(hv, s, t, variable, v));
            let (s2, t2, e2) = choose|s2: int, t2: int, e2: int| generated_before(s2, t2, s, t) && #[trigger] at_pos(hv, s2, t2, e2)
                && hv[s2][t2].events@[e2] == (Event::<u64, u64>::Write { variable: variable, version: v });
            assert(hv2[s2] == hv[s2]);
            assert(at_pos(hv2, s2, t2, e2));
            assert forall|s2: int, t2: int, e2: int| generated_before(s2, t2, s, t) && #[trigger] at_pos(hv2, s2, t2, e2)
                implies (hv2[s2][t2].events@[e2] matches Event::Write { variable: y, version: w } ==> (y == variable ==> w <= v)) by {
                assert(hv2[s2] == hv[s2]);
                assert(at_pos(hv, s2, t2, e2));
            }
        }
    }
}

proof fn lemma_latest_push_txn(hv: Seq<Seq<Transaction<u64, u64>>>, txn: Transaction<u64, u64>)
    requires
        hv.len() > 0,
        reads_latest(hv),
        forall|e: int| 0 <= e < txn.events@.len() ==> (#[trigger] txn.events@[e] matches Event::Read { variable, version }
            ==> (version matches Some(v) && latest_before(hv, hv.len() as int, 0, variable, v))),
    ensures
        reads_latest(hv.update(hv.len() - 1, hv[hv.len() - 1].push(txn))),
{
    let s0 = hv.len() - 1;
    let l = hv[s0].len() as int;
    let hv2 = hv.update(s0, hv[s0].push(txn));
    assert forall|s2: int, t2: int, e2: int| !(s2 == s0 && t2 == l) && #[trigger] at_pos(hv2, s2, t2, e2)
        implies at_pos(hv, s2, t2, e2) && hv2[s2][t2] == hv[s2][t2] by {
        if s2 == s0 {
            assert(hv2[s2][t2] == hv[s2][t2]);
        }
    }
    assert forall|s2: int, t2: int, e2: int| #[trigger] at_pos(hv, s2, t2, e2)
        implies at_pos(hv2, s2, t2, e2) && hv2[s2][t2] == hv[s2][t2] by {
        if s2 == s0 {
            assert(hv2[s2][t2] == hv[s2][t2]);
        }
    }
    assert forall|s: int, t: int, e: int| #[trigger] at_pos(hv2, s, t, e)
        implies (hv2[s][t].events@[e] matches Event::Read { variable, version }
            ==> (version matches Some(v) && latest_before(hv2, s, t, variable, v))) by {
        if let Event::Read { variable, version } = hv2[s][t].events@[e] {
            if s == s0 && t == l {
                assert(hv2[s][t] == txn);
                assert(txn.events@[e] == hv2[s][t].events@[e]);
                let v = version.unwrap();
                assert(latest_before(hv, hv.len() as int, 0, variable, v));
                let (s2, t2, e2) = choose|s2: int, t2: int, e2: int| generated_before(s2, t2, hv.len() as int, 0) && #[trigger] at_pos(hv, s2, t2, e2)
                    && hv[s2][t2].events@[e2] == (Event::<u64, u64>::Write { variable: variable, version: v });
                assert(at_pos(hv2, s2, t2, e2));
                assert(generated_before(s2, t2, s, t));
                assert forall|s2: int, t2: int, e2: int| generated_before(s2, t2, s, t) && #[trigger] at_pos(hv2, s2, t2, e2)
                    implies (hv2[s2][t2].events@[e2] matches Event::Write { variable: y, version: w } ==> (y == variable ==> w <= v)) by {
                    assert(at_pos(hv, s2, t2, e2));
                    assert(generated_before(s2, t2, hv.len() as int, 0));
                }
            } else {
                assert(at_pos(hv, s, t, e));
                let v = version.unwrap();
                assert(latest_before(hv, s, t, variable, v));
                let (s2, t2, e2) = choose|s2: int, t2: int, e2: int| generated_before(s2, t2, s, t) && #[trigger] at_pos(hv, s2, t2, e2)
                    && hv[s2][t2].events@[e2] == (Event::<u64, u64>::Write { variable: variable, version: v });
                assert(at_pos(hv2, s2, t2, e2));
                assert forall|s2: int, t2: int, e2: int| generated_before(s2, t2, s, t) && #[trigger] at_pos(hv2, s2, t2, e2)
                    implies (hv2[s2][t2].events@[e2] matches Event::Write { variable: y, version: w } ==> (y == variable ==> w <= v)) by {
                    assert(!(s2 == s0 && t2 == l));
                    assert(at_pos(hv, s2, t2, e2));
                }
            }
        }
    }
}

/// No two events of the history write the same version of the same
/// variable.
pub open spec fn unique_writes(h: Seq<Session<u64, u64>>) -> bool {
    forall|s1: int, t1: int, e1: int, s2: int, t2: int, e2: int|
        #![trigger h[s1]@[t1].events@[e1], h[s2]@[t2].events@[e2]]
        0 <= s1 < h.len() && 0 <= t1 < h[s1]@.len() && 0 <= e1 < h[s1]@[t1].events@.len()
            && 0 <= s2 < h.len() && 0 <= t2 < h[s2]@.len() && 0 <= e2 < h[s2]@[t2].events@.len()
            && h[s1]@[t1].events@[e1] is Write && h[s1]@[t1].events@[e1] == h[s2]@[t2].events@[e2]
            ==> s1 == s2 && t1 == t2 && e1 == e2
}

/// The highest version of `x` handed out so far (0 before any).
spec fn issued(counters: Map<u64, u64>, x: u64) -> int {
    if counters.dom().contains(x) { counters[x] as int } else { 0 }
}

/// Where `ev` is a write, `pos` places its (variable, version) at `p`, and
/// the version is no higher than the one last handed out for its variable.
spec fn write_recorded(ev: Event<u64, u64>, pos: Map<(u64, u64), (int, int, int)>, counters: Map<u64, u64>, p: (int, int, int)) -> bool {
    ev matches Event::Write { variable, version } ==> pos.dom().contains((variable, version))
        && pos[(variable, version)] == p && version <= issued(counters, variable)
}

/// Every write generated so far (finished sessions `out`, the finished
/// transactions `txns` of the current session, the events of the current
/// transaction) is recorded at its own position.
spec fn all_recorded(
    out: Seq<Session<u64, u64>>,
    txns: Seq<Transaction<u64, u64>>,
    events: Seq<Event<u64, u64>>,
    pos: Map<(u64, u64), (int, int, int)>,
    counters: Map<u64, u64>,
) -> bool {
    &&& forall|s: int, t: int, e: int| 0 <= s < out.len() && 0 <= t < out[s]@.len() && 0 <= e < out[s]@[t].events@.len()
        ==> write_recorded(#[trigger] out[s]@[t].events@[e], pos, counters, (s, t, e))
    &&& forall|t: int, e: int| 0 <= t < txns.len() && 0 <= e < txns[t].events@.len()
        ==> write_recorded(#[trigger] txns[t].events@[e], pos, counters, (out.len() as int, t, e))
    &&& forall|e: int| 0 <= e < events.len()
        ==> write_recorded(#[trigger] events[e], pos, counters, (out.len() as int, txns.len() as int, e))
}

proof fn lemma_issue_version(
    out: Seq<Session<u64, u64>>,
    txns: Seq<Transaction<u64, u64>>,
    events: Seq<Event<u64, u64>>,
    pos: Map<(u64, u64), (int, int, int)>,
    counters: Map<u64, u64>,
    x: u64,
    c: u64,
    q: (int, int, int),
)
    requires
        all_recorded(out, txns, events, pos, counters),
        c == issued(counters, x),
        c < u64::MAX,
    ensures
        all_recorded(out, txns, events, pos.insert((x, (c + 1) as u64), q), counters.insert(x, (c + 1) as u64)),
{
    let pos2 = pos.insert((x, (c + 1) as u64), q);
    let cnt2 = counters.insert(x, (c + 1) as u64);
    assert forall|ev: Event<u64, u64>, p: (int, int, int)| write_recorded(ev, pos, counters, p)
        implies #[trigger] write_recorded(ev, pos2, cnt2, p) by {
        if let Event::Write { variable, version } = ev {
            if variable == x {
                assert(version <= c);
            }
        }
    }
}

proof fn lemma_record_event(
    out: Seq<Session<u64, u64>>,
    txns: Seq<Transaction<u64, u64>>,
    events: Seq<Event<u64, u64>>,
    pos: Map<(u64, u64), (int, int, int)>,
    counters: Map<u64, u64>,
    ev: Event<u64, u64>,
)
    requires
        all_recorded(out, txns, events, pos, counters),
        write_recorded(ev, pos, counters, (out.len() as int, txns.len() as int, events.len() as int)),
    ensures
        all_recorded(out, txns, events.push(ev), pos, counters),
{
    assert forall|e: int| 0 <= e < events.push(ev).len() implies write_recorded(#[trigger] events.push(ev)[e], pos, counters,
        (out.len() as int, txns.len() as int, e)) by {
        if e < events.len() {
            assert(events.push(ev)[e] == events[e]);
        }
    }
}

proof fn lemma_record_transaction(
    out: Seq<Session<u64, u64>>,
    txns: Seq<Transaction<u64, u64>>,
    txn: Transaction<u64, u64>,
    pos: Map<(u64, u64), (int, int, int)>,
    counters: Map<u64, u64>,
)
    requires
        all_recorded(out, txns, txn.events@, pos, counters),
    ensures
        all_recorded(out, txns.push(txn), Seq::empty(), pos, counters),
{
    assert forall|t: int, e: int| 0 <= t < txns.push(txn).len() && 0 <= e < txns.push(txn)[t].events@.len()
        implies write_recorded(#[trigger] txns.push(txn)[t].events@[e], pos, counters, (out.len() as int, t, e)) by {
        if t < txns.len() {
            assert(txns.push(txn)[t] == txns[t]);
        } else {
            assert(txns.push(txn)[t] == txn);
        }
    }
}

proof fn lemma_record_session(
    out: Seq<Session<u64, u64>>,
    session: Session<u64, u64>,
    pos: Map<(u64, u64), (int, int, int)>,
    counters: Map<u64, u64>,
)
    requires
        all_recorded(out, session@, Seq::empty(), pos, counters),
    ensures
        all_recorded(out.push(session), Seq::empty(), Seq::empty(), pos, counters),
{
    assert forall|s: int, t: int, e: int| 0 <= s < out.push(session).len() && 0 <= t < out.push(session)[s]@.len()
        && 0 <= e < out.push(session)[s]@[t].events@.len()
        implies write_recorded(#[trigger] out.push(session)[s]@[t].events@[e], pos, counters, (s, t, e)) by {
        if s < out.len() {
            assert(out.push(session)[s] == out[s]);
        } else {
            assert(out.push(session)[s] == session);
        }
    }
}

proof fn lemma_recorded_unique(out: Seq<Session<u64, u64>>, pos: Map<(u64, u64), (int, int, int)>, counters: Map<u64, u64>)
    requires
        all_recorded(out, Seq::empty(), Seq::empty(), pos, counters),
    ensures
        unique_writes(out),
{
    assert forall|s1: int, t1: int, e1: int, s2: int, t2: int, e2: int|
        0 <= s1 < out.len() && 0 <= t1 < out[s1]@.len() && 0 <= e1 < out[s1]@[t1].events@.len()
            && 0 <= s2 < out.len() && 0 <= t2 < out[s2]@.len() && 0 <= e2 < out[s2]@[t2].events@.len()
            && #[trigger] out[s1]@[t1].events@[e1] is Write && out[s1]@[t1].events@[e1] == #[trigger] out[s2]@[t2].events@[e2]
        implies s1 == s2 && t1 == t2 && e1 == e2 by {
        assert(write_recorded(out[s1]@[t1].events@[e1], pos, counters, (s1, t1, e1)));
        assert(write_recorded(out[s2]@[t2].events@[e2], pos, counters, (s2, t2, e2)));
    }
}

proof fn lemma_readable_latest(
    out: Seq<Session<u64, u64>>,
    txns: Seq<Transaction<u64, u64>>,
    pos: Map<(u64, u64), (int, int, int)>,
    counters: Map<u64, u64>,
    rd: Map<u64, u64>,
    n: u64,
)
    requires
        all_recorded(out, txns, Seq::empty(), pos, counters),
        forall|k: u64| k < n ==> #[trigger] rd[k] == issued(counters, k),
        forall|k: u64| k < n ==> hist_writes(out, k, #[trigger] rd[k]) || txns_write(txns, k, rd[k]),
    ensures
        forall|k: u64| k < n ==> latest_before(session_seqs(out).push(txns), out.len() + 1int, 0, k, #[trigger] rd[k]),
{
    let hv = session_seqs(out).push(txns);
    assert forall|s2: int| 0 <= s2 < out.len() implies #[trigger] hv[s2] == out[s2]@ by {}
    assert(hv[out.len() as int] == txns);
    assert forall|k: u64| k < n implies latest_before(hv, out.len() + 1int, 0, k, #[trigger] rd[k]) by {
        let v = rd[k];
        if hist_writes(out, k, v) {
            let s2 = choose|s2: int| 0 <= s2 < out.len() && #[trigger] txns_write(out[s2]@, k, v);
            let t2 = choose|t2: int| 0 <= t2 < out[s2]@.len() && #[trigger] txn_writes(out[s2]@[t2], k, v);
            let e2 = choose|e2: int| 0 <= e2 < out[s2]@[t2].events@.len()
                && out[s2]@[t2].events@[e2] == (Event::<u64, u64>::Write { variable: k, version: v });
            assert(hv[s2] == out[s2]@);
            assert(at_pos(hv, s2, t2, e2));
        } else {
            assert(txns_write(txns, k, v));
            let t2 = choose|t2: int| 0 <= t2 < txns.len() && #[trigger] txn_writes(txns[t2], k, v);
            let e2 = choose|e2: int| 0 <= e2 < txns[t2].events@.len()
                && txns[t2].events@[e2] == (Event::<u64, u64>::Write { variable: k, version: v });
            assert(at_pos(hv, out.len() as int, t2, e2));
        }
        assert forall|s2: int, t2: int, e2: int| generated_before(s2, t2, out.len() + 1int, 0) && #[trigger] at_pos(hv, s2, t2, e2)
            implies (hv[s2][t2].events@[e2] matches Event::Write { variable: y, version: w } ==> (y == k ==> w <= v)) by {
            if s2 < out.len() {
                assert(hv[s2] == out[s2]@);
                assert(write_recorded(out[s2]@[t2].events@[e2], pos, counters, (s2, t2, e2)));
            } else {
                assert(write_recorded(txns[t2].events@[e2], pos, counters, (out.len() as int, t2, e2)));
            }
        }
    }
}

proof fn lemma_txns_write_push(ts: Seq<Transaction<u64, u64>>, t: Transaction<u64, u64>)
    ensures
        forall|x: u64, v: u64| #[trigger] txns_write(ts.push(t), x, v) <==> txns_write(ts, x, v) || txn_writes(t, x, v),
{
    assert forall|x: u64, v: u64| #[trigger] txns_write(ts.push(t), x, v) <==> txns_write(ts, x, v) || txn_writes(t, x, v) by {
        if txns_write(ts, x, v) {
            let k = choose|k: int| 0 <= k < ts.len() && #[trigger] txn_writes(ts[k], x, v);
            assert(ts.push(t)[k] == ts[k]);
        }
        if txn_writes(t, x, v) {
            assert(ts.push(t)[ts.len() as int] == t);
        }
        if txns_write(ts.push(t), x, v) {
            let k = choose|k: int| 0 <= k < ts.len() + 1 && #[trigger] txn_writes(ts.push(t)[k], x, v);
            if k < ts.len() {
                assert(ts.push(t)[k] == ts[k]);
            }
        }
    }
}

proof fn lemma_hist_writes_push(h: Seq<Session<u64, u64>>, s: Session<u64, u64>)
    ensures
        forall|x: u64, v: u64| #[trigger] hist_writes(h.push(s), x, v) <==> hist_writes(h, x, v) || txns_write(s@, x, v),
{
    assert forall|x: u64, v: u64| #[trigger] hist_writes(h.push(s), x, v) <==> hist_writes(h, x, v) || txns_write(s@, x, v) by {
        if hist_writes(h, x, v) {
            let k = choose|k: int| 0 <= k < h.len() && #[trigger] txns_write(h[k]@, x, v);
            assert(h.push(s)[k] == h[k]);
        }
        if txns_write(s@, x, v) {
            assert(h.push(s)[h.len() as int] == s);
        }
        if hist_writes(h.push(s), x, v) {
            let k = choose|k: int| 0 <= k < h.len() + 1 && #[trigger] txns_write(h.push(s)[k]@, x, v);
            if k < h.len() {
                assert(h.push(s)[k] == h[k]);
            }
        }
    }
}

/// Generates a history of `n_node` sessions, each of `n_transaction`
/// committed transactions of `n_event` random events over the variables
/// `0..n_variable`; the first session opens with a transaction that writes
/// version 0 of every variable. An event reads a variable (at most once per
/// transaction) or writes its next version; a read observes the version
/// most recently written before its transaction began.
pub fn generate_single_history(n_node: u64, n_variable: u64, n_transaction: u64, n_event: u64) -> (r: Vec<Session<u64, u64>>)
    requires
        n_variable > 0,
        n_node * n_transaction * n_event <= u64::MAX,
    ensures
        generated_shape(r@, n_node, n_variable, n_transaction, n_event),
        coherent(r@),
        unique_writes(r@),
        reads_latest(session_seqs(r@)),
{
    let mut counters: U64Map = u64_map_new();
    let mut latest_writes: U64Map = u64_map_new();
    let mut var: u64 = 0;
    while var < n_variable
        invariant
            0 <= var <= n_variable,
            forall|k: u64| #[trigger] u64_map_contents(latest_writes).dom().contains(k) <==> k < var,
            forall|k: u64| k < var ==> #[trigger] u64_map_contents(latest_writes)[k] == 0,
        decreases n_variable - var,
    {
        u64_map_insert(&mut latest_writes, var, 0);
        var = var + 1;
    }
    let mut rng = thread_rng();
    let mut out: Vec<Session<u64, u64>> = Vec::new();
    let ghost mut pos: Map<(u64, u64), (int, int, int)> = Map::new(
        |p: (u64, u64)| p.0 < n_variable && p.1 == 0,
        |p: (u64, u64)| (0int, 0int, p.0 as int),
    );
    let ghost mut total: int = 0;
    let mut node: u64 = 0;
    while node < n_node
        invariant
            0 <= node <= n_node,
            n_variable > 0,
            n_node * n_transaction * n_event <= u64::MAX,
            out@.len() == node,
            0 <= total <= node * n_transaction * n_event,
            forall|k: u64| #[trigger] u64_map_contents(latest_writes).dom().contains(k) <==> k < n_variable,
            forall|k: u64| #[trigger] u64_map_contents(counters).dom().contains(k) ==> u64_map_contents(counters)[k] <= total,
            node > 0 ==> forall|k: u64| k < n_variable ==> hist_writes(out@, k, #[trigger] u64_map_contents(latest_writes)[k]),
            node == 0 ==> forall|k: u64| k < n_variable ==> #[trigger] u64_map_contents(latest_writes)[k] == 0,
            generated_shape(out@, node, n_variable, n_transaction, n_event),
            coherent(out@),
            all_recorded(out@, Seq::empty(), Seq::empty(), pos, u64_map_contents(counters)),
            reads_latest(session_seqs(out@)),
            forall|k: u64| k < n_variable ==> #[trigger] u64_map_contents(latest_writes)[k] == issued(u64_map_contents(counters), k),
            node == 0 ==> forall|k: u64| k < n_variable ==> pos.dom().contains((k, 0u64)) && #[trigger] pos[(k, 0u64)] == (0int, 0int, k as int),
        decreases n_node - node,
    {
        let mut txns: Vec<Transaction<u64, u64>> = Vec::new();
        proof {
            lemma_latest_new_session(session_seqs(out@));
            assert(txns@ =~= Seq::<Transaction<u64, u64>>::empty());
        }
        if node == 0 {
            let mut events: Vec<Event<u64, u64>> = Vec::new();
            let mut k: u64 = 0;
            while k < n_variable
                invariant
                    0 <= k <= n_variable,
                    events@.len() == k,
                    forall|j: int| 0 <= j < k ==> #[trigger] events@[j] == (Event::<u64, u64>::Write { variable: j as u64, version: 0 }),
                decreases n_variable - k,
            {
                events.push(Event::write(k, 0));
                k = k + 1;
            }
            let init = Transaction { events, committed: true };
            proof {
                assert forall|k: u64| k < n_variable implies #[trigger] txn_writes(init, k, 0) by {
                    assert(init.events@[k as int] == (Event::<u64, u64>::Write { variable: k, version: 0 }));
                }
            }
            proof {
                assert(all_recorded(out@, Seq::empty(), init.events@, pos, u64_map_contents(counters))) by {
                    assert forall|e: int| 0 <= e < init.events@.len() implies write_recorded(#[trigger] init.events@[e], pos,
                        u64_map_contents(counters), (out@.len() as int, 0int, e)) by {
                        assert(pos[(e as u64, 0u64)] == (0int, 0int, e));
                    }
                }
                lemma_record_transaction(out@, Seq::empty(), init, pos, u64_map_contents(counters));
                assert(Seq::<Transaction<u64, u64>>::empty().push(init) == txns@.push(init));
            }
            let ghost hv_init = session_seqs(out@).push(txns@);
            txns.push(init);
            proof {
                assert forall|e: int| 0 <= e < init.events@.len() implies (#[trigger] init.events@[e] matches Event::Read { variable, version }
                    ==> (version matches Some(v) && latest_before(hv_init, hv_init.len() as int, 0, variable, v))) by {
                    assert(init.events@[e] == (Event::<u64, u64>::Write { variable: e as u64, version: 0 }));
                }
                lemma_latest_push_txn(hv_init, init);
                assert(session_seqs(out@).push(txns@) =~= hv_init.update(hv_init.len() - 1, hv_init[hv_init.len() - 1].push(init)));
                assert forall|k: u64| k < n_variable implies #[trigger] txns_write(txns@, k, 0) by {
                    assert(txn_writes(txns@[0], k, 0));
                }
            }
        }
        let ghost base: int = if node == 0 { 1int } else { 0int };
        let mut t: u64 = 0;
        while t < n_transaction
            invariant
                0 <= t <= n_transaction,
                0 <= node < n_node,
                n_variable > 0,
                n_node * n_transaction * n_event <= u64::MAX,
                base == (if node == 0 { 1int } else { 0int }),
                txns@.len() == base + t,
                0 <= total <= (node * n_transaction + t) * n_event,
                forall|k: u64| #[trigger] u64_map_contents(latest_writes).dom().contains(k) <==> k < n_variable,
                forall|k: u64| #[trigger] u64_map_contents(counters).dom().contains(k) ==> u64_map_contents(counters)[k] <= total,
                forall|k: u64| k < n_variable ==> hist_writes(out@, k, #[trigger] u64_map_contents(latest_writes)[k])
                    || txns_write(txns@, k, u64_map_contents(latest_writes)[k]),
                node == 0 ==> txns@[0].events@.len() == n_variable
                    && forall|k: int| 0 <= k < n_variable ==> #[trigger] txns@[0].events@[k] == (Event::<u64, u64>::Write { variable: k as u64, version: 0 }),
                forall|j: int| base <= j < txns@.len() ==> #[trigger] txns@[j].events@.len() == n_event,
                forall|j: int| 0 <= j < txns@.len() ==> #[trigger] txns@[j].committed,
                forall|j: int, e: int| 0 <= j < txns@.len() && 0 <= e < txns@[j].events@.len() ==> var_below(#[trigger] txns@[j].events@[e], n_variable),
                forall|j: int, e: int| 0 <= j < txns@.len() && 0 <= e < txns@[j].events@.len()
                    ==> read_backed(#[trigger] txns@[j].events@[e], |x: u64, v: u64| hist_writes(out@, x, v) || txns_write(txns@, x, v)),
                out@.len() == node,
                generated_shape(out@, node, n_variable, n_transaction, n_event),
                coherent(out@),
                all_recorded(out@, txns@, Seq::empty(), pos, u64_map_contents(counters)),
                reads_latest(session_seqs(out@).push(txns@)),
                forall|k: u64| k < n_variable ==> #[trigger] u64_map_contents(latest_writes)[k] == issued(u64_map_contents(counters), k),
            decreases n_transaction - t,
        {
            let readable = u64_map_clone(&latest_writes);
            proof {
                lemma_readable_latest(out@, txns@, pos, u64_map_contents(counters), u64_map_contents(readable), n_variable);
            }
            let mut read_vars = u64_set_new();
            let mut events: Vec<Event<u64, u64>> = Vec::new();
            let ghost total0 = total;
            let mut e: u64 = 0;
            while e < n_event
                invariant
                    0 <= e <= n_event,
                    0 <= node < n_node,
                    0 <= t < n_transaction,
                    n_variable > 0,
                    n_node * n_transaction * n_event <= u64::MAX,
                    events@.len() == e,
                    0 <= total0 <= (node * n_transaction + t) * n_event,
                    total0 <= total <= total0 + e,
                    u64_map_contents(readable).dom() == u64_map_contents(latest_writes).dom(),
                    forall|k: u64| #[trigger] u64_map_contents(latest_writes).dom().contains(k) <==> k < n_variable,
                    forall|k: u64| #[trigger] u64_map_contents(counters).dom().contains(k) ==> u64_map_contents(counters)[k] <= total,
                    forall|k: u64| k < n_variable ==> hist_writes(out@, k, #[trigger] u64_map_contents(readable)[k])
                        || txns_write(txns@, k, u64_map_contents(readable)[k]),
                    forall|k: u64| k < n_variable ==> hist_writes(out@, k, #[trigger] u64_map_contents(latest_writes)[k])
                        || txns_write(txns@, k, u64_map_contents(latest_writes)[k])
                        || exists|j: int| 0 <= j < events@.len() && events@[j] == (Event::<u64, u64>::Write { variable: k, version: u64_map_contents(latest_writes)[k] }),
                    forall|j: int| 0 <= j < events@.len() ==> var_below(#[trigger] events@[j], n_variable),
                    forall|j: int| 0 <= j < events@.len()
                        ==> read_backed(#[trigger] events@[j], |x: u64, v: u64| hist_writes(out@, x, v) || txns_write(txns@, x, v)),
                    all_recorded(out@, txns@, events@, pos, u64_map_contents(counters)),
                    forall|k: u64| k < n_variable ==> #[trigger] u64_map_contents(latest_writes)[k] == issued(u64_map_contents(counters), k),
                    forall|k: u64| k < n_variable ==> latest_before(session_seqs(out@).push(txns@), out@.len() + 1int, 0, k,
                        #[trigger] u64_map_contents(readable)[k]),
                    forall|j: int| 0 <= j < events@.len() ==> (#[trigger] events@[j] matches Event::Read { variable, version }
                        ==> (version matches Some(v) && latest_before(session_seqs(out@).push(txns@), out@.len() + 1int, 0, variable, v))),
                decreases n_event - e,
            {
                let variable = random_below(&mut rng, n_variable);
                let want_read = random_bool(&mut rng);
                let ghost ev0 = events@;
                if want_read && u64_set_insert(&mut read_vars, variable) {
                    let version = u64_map_get(&readable, variable).unwrap();
                    events.push(Event::read(variable, version));
                    proof {
                        assert(latest_before(session_seqs(out@).push(txns@), out@.len() + 1int, 0, variable, u64_map_contents(readable)[variable]));
                        lemma_record_event(out@, txns@, ev0, pos, u64_map_contents(counters), events@[events@.len() - 1]);
                        assert(ev0.push(events@[events@.len() - 1]) == events@);
                    }
                } else {
                    let current = match u64_map_get(&counters, variable) {
                        Some(c) => {
                            assert(u64_map_contents(counters).dom().contains(variable));
                            c
                        },
                        None => 0,
                    };
                    proof {
                        assert(current <= total);
                        assert(total + 1 <= node * n_transaction * n_event + t * n_event + e + 1) by (nonlinear_arith)
                            requires
                                total <= total0 + e,
                                total0 <= (node * n_transaction + t) * n_event;
                        assert((node * n_transaction + t) * n_event + e + 1 <= n_node * n_transaction * n_event) by (nonlinear_arith)
                            requires
                                node < n_node,
                                t < n_transaction,
                                e < n_event;
                    }
                    let version = current + 1;
                    proof {
                        let q = (out@.len() as int, txns@.len() as int, ev0.len() as int);
                        lemma_issue_version(out@, txns@, ev0, pos, u64_map_contents(counters), variable, current, q);
                        pos = pos.insert((variable, version), q);
                    }
                    u64_map_insert(&mut counters, variable, version);
                    u64_map_insert(&mut latest_writes, variable, version);
                    events.push(Event::write(variable, version));
                    proof {
                        total = total + 1;
                        assert(events@[events@.len() - 1] == (Event::<u64, u64>::Write { variable, version }));
                        lemma_record_event(out@, txns@, ev0, pos, u64_map_contents(counters), events@[events@.len() - 1]);
                        assert(ev0.push(events@[events@.len() - 1]) == events@);
                    }
                }
                proof {
                    assert forall|j: int| 0 <= j < events@.len() implies var_below(#[trigger] events@[j], n_variable) by {
                        if j < ev0.len() {
                            assert(events@[j] == ev0[j]);
                        }
                    }
                    assert forall|j: int| 0 <= j < events@.len() implies read_backed(#[trigger] events@[j],
                        |x: u64, v: u64| hist_writes(out@, x, v) || txns_write(txns@, x, v)) by {
                        if j < ev0.len() {
                            assert(events@[j] == ev0[j]);
                        }
                    }
                    assert forall|k: u64| k < n_variable implies hist_writes(out@, k, #[trigger] u64_map_contents(latest_writes)[k])
                        || txns_write(txns@, k, u64_map_contents(latest_writes)[k])
                        || exists|j: int| 0 <= j < events@.len() && events@[j] == (Event::<u64, u64>::Write { variable: k, version: u64_map_contents(latest_writes)[k] }) by {
                        if k != variable || events@[events@.len() - 1] is Read {
                            if exists|j: int| 0 <= j < ev0.len() && ev0[j] == (Event::<u64, u64>::Write { variable: k, version: u64_map_contents(latest_writes)[k] }) {
                                let j = choose|j: int| 0 <= j < ev0.len() && ev0[j] == (Event::<u64, u64>::Write { variable: k, version: u64_map_contents(latest_writes)[k] });
                                assert(events@[j] == ev0[j]);
                            }
                        } else {
                            assert(events@[events@.len() - 1] == (Event::<u64, u64>::Write { variable: k, version: u64_map_contents(latest_writes)[k] }));
                        }
                    }
                    assert forall|k: u64| #[trigger] u64_map_contents(counters).dom().contains(k) implies u64_map_contents(counters)[k] <= total by {}
                    assert forall|j: int| 0 <= j < events@.len() implies (#[trigger] events@[j] matches Event::Read { variable, version }
                        ==> (version matches Some(v) && latest_before(session_seqs(out@).push(txns@), out@.len() + 1int, 0, variable, v))) by {
                        if j < ev0.len() {
                            assert(events@[j] == ev0[j]);
                        }
                    }
                }
                e = e + 1;
            }
            let txn = Transaction { events, committed: true };
            let ghost tx0 = txns@;
            let ghost hv_t = session_seqs(out@).push(tx0);
            txns.push(txn);
            proof {
                lemma_latest_push_txn(hv_t, txn);
                assert(session_seqs(out@).push(txns@) =~= hv_t.update(hv_t.len() - 1, hv_t[hv_t.len() - 1].push(txn)));
                lemma_record_transaction(out@, tx0, txn, pos, u64_map_contents(counters));
                lemma_txns_write_push(tx0, txn);
                assert(total <= (node * n_transaction + (t + 1)) * n_event) by (nonlinear_arith)
                    requires
                        total <= total0 + n_event,
                        total0 <= (node * n_transaction + t) * n_event;
                assert forall|k: u64| k < n_variable implies hist_writes(out@, k, #[trigger] u64_map_contents(latest_writes)[k])
                    || txns_write(txns@, k, u64_map_contents(latest_writes)[k]) by {
                    let v = u64_map_contents(latest_writes)[k];
                    if exists|j: int| 0 <= j < txn.events@.len() && txn.events@[j] == (Event::<u64, u64>::Write { variable: k, version: v }) {
                        assert(txn_writes(txn, k, v));
                    }
                }
                assert forall|j: int| base <= j < txns@.len() implies #[trigger] txns@[j].events@.len() == n_event by {
                    if j < tx0.len() {
                        assert(txns@[j] == tx0[j]);
                    }
                }
                assert forall|j: int| 0 <= j < txns@.len() implies #[trigger] txns@[j].committed by {
                    if j < tx0.len() {
                        assert(txns@[j] == tx0[j]);
                    }
                }
                assert forall|j: int, e: int| 0 <= j < txns@.len() && 0 <= e < txns@[j].events@.len()
                    implies var_below(#[trigger] txns@[j].events@[e], n_variable) by {
                    if j < tx0.len() {
                        assert(txns@[j] == tx0[j]);
                    }
                }
                assert forall|j: int, e: int| 0 <= j < txns@.len() && 0 <= e < txns@[j].events@.len()
                    implies read_backed(#[trigger] txns@[j].events@[e], |x: u64, v: u64| hist_writes(out@, x, v) || txns_write(txns@, x, v)) by {
                    if j < tx0.len() {
                        assert(txns@[j] == tx0[j]);
                        assert(read_backed(tx0[j].events@[e], |x: u64, v: u64| hist_writes(out@, x, v) || txns_write(tx0, x, v)));
                    } else {
                        assert(read_backed(txn.events@[e], |x: u64, v: u64| hist_writes(out@, x, v) || txns_write(tx0, x, v)));
                    }
                }
                if node == 0 {
                    assert(txns@[0] == tx0[0]);
                }
            }
            t = t + 1;
        }
        let ghost o0 = out@;
        let ghost session_view = txns@;
        out.push(txns);
        proof {
            lemma_hist_writes_push(o0, out@[node as int]);
            assert(out@[node as int]@ == session_view);
            lemma_record_session(o0, out@[node as int], pos, u64_map_contents(counters));
            assert(o0.push(out@[node as int]) == out@);
            assert(session_seqs(out@) =~= session_seqs(o0).push(session_view));
            assert(total <= (node + 1) * n_transaction * n_event) by (nonlinear_arith)
                requires
                    total <= (node * n_transaction + n_transaction) * n_event;
            assert forall|k: u64| k < n_variable implies hist_writes(out@, k, #[trigger] u64_map_contents(latest_writes)[k]) by {}
            assert forall|s: int| 0 <= s < out@.len() implies #[trigger] out@[s]@.len() == n_transaction + (if s == 0 { 1int } else { 0int }) by {
                if s < o0.len() {
                    assert(out@[s] == o0[s]);
                }
            }
            assert forall|s: int, j: int| 0 <= s < out@.len() && 0 <= j < out@[s]@.len() && !(s == 0 && j == 0)
                implies #[trigger] out@[s]@[j].events@.len() == n_event by {
                if s < o0.len() {
                    assert(out@[s] == o0[s]);
                }
            }
            assert forall|s: int, j: int| 0 <= s < out@.len() && 0 <= j < out@[s]@.len() implies #[trigger] out@[s]@[j].committed by {
                if s < o0.len() {
                    assert(out@[s] == o0[s]);
                }
            }
            assert forall|s: int, j: int, e: int| 0 <= s < out@.len() && 0 <= j < out@[s]@.len() && 0 <= e < out@[s]@[j].events@.len()
                implies var_below(#[trigger] out@[s]@[j].events@[e], n_variable) by {
                if s < o0.len() {
                    assert(out@[s] == o0[s]);
                }
            }
            assert forall|s: int, j: int, e: int| 0 <= s < out@.len() && 0 <= j < out@[s]@.len() && 0 <= e < out@[s]@[j].events@.len()
                implies read_backed(#[trigger] out@[s]@[j].events@[e], |x: u64, v: u64| hist_writes(out@, x, v)) by {
                if s < o0.len() {
                    assert(out@[s] == o0[s]);
                    assert(read_backed(o0[s]@[j].events@[e], |x: u64, v: u64| hist_writes(o0, x, v)));
                } else {
                    assert(read_backed(session_view[j].events@[e], |x: u64, v: u64| hist_writes(o0, x, v) || txns_write(session_view, x, v)));
                }
            }
            if node == 0 {
                assert(out@[0]@ == session_view);
            } else {
                assert(out@[0] == o0[0]);
            }
        }
        node = node + 1;
    }
    proof {
        lemma_recorded_unique(out@, pos, u64_map_contents(counters));
    }
    out
}

} // verus!
