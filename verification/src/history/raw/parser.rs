//! The parser of the compact history text form.
//!
//! Grammar:
//! ```text
//! history      = session (separator session)*
//! separator    = WHITESPACE? DASH+ WHITESPACE? NEWLINE
//! session      = (comment | blank_line | session_line)*
//! comment      = "//" REST_OF_LINE NEWLINE
//! blank_line   = WHITESPACE? NEWLINE
//! session_line = WHITESPACE? transaction (WHITESPACE transaction)* WHITESPACE? NEWLINE
//! transaction  = "[" event (WHITESPACE event)* "]" "!"?
//! event        = variable ":=" version   -- write
//!              | variable "==?"          -- read of the initial value
//!              | variable "==" version   -- read
//! variable     = (alphanumeric | "_")+
//! version      = DIGIT+                  -- fits in a u64
//! ```
//!
//! A session ends where a line starts, after blanks, with `-`, or where only
//! blanks are left. A newline is a single `\n`.
use vstd::prelude::*;
use vstd::string::StringExecFns;
use vstd::string::StringSliceAdditionalSpecFns;

use crate::history::raw::types::{Event, Session, Transaction};
use crate::label::Label;

verus! {

/// Whether `c` is alphabetic or numeric in the Unicode sense.
pub uninterp spec fn alphanumeric(c: char) -> bool;

/// An ASCII letter or digit.
pub open spec fn ascii_alphanumeric(c: char) -> bool {
    ('a' <= c <= 'z') || ('A' <= c <= 'Z') || ('0' <= c <= '9')
}

/// `char::is_alphanumeric`: whether `c` is alphabetic or numeric.
#[verifier::external_body]
fn is_alphanumeric(c: char) -> (r: bool)
    ensures
        r == alphanumeric(c),
{
    c.is_alphanumeric()
}

/// `String::push`: appends a character.
#[verifier::external_body]
fn string_push(s: &mut String, c: char)
    ensures
        final(s)@ == old(s)@.push(c),
{
    s.push(c)
}

/// The characters of a text.
fn chars_of(s: &str) -> (r: Vec<char>)
    ensures
        r@ == s@,
{
    let mut out: Vec<char> = Vec::new();
    for c in it: s.chars()
        invariant
            out@ == it.seq().take(it.index() as int),
    {
        out.push(c);
    }
    proof {
        broadcast use vstd::string::axiom_spec_iter;
    }
    out
}

// ---------------------------------------------------------------------------
// The grammar, over characters
// ---------------------------------------------------------------------------

/// The character classes of the parser: blanks, variable characters, ASCII
/// digits, dashes, and characters of a comment (neither `\r` nor `\n`).
pub open spec fn char_class(k: u8) -> spec_fn(char) -> bool {
    |ch: char| if k == 0 { ch == ' ' || ch == '\t' } else if k == 1 { var_char(ch) }
        else if k == 2 { '0' <= ch <= '9' } else if k == 3 { ch == '-' } else { ch != '\r' && ch != '\n' }
}

/// A character of a variable name: alphanumeric or `_`. An ASCII character
/// is alphanumeric when it is a letter or a digit.
pub open spec fn var_char(ch: char) -> bool {
    if (ch as u32) < 128 { ascii_alphanumeric(ch) || ch == '_' } else { alphanumeric(ch) }
}

/// The number of characters from `i` on that satisfy `p`.
pub open spec fn run(c: Seq<char>, i: int, p: spec_fn(char) -> bool) -> nat
    decreases c.len() - i,
{
    if 0 <= i < c.len() && p(c[i]) {
        1 + run(c, i + 1, p)
    } else {
        0
    }
}

/// The character at `i` is `ch`.
pub open spec fn at(c: Seq<char>, i: int, ch: char) -> bool {
    0 <= i < c.len() && c[i] == ch
}

/// The value of the decimal digits `c[i..j]`.
pub open spec fn digits_value(c: Seq<char>, i: int, j: int) -> int
    decreases j - i,
{
    if j <= i {
        0
    } else {
        digits_value(c, i, j - 1) * 10 + (c[j - 1] as int - 48)
    }
}

/// A version at `i`: its value and the position after it.
pub open spec fn version_at(c: Seq<char>, i: int) -> Option<(u64, int)> {
    let d = run(c, i, char_class(2));
    if d == 0 || digits_value(c, i, i + d) > u64::MAX {
        None
    } else {
        Some((digits_value(c, i, i + d) as u64, i + d))
    }
}

/// An event: whether it writes, its variable, and its version (`None` for a
/// read of the initial value).
pub type EventV = (bool, Seq<char>, Option<u64>);

/// A transaction: its events and whether it committed.
pub type TxnV = (Seq<EventV>, bool);

/// An event at `i`, and the position after it.
pub open spec fn event_at(c: Seq<char>, i: int) -> Option<(EventV, int)> {
    let v = run(c, i, char_class(1));
    let j = i + v;
    let name = c.subrange(i, j);
    if v == 0 {
        None
    } else if at(c, j, ':') && at(c, j + 1, '=') {
        match version_at(c, j + 2) {
            Some((n, k)) => Some(((true, name, Some(n)), k)),
            None => None,
        }
    } else if at(c, j, '=') && at(c, j + 1, '=') && at(c, j + 2, '?') {
        Some(((false, name, None), j + 3))
    } else if at(c, j, '=') && at(c, j + 1, '=') {
        match version_at(c, j + 2) {
            Some((n, k)) => Some(((false, name, Some(n)), k)),
            None => None,
        }
    } else {
        None
    }
}

/// The events after the first one of a transaction, from `j`: each after
/// blanks; stops, before the blanks, where no event follows.
pub open spec fn events_tail(c: Seq<char>, j: int) -> (Seq<EventV>, int)
    decreases c.len() - j,
{
    let w = run(c, j, char_class(0));
    if w == 0 {
        (Seq::empty(), j)
    } else {
        match event_at(c, j + w) {
            Some((e, k)) => if j < k <= c.len() {
                let (rest, m) = events_tail(c, k);
                (seq![e] + rest, m)
            } else {
                (Seq::empty(), j)
            },
            None => (Seq::empty(), j),
        }
    }
}

/// A transaction at `i`, and the position after it.
pub open spec fn txn_at(c: Seq<char>, i: int) -> Option<(TxnV, int)> {
    if !at(c, i, '[') {
        None
    } else {
        match event_at(c, i + 1) {
            None => None,
            Some((e, j)) => {
                let (rest, k) = events_tail(c, j);
                if !at(c, k, ']') {
                    None
                } else if at(c, k + 1, '!') {
                    Some(((seq![e] + rest, false), k + 2))
                } else {
                    Some(((seq![e] + rest, true), k + 1))
                }
            },
        }
    }
}

/// The transactions after the first one of a line, from `j`: each after
/// blanks; stops, before the blanks, where no transaction follows.
pub open spec fn txns_tail(c: Seq<char>, j: int) -> (Seq<TxnV>, int)
    decreases c.len() - j,
{
    let w = run(c, j, char_class(0));
    if w == 0 {
        (Seq::empty(), j)
    } else {
        match txn_at(c, j + w) {
            Some((t, k)) => if j < k <= c.len() {
                let (rest, m) = txns_tail(c, k);
                (seq![t] + rest, m)
            } else {
                (Seq::empty(), j)
            },
            None => (Seq::empty(), j),
        }
    }
}

/// A comment line at `i`: `//`, characters other than `\r` and `\n`, then
/// `\n`; the position after it.
pub open spec fn comment_at(c: Seq<char>, i: int) -> Option<int> {
    let k = i + 2 + run(c, i + 2, char_class(4));
    if at(c, i, '/') && at(c, i + 1, '/') && at(c, k, '\n') { Some(k + 1) } else { None }
}

/// A blank line at `i`: blanks, then `\n`; the position after it.
pub open spec fn blank_at(c: Seq<char>, i: int) -> Option<int> {
    let k = i + run(c, i, char_class(0));
    if at(c, k, '\n') { Some(k + 1) } else { None }
}

/// A line of transactions at `i`, and the position after it.
pub open spec fn txn_line_at(c: Seq<char>, i: int) -> Option<(Seq<TxnV>, int)> {
    match txn_at(c, i + run(c, i, char_class(0))) {
        None => None,
        Some((t, j)) => {
            let (rest, k) = txns_tail(c, j);
            let l = k + run(c, k, char_class(0));
            if at(c, l, '\n') { Some((seq![t] + rest, l + 1)) } else { None }
        },
    }
}

/// An item of a session at `i`: a comment, a blank line or a line of
/// transactions; its transactions and the position after it.
pub open spec fn item_at(c: Seq<char>, i: int) -> Option<(Seq<TxnV>, int)> {
    match comment_at(c, i) {
        Some(e) => Some((Seq::empty(), e)),
        None => match blank_at(c, i) {
            Some(e) => Some((Seq::empty(), e)),
            None => txn_line_at(c, i),
        },
    }
}

/// A session from `i`: items until a line that starts, after blanks, with
/// `-`, or until only blanks are left. `Err` holds where an item fails.
pub open spec fn session_from(c: Seq<char>, i: int) -> Result<(Seq<TxnV>, int), int>
    decreases c.len() - i,
{
    let w = run(c, i, char_class(0));
    if i + w >= c.len() || c[i + w] == '-' {
        Ok((Seq::empty(), i))
    } else {
        match item_at(c, i) {
            None => Err(i),
            Some((ts, j)) => if i < j <= c.len() {
                match session_from(c, j) {
                    Ok((rest, k)) => Ok((ts + rest, k)),
                    Err(p) => Err(p),
                }
            } else {
                Err(i)
            },
        }
    }
}

/// A separator line at `i`: the position after it, or `Err` with the
/// position where it fails.
pub open spec fn separator_at(c: Seq<char>, i: int) -> Result<int, int> {
    let j = i + run(c, i, char_class(0));
    let d = run(c, j, char_class(3));
    let k = j + d + run(c, j + d, char_class(0));
    if d == 0 {
        Err(j)
    } else if at(c, k, '\n') {
        Ok(k + 1)
    } else {
        Err(k)
    }
}

/// The sessions that follow separators from `i`, and the position where
/// the next separator fails; `Err` where a session fails.
pub open spec fn sessions_from(c: Seq<char>, i: int) -> Result<(Seq<Seq<TxnV>>, int), int>
    decreases c.len() - i,
{
    match separator_at(c, i) {
        Err(p) => Ok((Seq::empty(), p)),
        Ok(j) => match session_from(c, j) {
            Err(q) => Err(q),
            Ok((s, k)) => if i < k <= c.len() {
                match sessions_from(c, k) {
                    Ok((rest, m)) => Ok((seq![s] + rest, m)),
                    Err(q) => Err(q),
                }
            } else {
                Ok((seq![s], k))
            },
        },
    }
}

/// The position after the blank lines from `i`.
pub open spec fn after_blank_lines(c: Seq<char>, i: int) -> int
    decreases c.len() - i,
{
    match blank_at(c, i) {
        Some(e) => if i < e <= c.len() { after_blank_lines(c, e) } else { i },
        None => i,
    }
}

/// The sessions of a history text, or the position where parsing fails.
#[verifier::opaque]
pub open spec fn history_of(c: Seq<char>) -> Result<Seq<Seq<TxnV>>, int> {
    match session_from(c, 0) {
        Err(p) => Err(p),
        Ok((first, i)) => match sessions_from(c, i) {
            Err(p) => Err(p),
            Ok((rest, p)) => {
                let q = after_blank_lines(c, p);
                if q == c.len() { Ok(seq![first] + rest) } else { Err(q) }
            },
        },
    }
}

// ---------------------------------------------------------------------------
// The parser
// ---------------------------------------------------------------------------

/// The view of an event of a parsed history.
pub open spec fn event_view(e: Event<String, u64>) -> EventV {
    match e {
        Event::Write { variable, version } => (true, variable@, Some(version)),
        Event::Read { variable, version } => (false, variable@, version),
    }
}

/// The views of events.
pub open spec fn event_views(es: Seq<Event<String, u64>>) -> Seq<EventV> {
    es.map_values(|e: Event<String, u64>| event_view(e))
}

/// The view of a transaction of a parsed history.
pub open spec fn txn_view(t: Transaction<String, u64>) -> TxnV {
    (event_views(t.events@), t.committed)
}

/// The views of transactions.
pub open spec fn txn_views(ts: Seq<Transaction<String, u64>>) -> Seq<TxnV> {
    ts.map_values(|t: Transaction<String, u64>| txn_view(t))
}

/// The views of sessions.
pub open spec fn session_views(ss: Seq<Session<String, u64>>) -> Seq<Seq<TxnV>> {
    ss.map_values(|s: Session<String, u64>| txn_views(s@))
}

/// Whether `ch` is of class `k`.
fn in_char_class(k: u8, ch: char) -> (r: bool)
    ensures
        r == (char_class(k))(ch),
{
    if k == 0 {
        ch == ' ' || ch == '\t'
    } else if k == 1 {
        if (ch as u32) < 128 {
            ('a' <= ch && ch <= 'z') || ('A' <= ch && ch <= 'Z') || ('0' <= ch && ch <= '9') || ch == '_'
        } else {
            is_alphanumeric(ch)
        }
    } else if k == 2 {
        '0' <= ch && ch <= '9'
    } else if k == 3 {
        ch == '-'
    } else {
        ch != '\r' && ch != '\n'
    }
}

/// The position after the characters of class `k` from `i` on.
fn run_exec(c: &Vec<char>, i: usize, k: u8) -> (e: usize)
    requires
        i <= c@.len(),
    ensures
        e == i + run(c@, i as int, char_class(k)),
        e <= c@.len(),
{
    let mut j = i;
    while j < c.len() && in_char_class(k, c[j])
        invariant
            i <= j <= c@.len(),
            run(c@, i as int, char_class(k)) == (j - i) + run(c@, j as int, char_class(k)),
        decreases c@.len() - j,
    {
        j = j + 1;
    }
    j
}

/// Whether the character at `i` is `ch`.
fn at_exec(c: &Vec<char>, i: usize, ch: char) -> (r: bool)
    ensures
        r == at(c@, i as int, ch),
{
    i < c.len() && c[i] == ch
}

/// A longer string of digits is worth at least as much.
proof fn lemma_digits_grow(c: Seq<char>, i: int, j: int)
    requires
        i <= j < c.len(),
        forall|k: int| i <= k <= j ==> '0' <= #[trigger] c[k] <= '9',
    ensures
        digits_value(c, i, j + 1) >= digits_value(c, i, j) >= 0,
    decreases j - i,
{
    if j > i {
        lemma_digits_grow(c, i, j - 1);
    }
}

/// The digits of a run are digits.
proof fn lemma_run_class(c: Seq<char>, i: int, k: u8, m: int)
    requires
        0 <= i,
        i <= m < i + run(c, i, char_class(k)),
    ensures
        m < c.len(),
        (char_class(k))(c[m]),
    decreases m - i,
{
    if m > i {
        lemma_run_class(c, i + 1, k, m);
    }
}

/// The version at `i`, as `version_at` says.
fn version_exec(c: &Vec<char>, i: usize) -> (r: Option<(u64, usize)>)
    requires
        i <= c@.len(),
    ensures
        r is Some == version_at(c@, i as int) is Some,
        r matches Some((n, k)) ==> version_at(c@, i as int) == Some((n, k as int)) && i < k <= c@.len(),
{
    let e = run_exec(c, i, 2);
    if e == i {
        return None;
    }
    let mut value: u64 = 0;
    let mut overflow = false;
    let mut j = i;
    while j < e
        invariant
            i <= j <= e <= c@.len(),
            e == i + run(c@, i as int, char_class(2)),
            !overflow ==> value == digits_value(c@, i as int, j as int),
            overflow ==> digits_value(c@, i as int, j as int) > u64::MAX,
            digits_value(c@, i as int, j as int) >= 0,
        decreases e - j,
    {
        proof {
            assert forall|k: int| i <= k <= j implies '0' <= #[trigger] c@[k] <= '9' by {
                lemma_run_class(c@, i as int, 2, k);
            }
            lemma_digits_grow(c@, i as int, j as int);
        }
        let d = (c[j] as u32 - 48) as u64;
        if !overflow {
            match value.checked_mul(10) {
                None => {
                    overflow = true;
                },
                Some(v10) => match v10.checked_add(d) {
                    None => {
                        overflow = true;
                    },
                    Some(v) => {
                        value = v;
                    },
                },
            }
        }
        j = j + 1;
    }
    if overflow {
        None
    } else {
        Some((value, e))
    }
}

/// The string of the characters `c[i..j]`.
fn string_of(c: &Vec<char>, i: usize, j: usize) -> (r: String)
    requires
        i <= j <= c@.len(),
    ensures
        r@ == c@.subrange(i as int, j as int),
{
    let mut s = String::new();
    let mut k = i;
    while k < j
        invariant
            i <= k <= j <= c@.len(),
            s@ == c@.subrange(i as int, k as int),
        decreases j - k,
    {
        string_push(&mut s, c[k]);
        assert(s@ =~= c@.subrange(i as int, k + 1));
        k = k + 1;
    }
    s
}

/// The event at `i`, as `event_at` says.
fn event_exec(c: &Vec<char>, i: usize) -> (r: Option<(Event<String, u64>, usize)>)
    requires
        i <= c@.len(),
        c@.len() < usize::MAX,
    ensures
        r is Some == event_at(c@, i as int) is Some,
        r matches Some((e, k)) ==> event_at(c@, i as int) == Some((event_view(e), k as int)) && i < k <= c@.len(),
{
    let j = run_exec(c, i, 1);
    if j == i {
        return None;
    }
    if at_exec(c, j, ':') && at_exec(c, j + 1, '=') {
        match version_exec(c, j + 2) {
            Some((n, k)) => Some((Event::Write { variable: string_of(c, i, j), version: n }, k)),
            None => None,
        }
    } else if at_exec(c, j, '=') && at_exec(c, j + 1, '=') && at_exec(c, j + 2, '?') {
        Some((Event::Read { variable: string_of(c, i, j), version: None }, j + 3))
    } else if at_exec(c, j, '=') && at_exec(c, j + 1, '=') {
        match version_exec(c, j + 2) {
            Some((n, k)) => Some((Event::Read { variable: string_of(c, i, j), version: Some(n) }, k)),
            None => None,
        }
    } else {
        None
    }
}

/// The events after the first one of a transaction, as `events_tail` says.
fn events_tail_exec(c: &Vec<char>, j0: usize) -> (r: (Vec<Event<String, u64>>, usize))
    requires
        j0 <= c@.len(),
        c@.len() < usize::MAX,
    ensures
        event_views(r.0@) == events_tail(c@, j0 as int).0,
        r.1 == events_tail(c@, j0 as int).1,
        j0 <= r.1 <= c@.len(),
{
    let mut acc: Vec<Event<String, u64>> = Vec::new();
    let mut j = j0;
    loop
        invariant
            j0 <= j <= c@.len(),
            c@.len() < usize::MAX,
            events_tail(c@, j0 as int).0 == event_views(acc@) + events_tail(c@, j as int).0,
            events_tail(c@, j0 as int).1 == events_tail(c@, j as int).1,
        ensures
            j0 <= j <= c@.len(),
            events_tail(c@, j0 as int).0 == event_views(acc@),
            events_tail(c@, j0 as int).1 == j,
        decreases c@.len() - j,
    {
        let w = run_exec(c, j, 0);
        if w == j {
            assert(events_tail(c@, j as int).0 =~= Seq::<EventV>::empty());
            assert(events_tail(c@, j as int).1 == j);
            assert(event_views(acc@) + Seq::<EventV>::empty() =~= event_views(acc@));
            break;
        }
        match event_exec(c, w) {
            None => {
                assert(events_tail(c@, j as int).0 =~= Seq::<EventV>::empty());
                assert(events_tail(c@, j as int).1 == j);
            assert(events_tail(c@, j as int).1 == j);
                assert(event_views(acc@) + Seq::<EventV>::empty() =~= event_views(acc@));
                break;
            },
            Some((e, k)) => {
                let ghost before = acc@;
                acc.push(e);
                proof {
                    assert(event_views(acc@) =~= event_views(before).push(event_view(e)));
                    assert(event_views(acc@) + events_tail(c@, k as int).0 =~= event_views(before) + events_tail(c@, j as int).0);
                }
                j = k;
            },
        }
    }
    (acc, j)
}

/// The transaction at `i`, as `txn_at` says.
fn txn_exec(c: &Vec<char>, i: usize) -> (r: Option<(Transaction<String, u64>, usize)>)
    requires
        i <= c@.len(),
        c@.len() < usize::MAX,
    ensures
        r is Some == txn_at(c@, i as int) is Some,
        r matches Some((t, k)) ==> txn_at(c@, i as int) == Some((txn_view(t), k as int)) && i < k <= c@.len(),
{
    if !at_exec(c, i, '[') {
        return None;
    }
    match event_exec(c, i + 1) {
        None => None,
        Some((e, j)) => {
            let (rest, k) = events_tail_exec(c, j);
            let mut events: Vec<Event<String, u64>> = Vec::new();
            events.push(e);
            let mut rest = rest;
            let ghost rv = event_views(rest@);
            events.append(&mut rest);
            proof {
                assert(event_views(events@) =~= seq![event_view(e)] + rv);
            }
            if !at_exec(c, k, ']') {
                None
            } else if at_exec(c, k + 1, '!') {
                Some((Transaction { events, committed: false }, k + 2))
            } else {
                Some((Transaction { events, committed: true }, k + 1))
            }
        },
    }
}

/// The transactions after the first one of a line, as `txns_tail` says.
fn txns_tail_exec(c: &Vec<char>, j0: usize) -> (r: (Vec<Transaction<String, u64>>, usize))
    requires
        j0 <= c@.len(),
        c@.len() < usize::MAX,
    ensures
        txn_views(r.0@) == txns_tail(c@, j0 as int).0,
        r.1 == txns_tail(c@, j0 as int).1,
        j0 <= r.1 <= c@.len(),
{
    let mut acc: Vec<Transaction<String, u64>> = Vec::new();
    let mut j = j0;
    loop
        invariant
            j0 <= j <= c@.len(),
            c@.len() < usize::MAX,
            txns_tail(c@, j0 as int).0 == txn_views(acc@) + txns_tail(c@, j as int).0,
            txns_tail(c@, j0 as int).1 == txns_tail(c@, j as int).1,
        ensures
            j0 <= j <= c@.len(),
            txns_tail(c@, j0 as int).0 == txn_views(acc@),
            txns_tail(c@, j0 as int).1 == j,
        decreases c@.len() - j,
    {
        let w = run_exec(c, j, 0);
        if w == j {
            assert(txns_tail(c@, j as int).0 =~= Seq::<TxnV>::empty());
            assert(txns_tail(c@, j as int).1 == j);
            assert(txn_views(acc@) + Seq::<TxnV>::empty() =~= txn_views(acc@));
            break;
        }
        match txn_exec(c, w) {
            None => {
                assert(txns_tail(c@, j as int).0 =~= Seq::<TxnV>::empty());
                assert(txns_tail(c@, j as int).1 == j);
            assert(txns_tail(c@, j as int).1 == j);
                assert(txn_views(acc@) + Seq::<TxnV>::empty() =~= txn_views(acc@));
                break;
            },
            Some((t, k)) => {
                let ghost before = acc@;
                acc.push(t);
                proof {
                    assert(txn_views(acc@) =~= txn_views(before).push(txn_view(t)));
                    assert(txn_views(acc@) + txns_tail(c@, k as int).0 =~= txn_views(before) + txns_tail(c@, j as int).0);
                }
                j = k;
            },
        }
    }
    (acc, j)
}

/// The item of a session at `i`, as `item_at` says.
fn item_exec(c: &Vec<char>, i: usize) -> (r: Option<(Vec<Transaction<String, u64>>, usize)>)
    requires
        i <= c@.len(),
        c@.len() < usize::MAX,
    ensures
        r is Some == item_at(c@, i as int) is Some,
        r matches Some((ts, k)) ==> item_at(c@, i as int) == Some((txn_views(ts@), k as int)) && i < k <= c@.len(),
{
    // a comment line
    if at_exec(c, i, '/') && at_exec(c, i + 1, '/') {
        let k = run_exec(c, i + 2, 4);
        if at_exec(c, k, '\n') {
            let empty: Vec<Transaction<String, u64>> = Vec::new();
            assert(txn_views(empty@) =~= Seq::<TxnV>::empty());
            return Some((empty, k + 1));
        }
    }
    // a blank line
    let k = run_exec(c, i, 0);
    if at_exec(c, k, '\n') {
        let empty: Vec<Transaction<String, u64>> = Vec::new();
        assert(txn_views(empty@) =~= Seq::<TxnV>::empty());
        return Some((empty, k + 1));
    }
    // a line of transactions
    match txn_exec(c, k) {
        None => None,
        Some((t, j)) => {
            let (rest, m) = txns_tail_exec(c, j);
            let l = run_exec(c, m, 0);
            if at_exec(c, l, '\n') {
                let mut ts: Vec<Transaction<String, u64>> = Vec::new();
                ts.push(t);
                let mut rest = rest;
                let ghost rv = txn_views(rest@);
                ts.append(&mut rest);
                proof {
                    assert(txn_views(ts@) =~= seq![txn_view(t)] + rv);
                }
                Some((ts, l + 1))
            } else {
                None
            }
        },
    }
}

/// A session result, with `acc` before its transactions.
pub open spec fn prepend_txns(acc: Seq<TxnV>, r: Result<(Seq<TxnV>, int), int>) -> Result<(Seq<TxnV>, int), int> {
    match r {
        Ok((rest, k)) => Ok((acc + rest, k)),
        Err(p) => Err(p),
    }
}

/// The view of a session result.
pub open spec fn session_result_view(r: Result<(Vec<Transaction<String, u64>>, usize), usize>) -> Result<(Seq<TxnV>, int), int> {
    match r {
        Ok((ts, k)) => Ok((txn_views(ts@), k as int)),
        Err(p) => Err(p as int),
    }
}

/// The session from `i0`, as `session_from` says.
fn session_exec(c: &Vec<char>, i0: usize) -> (r: Result<(Vec<Transaction<String, u64>>, usize), usize>)
    requires
        i0 <= c@.len(),
        c@.len() < usize::MAX,
    ensures
        session_result_view(r) == session_from(c@, i0 as int),
        r matches Ok((ts, k)) ==> i0 <= k <= c@.len(),
        r matches Err(p) ==> p <= c@.len(),
{
    let mut acc: Vec<Transaction<String, u64>> = Vec::new();
    let mut i = i0;
    loop
        invariant
            i0 <= i <= c@.len(),
            c@.len() < usize::MAX,
            session_from(c@, i0 as int) == prepend_txns(txn_views(acc@), session_from(c@, i as int)),
        decreases c@.len() - i,
    {
        let w = run_exec(c, i, 0);
        if w >= c.len() || c[w] == '-' {
            proof {
                assert(session_from(c@, i as int) == Ok::<(Seq<TxnV>, int), int>((Seq::empty(), i as int)));
                assert(txn_views(acc@) + Seq::<TxnV>::empty() =~= txn_views(acc@));
            }
            return Ok((acc, i));
        }
        match item_exec(c, i) {
            None => {
                return Err(i);
            },
            Some((ts, j)) => {
                let ghost before = acc@;
                let ghost tv = txn_views(ts@);
                let mut ts = ts;
                acc.append(&mut ts);
                proof {
                    assert(txn_views(acc@) =~= txn_views(before) + tv);
                    match session_from(c@, j as int) {
                        Ok((rest, k)) => {
                            assert(txn_views(acc@) + rest =~= txn_views(before) + (tv + rest));
                        },
                        Err(p) => {},
                    }
                }
                i = j;
            },
        }
    }
}

/// The view of a separator result.
pub open spec fn position_result_view(r: Result<usize, usize>) -> Result<int, int> {
    match r {
        Ok(k) => Ok(k as int),
        Err(p) => Err(p as int),
    }
}

/// The separator at `i`, as `separator_at` says.
fn separator_exec(c: &Vec<char>, i: usize) -> (r: Result<usize, usize>)
    requires
        i <= c@.len(),
        c@.len() < usize::MAX,
    ensures
        position_result_view(r) == separator_at(c@, i as int),
        r matches Ok(k) ==> i < k <= c@.len(),
        r matches Err(p) ==> i <= p <= c@.len(),
{
    let j = run_exec(c, i, 0);
    let d = run_exec(c, j, 3);
    let k = run_exec(c, d, 0);
    if d == j {
        Err(j)
    } else if at_exec(c, k, '\n') {
        Ok(k + 1)
    } else {
        Err(k)
    }
}

/// A result of sessions, with `acc` before its sessions.
pub open spec fn prepend_sessions(acc: Seq<Seq<TxnV>>, r: Result<(Seq<Seq<TxnV>>, int), int>) -> Result<(Seq<Seq<TxnV>>, int), int> {
    match r {
        Ok((rest, k)) => Ok((acc + rest, k)),
        Err(p) => Err(p),
    }
}

/// The view of a result of sessions.
pub open spec fn sessions_result_view(r: Result<(Vec<Session<String, u64>>, usize), usize>) -> Result<(Seq<Seq<TxnV>>, int), int> {
    match r {
        Ok((ss, k)) => Ok((session_views(ss@), k as int)),
        Err(p) => Err(p as int),
    }
}

/// The sessions after separators from `i0`, as `sessions_from` says.
fn sessions_exec(c: &Vec<char>, i0: usize) -> (r: Result<(Vec<Session<String, u64>>, usize), usize>)
    requires
        i0 <= c@.len(),
        c@.len() < usize::MAX,
    ensures
        sessions_result_view(r) == sessions_from(c@, i0 as int),
        r matches Ok((ss, k)) ==> k <= c@.len(),
        r matches Err(p) ==> p <= c@.len(),
{
    let mut acc: Vec<Session<String, u64>> = Vec::new();
    let mut i = i0;
    loop
        invariant
            i0 <= i <= c@.len(),
            c@.len() < usize::MAX,
            sessions_from(c@, i0 as int) == prepend_sessions(session_views(acc@), sessions_from(c@, i as int)),
        decreases c@.len() - i,
    {
        match separator_exec(c, i) {
            Err(p) => {
                proof {
                    assert(sessions_from(c@, i as int) == Ok::<(Seq<Seq<TxnV>>, int), int>((Seq::empty(), p as int)));
                    assert(session_views(acc@) + Seq::<Seq<TxnV>>::empty() =~= session_views(acc@));
                }
                return Ok((acc, p));
            },
            Ok(j) => match session_exec(c, j) {
                Err(q) => {
                    return Err(q);
                },
                Ok((ts, k)) => {
                    let ghost before = acc@;
                    acc.push(ts);
                    proof {
                        assert(session_views(acc@) =~= session_views(before).push(txn_views(ts@)));
                        match sessions_from(c@, k as int) {
                            Ok((rest, m)) => {
                                assert(session_views(acc@) + rest =~= session_views(before) + (seq![txn_views(ts@)] + rest));
                            },
                            Err(q) => {},
                        }
                    }
                    i = k;
                },
            },
        }
    }
}

/// The position after the blank lines from `i0`.
fn blank_lines_exec(c: &Vec<char>, i0: usize) -> (r: usize)
    requires
        i0 <= c@.len(),
        c@.len() < usize::MAX,
    ensures
        r == after_blank_lines(c@, i0 as int),
        r <= c@.len(),
{
    let mut i = i0;
    loop
        invariant
            i0 <= i <= c@.len(),
            c@.len() < usize::MAX,
            after_blank_lines(c@, i0 as int) == after_blank_lines(c@, i as int),
        decreases c@.len() - i,
    {
        let k = run_exec(c, i, 0);
        if at_exec(c, k, '\n') {
            i = k + 1;
        } else {
            return i;
        }
    }
}

/// The number of line breaks before position `p`.
pub open spec fn newlines_before(c: Seq<char>, p: int) -> nat
    decreases p,
{
    if p <= 0 {
        0
    } else {
        newlines_before(c, p - 1) + if c[p - 1] == '\n' { 1nat } else { 0nat }
    }
}

/// The position where the line of position `p` starts.
pub open spec fn line_start(c: Seq<char>, p: int) -> int
    decreases p,
{
    if p <= 0 {
        0
    } else if c[p - 1] == '\n' {
        p
    } else {
        line_start(c, p - 1)
    }
}

/// A parse error with its place: 1-based line and column.
#[derive(Debug, Clone)]
pub struct ParseError {
    pub message: String,
    pub line: usize,
    pub column: usize,
}

impl ParseError {
    /// The error as text: `parse error at line L, column C: message`.
    pub fn to_text(&self) -> (r: String)
        ensures
            r@ == seq!['p', 'a', 'r', 's', 'e', ' ', 'e', 'r', 'r', 'o', 'r', ' ', 'a', 't', ' ', 'l', 'i', 'n', 'e', ' ']
                + (self.line as u64).label() + seq![',', ' ', 'c', 'o', 'l', 'u', 'm', 'n', ' ']
                + (self.column as u64).label() + seq![':', ' '] + self.message@,
    {
        proof {
            reveal_strlit("parse error at line ");
            reveal_strlit(", column ");
            reveal_strlit(": ");
        }
        let mut s = String::from_str("parse error at line ");
        let line = (self.line as u64).label_text();
        s.append(line.as_str());
        s.append(", column ");
        let column = (self.column as u64).label_text();
        s.append(column.as_str());
        s.append(": ");
        s.append(self.message.as_str());
        s
    }
}

/// The error at position `p`.
fn error_at(c: &Vec<char>, p: usize, message: String) -> (e: ParseError)
    requires
        p <= c@.len(),
        c@.len() < usize::MAX,
    ensures
        e.line == newlines_before(c@, p as int) + 1,
        e.column == p - line_start(c@, p as int) + 1,
        e.message@ == message@,
{
    let mut lines: usize = 1;
    let mut start: usize = 0;
    let mut k: usize = 0;
    while k < p
        invariant
            0 <= k <= p <= c@.len(),
            c@.len() < usize::MAX,
            lines == newlines_before(c@, k as int) + 1,
            start == line_start(c@, k as int),
            start <= k,
            lines <= k + 1,
        decreases p - k,
    {
        if c[k] == '\n' {
            lines = lines + 1;
            start = k + 1;
        }
        k = k + 1;
    }
    ParseError { message, line: lines, column: p - start + 1 }
}

/// Parses the compact text form of a history into its sessions.
///
/// # Errors
///
/// A [`ParseError`] with the line and column where the text leaves the
/// grammar: the start of a line that is no comment, blank line or line of
/// transactions, or the place where a line of dashes is not a separator.
pub fn parse_history(input: &str) -> (r: Result<Vec<Session<String, u64>>, ParseError>)
    requires
        input@.len() < usize::MAX,
    ensures
        history_of(input@) is Ok <==> r is Ok,
        r matches Ok(ss) ==> history_of(input@) == Ok::<Seq<Seq<TxnV>>, int>(session_views(ss@)),
        r matches Err(e) ==> (history_of(input@) matches Err(p) && e.line == newlines_before(input@, p) + 1
            && e.column == p - line_start(input@, p) + 1),
{
    let c = chars_of(input);
    proof {
        reveal(history_of);
        reveal_strlit("expected a line of transactions, a comment or a blank line");
        reveal_strlit("expected a separator line or the end of the input");
    }
    let (first, i) = match session_exec(&c, 0) {
        Err(p) => return Err(error_at(&c, p, String::from_str("expected a line of transactions, a comment or a blank line"))),
        Ok(r) => r,
    };
    let (rest, p) = match sessions_exec(&c, i) {
        Err(q) => return Err(error_at(&c, q, String::from_str("expected a line of transactions, a comment or a blank line"))),
        Ok(r) => r,
    };
    let q = blank_lines_exec(&c, p);
    if q != c.len() {
        return Err(error_at(&c, q, String::from_str("expected a separator line or the end of the input")));
    }
    let mut sessions: Vec<Session<String, u64>> = Vec::new();
    sessions.push(first);
    let mut rest = rest;
    let ghost rv = session_views(rest@);
    sessions.append(&mut rest);
    proof {
        assert(session_views(sessions@) =~= seq![txn_views(first@)] + rv);
    }
    Ok(sessions)
}

/// The number of `\n` bytes before position `p`.
pub open spec fn newline_bytes_before(bs: Seq<u8>, p: int) -> nat
    decreases p,
{
    if p <= 0 {
        0
    } else {
        newline_bytes_before(bs, p - 1) + if bs[p - 1] == 10 { 1nat } else { 0nat }
    }
}

/// The byte position where the line of byte position `p` starts.
pub open spec fn byte_line_start(bs: Seq<u8>, p: int) -> int
    decreases p,
{
    if p <= 0 {
        0
    } else if bs[p - 1] == 10 {
        p
    } else {
        byte_line_start(bs, p - 1)
    }
}

/// The 1-based line and column (in bytes) of a byte offset into `input`;
/// an offset past the end counts as the end.
pub fn offset_to_line_col(input: &str, offset: usize) -> (r: (usize, usize))
    requires
        input.spec_bytes().len() < usize::MAX,
    ensures
        ({
            let p = if offset < input.spec_bytes().len() { offset as int } else { input.spec_bytes().len() as int };
            r.0 == newline_bytes_before(input.spec_bytes(), p) + 1 && r.1 == p - byte_line_start(input.spec_bytes(), p) + 1
        }),
{
    let bs = input.as_bytes();
    let p = if offset < bs.len() { offset } else { bs.len() };
    let mut lines: usize = 1;
    let mut start: usize = 0;
    let mut k: usize = 0;
    while k < p
        invariant
            0 <= k <= p <= bs@.len(),
            bs@.len() < usize::MAX,
            lines == newline_bytes_before(bs@, k as int) + 1,
            start == byte_line_start(bs@, k as int),
            start <= k,
            lines <= k + 1,
        decreases p - k,
    {
        if bs[k] == 10 {
            lines = lines + 1;
            start = k + 1;
        }
        k = k + 1;
    }
    (lines, p - start + 1)
}

/// A variable name of ASCII letters, digits and `_`.
pub open spec fn plain_name(name: Seq<char>) -> bool {
    name.len() > 0 && forall|i: int| 0 <= i < name.len() ==> {
        let ch = #[trigger] name[i];
        ('a' <= ch <= 'z') || ('A' <= ch <= 'Z') || ('0' <= ch <= '9') || ch == '_'
    }
}

/// A run of exactly `k` characters satisfying `p` from `i`.
proof fn lemma_run_exact(c: Seq<char>, i: int, p: spec_fn(char) -> bool, k: int)
    requires
        0 <= i,
        0 <= k,
        i + k <= c.len(),
        forall|m: int| i <= m < i + k ==> p(#[trigger] c[m]),
        i + k < c.len() ==> !p(c[i + k]),
    ensures
        run(c, i, p) == k,
    decreases k,
{
    if k > 0 {
        lemma_run_exact(c, i + 1, p, k - 1);
    }
}

/// The characters of `[name:=1]` followed by a newline.
spec fn single_write_facts(c: Seq<char>, name: Seq<char>) -> bool {
    let n = name.len() as int;
    &&& n > 0
    &&& c.len() == n + 6
    &&& c[0] == '['
    &&& forall|m: int| 1 <= m < n + 1 ==> #[trigger] c[m] == name[m - 1] && (char_class(1))(c[m])
    &&& c[n + 1] == ':'
    &&& c[n + 2] == '='
    &&& c[n + 3] == '1'
    &&& c[n + 4] == ']'
    &&& c[n + 5] == '\n'
}

proof fn lemma_single_write_facts(name: Seq<char>)
    requires
        plain_name(name),
    ensures
        single_write_facts(seq!['['] + name + seq![':', '=', '1', ']', '\n'], name),
{
    let c = seq!['['] + name + seq![':', '=', '1', ']', '\n'];
    let n = name.len() as int;
    assert forall|m: int| 1 <= m < n + 1 implies #[trigger] c[m] == name[m - 1] && (char_class(1))(c[m]) by {
        let ch = name[m - 1];
        assert(('a' <= ch <= 'z') || ('A' <= ch <= 'Z') || ('0' <= ch <= '9') || ch == '_');
        assert((ch as u32) < 128);
    }
}

proof fn lemma_single_write_event(c: Seq<char>, name: Seq<char>)
    requires
        single_write_facts(c, name),
    ensures
        event_at(c, 1) == Some::<(EventV, int)>(((true, name, Some(1u64)), name.len() + 4int)),
{
    let n = name.len() as int;
    assert(!(char_class(1))(c[n + 1]));
    lemma_run_exact(c, 1, char_class(1), n);
    assert(c.subrange(1, n + 1) =~= name);
    assert(!(char_class(2))(c[n + 4]));
    lemma_run_exact(c, n + 3, char_class(2), 1);
    assert(digits_value(c, n + 3, n + 3) == 0);
    assert(digits_value(c, n + 3, n + 4) == 1);
}

proof fn lemma_single_write_line(c: Seq<char>, name: Seq<char>)
    requires
        single_write_facts(c, name),
    ensures
        item_at(c, 0) == Some::<(Seq<TxnV>, int)>((seq![(seq![(true, name, Some(1u64))], true)], name.len() + 6int)),
{
    let n = name.len() as int;
    let ev: EventV = (true, name, Some(1u64));
    let tx: TxnV = (seq![ev], true);
    lemma_single_write_event(c, name);
    lemma_run_exact(c, n + 4, char_class(0), 0);
    assert(events_tail(c, n + 4) == (Seq::<EventV>::empty(), n + 4));
    assert(seq![ev] + Seq::<EventV>::empty() =~= seq![ev]);
    lemma_run_exact(c, 0, char_class(0), 0);
    assert(txn_at(c, 0) == Some((tx, n + 5)));
    lemma_run_exact(c, n + 5, char_class(0), 0);
    assert(txns_tail(c, n + 5) == (Seq::<TxnV>::empty(), n + 5));
    assert(seq![tx] + Seq::<TxnV>::empty() =~= seq![tx]);
    assert(txn_line_at(c, 0) == Some((seq![tx], n + 6)));
    assert(comment_at(c, 0) is None);
    assert(blank_at(c, 0) is None);
}

/// The one-line text `[name:=1]` is a history of one session holding one
/// committed transaction that writes version 1 of `name`, for every name
/// of ASCII letters, digits and `_`.
pub proof fn lemma_parse_single_write(name: Seq<char>)
    requires
        plain_name(name),
    ensures
        history_of(seq!['['] + name + seq![':', '=', '1', ']', '\n'])
            == Ok::<Seq<Seq<TxnV>>, int>(seq![seq![(seq![(true, name, Some(1u64))], true)]]),
{
    reveal(history_of);
    let c = seq!['['] + name + seq![':', '=', '1', ']', '\n'];
    let n = name.len() as int;
    let tx: TxnV = (seq![(true, name, Some(1u64))], true);
    lemma_single_write_facts(name);
    lemma_single_write_line(c, name);
    lemma_run_exact(c, 0, char_class(0), 0);
    lemma_run_exact(c, n + 6, char_class(0), 0);
    assert(session_from(c, n + 6) == Ok::<(Seq<TxnV>, int), int>((Seq::<TxnV>::empty(), n + 6)));
    assert(seq![tx] + Seq::<TxnV>::empty() =~= seq![tx]);
    assert(session_from(c, 0) == Ok::<(Seq<TxnV>, int), int>((seq![tx], n + 6)));
    lemma_run_exact(c, n + 6, char_class(3), 0);
    assert(separator_at(c, n + 6) == Err::<int, int>(n + 6));
    assert(sessions_from(c, n + 6) == Ok::<(Seq<Seq<TxnV>>, int), int>((Seq::<Seq<TxnV>>::empty(), n + 6)));
    assert(blank_at(c, n + 6) is None);
    assert(after_blank_lines(c, n + 6) == n + 6);
    assert(seq![seq![tx]] + Seq::<Seq<TxnV>>::empty() =~= seq![seq![tx]]);
}

} // verus!

