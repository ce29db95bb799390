//! The text form of a history parses back to the history.
use vstd::prelude::*;

use crate::history::raw::display::{history_text, session_text};
use crate::history::raw::parser::{
    after_blank_lines, at, blank_at, char_class, comment_at, digits_value, event_at, event_views, events_tail, history_of,
    item_at, run, separator_at, session_from, sessions_from, txn_at, txn_line_at, txns_tail, var_char, version_at, EventV, TxnV,
};
use crate::history::raw::types::{join, Event, Transaction};
use crate::label::{decimal, digit_char, Label};

verus! {

/// `x` stands at position `i` of `c`.
pub open spec fn window(c: Seq<char>, i: int, x: Seq<char>) -> bool {
    0 <= i && i + x.len() <= c.len() && c.subrange(i, i + x.len()) == x
}

/// A window of a concatenation holds each part.
pub proof fn lemma_window_split(c: Seq<char>, i: int, x: Seq<char>, y: Seq<char>)
    requires
        window(c, i, x + y),
    ensures
        window(c, i, x),
        window(c, i + x.len(), y),
{
    assert(c.subrange(i, i + x.len()) =~= (x + y).subrange(0, x.len() as int));
    assert((x + y).subrange(0, x.len() as int) =~= x);
    assert(c.subrange(i + x.len(), i + x.len() + y.len()) =~= (x + y).subrange(x.len() as int, (x + y).len() as int));
    assert((x + y).subrange(x.len() as int, (x + y).len() as int) =~= y);
}

/// The characters of a window are those of its text.
pub proof fn lemma_window_at(c: Seq<char>, i: int, x: Seq<char>, k: int)
    requires
        window(c, i, x),
        0 <= k < x.len(),
    ensures
        c[i + k] == x[k],
{
    assert(c.subrange(i, i + x.len())[k] == c[i + k]);
}

/// A run of `k` characters of a class, ended by one outside it.
pub proof fn lemma_run_window(c: Seq<char>, i: int, k: int, p: spec_fn(char) -> bool)
    requires
        0 <= i,
        0 <= k,
        i + k <= c.len(),
        forall|m: int| i <= m < i + k ==> p(#[trigger] c[m]),
        i + k < c.len() ==> !p(c[i + k]),
    ensures
        run(c, i, p) == k,
    decreases k,
{
    if k > 0 {
        lemma_run_window(c, i + 1, k - 1, p);
    }
}

/// The digits of a decimal text are ASCII digits, and their value is the
/// number.
pub proof fn lemma_decimal_digits(c: Seq<char>, i: int, n: nat)
    requires
        window(c, i, decimal(n)),
    ensures
        forall|k: int| i <= k < i + decimal(n).len() ==> '0' <= #[trigger] c[k] <= '9',
        digits_value(c, i, i + decimal(n).len()) == n,
    decreases n,
{
    let d = decimal(n);
    if n < 10 {
        assert(d == seq![digit_char(n)]);
        lemma_window_at(c, i, d, 0);
        assert(digit_char(n) as int == 48 + n);
        assert(digits_value(c, i, i + 1) == digits_value(c, i, i) * 10 + (c[i] as int - 48));
    } else {
        let p = decimal(n / 10);
        assert(d == p.push(digit_char(n % 10)));
        assert(d =~= p + seq![digit_char(n % 10)]);
        lemma_window_split(c, i, p, seq![digit_char(n % 10)]);
        lemma_decimal_digits(c, i, n / 10);
        lemma_window_at(c, i + p.len(), seq![digit_char(n % 10)], 0);
        assert(digit_char(n % 10) as int == 48 + n % 10);
        assert(digits_value(c, i, i + d.len()) == digits_value(c, i, i + p.len()) * 10 + (c[i + p.len()] as int - 48));
        assert((n / 10) * 10 + n % 10 == n) by (nonlinear_arith);
    }
}

/// A name that the parser reads as a variable: not empty, of variable
/// characters.
pub open spec fn printable_name(l: Seq<char>) -> bool {
    l.len() > 0 && forall|k: int| 0 <= k < l.len() ==> var_char(#[trigger] l[k])
}

/// What the parser yields for an event.
pub open spec fn raw_event_view<V: Label>(e: Event<V, u64>) -> EventV {
    match e {
        Event::Write { variable, version } => (true, variable.label(), Some(version)),
        Event::Read { variable, version } => (false, variable.label(), version),
    }
}

/// An event at `i`, followed by a blank or `]`, or at the end.
pub proof fn lemma_event_window<V: Label>(c: Seq<char>, i: int, e: Event<V, u64>)
    requires
        printable_name(e.var_of().label()),
        window(c, i, e.text()),
        i + e.text().len() < c.len() ==> (c[i + e.text().len()] == ' ' || c[i + e.text().len()] == ']'),
    ensures
        event_at(c, i) == Some((raw_event_view(e), i + e.text().len())),
{
    let name = e.var_of().label();
    let j = i + name.len();
    match e {
        Event::Write { variable, version } => {
            let rest = seq![':', '='] + version.label();
            assert(e.text() =~= name + rest);
            lemma_window_split(c, i, name, rest);
            lemma_window_split(c, j, seq![':', '='], version.label());
            lemma_window_at(c, j, seq![':', '='], 0);
            lemma_window_at(c, j, seq![':', '='], 1);
            assert forall|m: int| i <= m < j implies (char_class(1))(#[trigger] c[m]) by {
                lemma_window_at(c, i, name, m - i);
            }
            lemma_run_window(c, i, name.len() as int, char_class(1));
            assert(c.subrange(i, j) =~= name) by {
                assert(c.subrange(i, i + name.len()) == name);
            }
            lemma_decimal_digits(c, j + 2, version as nat);
            let dl = decimal(version as nat).len() as int;
            assert forall|m: int| j + 2 <= m < j + 2 + dl implies (char_class(2))(#[trigger] c[m]) by {}
            lemma_run_window(c, j + 2, dl, char_class(2));
            assert(version_at(c, j + 2) == Some((version, j + 2 + dl)));
        },
        Event::Read { variable, version } => {
            match version {
                Some(v) => {
                    let rest = seq!['=', '='] + v.label();
                    assert(e.text() =~= name + rest);
                    lemma_window_split(c, i, name, rest);
                    lemma_window_split(c, j, seq!['=', '='], v.label());
                    lemma_window_at(c, j, seq!['=', '='], 0);
                    lemma_window_at(c, j, seq!['=', '='], 1);
                    assert forall|m: int| i <= m < j implies (char_class(1))(#[trigger] c[m]) by {
                        lemma_window_at(c, i, name, m - i);
                    }
                    lemma_run_window(c, i, name.len() as int, char_class(1));
                    assert(c.subrange(i, j) =~= name) by {
                        assert(c.subrange(i, i + name.len()) == name);
                    }
                    lemma_decimal_digits(c, j + 2, v as nat);
                    let dl = decimal(v as nat).len() as int;
                    crate::label::lemma_decimal_nonempty(v as nat);
                    assert(!at(c, j + 2, '?'));
                    assert forall|m: int| j + 2 <= m < j + 2 + dl implies (char_class(2))(#[trigger] c[m]) by {}
                    lemma_run_window(c, j + 2, dl, char_class(2));
                    assert(version_at(c, j + 2) == Some((v, j + 2 + dl)));
                },
                None => {
                    let rest = seq!['=', '=', '?'];
                    assert(e.text() =~= name + rest);
                    lemma_window_split(c, i, name, rest);
                    lemma_window_at(c, j, rest, 0);
                    lemma_window_at(c, j, rest, 1);
                    lemma_window_at(c, j, rest, 2);
                    assert forall|m: int| i <= m < j implies (char_class(1))(#[trigger] c[m]) by {
                        lemma_window_at(c, i, name, m - i);
                    }
                    lemma_run_window(c, i, name.len() as int, char_class(1));
                    assert(c.subrange(i, j) =~= name) by {
                        assert(c.subrange(i, i + name.len()) == name);
                    }
                },
            }
        },
    }
}

/// Joining two or more parts: the first, the separator, and the join of
/// the rest.
pub proof fn lemma_join_front(parts: Seq<Seq<char>>, sep: Seq<char>)
    requires
        parts.len() >= 2,
    ensures
        join(parts, sep) == parts[0] + sep + join(parts.subrange(1, parts.len() as int), sep),
    decreases parts.len(),
{
    let rest = parts.subrange(1, parts.len() as int);
    if parts.len() == 2 {
        assert(parts.drop_last() =~= seq![parts[0]]);
        assert(rest =~= seq![parts[1]]);
        assert(join(parts.drop_last(), sep) == parts[0]);
        assert(join(rest, sep) == parts[1]);
        assert(join(parts, sep) == parts[0] + sep + parts[1]);
    } else {
        lemma_join_front(parts.drop_last(), sep);
        assert(parts.drop_last().subrange(1, parts.len() - 1) =~= rest.drop_last());
        assert(rest.last() == parts.last());
        assert(join(rest, sep) == join(rest.drop_last(), sep) + sep + rest.last());
        assert(join(parts, sep) == join(parts.drop_last(), sep) + sep + parts.last());
        assert(join(parts, sep) =~= parts[0] + sep + (join(rest.drop_last(), sep) + sep + rest.last()));
    }
}

/// The event texts of a list of events.
pub open spec fn event_texts<V: Label>(es: Seq<Event<V, u64>>) -> Seq<Seq<char>> {
    es.map_values(|e: Event<V, u64>| e.text())
}

/// What the parser yields for a list of events.
pub open spec fn raw_event_views<V: Label>(es: Seq<Event<V, u64>>) -> Seq<EventV> {
    es.map_values(|e: Event<V, u64>| raw_event_view(e))
}

/// Events that the parser reads back: each with a printable name.
pub open spec fn printable_events<V: Label>(es: Seq<Event<V, u64>>) -> bool {
    forall|k: int| 0 <= k < es.len() ==> printable_name((#[trigger] es[k]).var_of().label())
}

/// The events of a transaction, separated by blanks and closed by `]`.
pub proof fn lemma_events_window<V: Label>(c: Seq<char>, i: int, es: Seq<Event<V, u64>>)
    requires
        es.len() >= 1,
        printable_events(es),
        window(c, i, join(event_texts(es), seq![' '])),
        at(c, i + join(event_texts(es), seq![' ']).len(), ']'),
    ensures
        event_at(c, i) == Some((raw_event_view(es[0]), i + es[0].text().len())),
        events_tail(c, i + es[0].text().len()) == (raw_event_views(es).subrange(1, es.len() as int), i + join(event_texts(es), seq![' ']).len()),
    decreases es.len(),
{
    let texts = event_texts(es);
    let j = join(texts, seq![' ']);
    let t0 = es[0].text();
    assert(printable_name(es[0].var_of().label()));
    if es.len() == 1 {
        assert(j == t0);
        lemma_event_window(c, i, es[0]);
        assert(run(c, i + t0.len(), char_class(0)) == 0);
        assert(raw_event_views(es).subrange(1, 1) =~= Seq::<EventV>::empty());
    } else {
        lemma_join_front(texts, seq![' ']);
        let rest = es.subrange(1, es.len() as int);
        assert(texts.subrange(1, texts.len() as int) =~= event_texts(rest));
        let jr = join(event_texts(rest), seq![' ']);
        assert(j == t0 + seq![' '] + jr);
        lemma_window_split(c, i, t0 + seq![' '], jr);
        lemma_window_split(c, i, t0, seq![' ']);
        lemma_window_at(c, i + t0.len(), seq![' '], 0);
        lemma_event_window(c, i, es[0]);
        assert forall|k: int| 0 <= k < rest.len() implies printable_name((#[trigger] rest[k]).var_of().label()) by {
            assert(rest[k] == es[k + 1]);
        }
        lemma_events_window(c, i + t0.len() + 1, rest);
        // the blank after the first event, then the next event
        let t1 = rest[0].text();
        assert(printable_name(rest[0].var_of().label()));
        let name1 = rest[0].var_of().label();
        assert(t1.len() >= 1 && t1[0] == name1[0]) by {
            match rest[0] {
                Event::Write { variable, version } => {
                    assert(t1 == name1 + (seq![':', '='] + version.label()));
                },
                Event::Read { variable, version } => {
                    match version {
                        Some(v) => { assert(t1 == name1 + (seq!['=', '='] + v.label())); },
                        None => { assert(t1 == name1 + seq!['=', '=', '?']); },
                    }
                },
            }
        }
        assert(jr.len() >= t1.len()) by {
            if rest.len() >= 2 {
                lemma_join_front(event_texts(rest), seq![' ']);
            }
        }
        assert(jr[0] == t1[0]) by {
            if rest.len() >= 2 {
                lemma_join_front(event_texts(rest), seq![' ']);
                assert(jr == t1 + seq![' '] + join(event_texts(rest).subrange(1, rest.len() as int), seq![' ']));
            }
        }
        lemma_window_at(c, i + t0.len() + 1, jr, 0);
        assert(var_char(name1[0]));
        lemma_run_window(c, i + t0.len(), 1, char_class(0));
        assert(raw_event_views(es).subrange(1, es.len() as int) =~= seq![raw_event_view(rest[0])] + raw_event_views(rest).subrange(1, rest.len() as int));
    }
}

/// What the parser yields for a transaction.
pub open spec fn raw_txn_view<V: Label>(t: Transaction<V, u64>) -> TxnV {
    (raw_event_views(t.events@), t.committed)
}

/// A transaction that the parser reads back: it has events, each with a
/// printable name.
pub open spec fn printable_txn<V: Label>(t: Transaction<V, u64>) -> bool {
    t.events@.len() >= 1 && printable_events(t.events@)
}

/// A transaction followed by a line break.
pub proof fn lemma_txn_window<V: Label>(c: Seq<char>, i: int, t: Transaction<V, u64>)
    requires
        printable_txn(t),
        window(c, i, t.text()),
        at(c, i + t.text().len(), '\n'),
    ensures
        txn_at(c, i) == Some((raw_txn_view(t), i + t.text().len())),
{
    let j = join(event_texts(t.events@), seq![' ']);
    assert(event_texts(t.events@) == t.events@.map_values(|e: Event<V, u64>| e.text()));
    let tail: Seq<char> = if t.committed { Seq::empty() } else { seq!['!'] };
    assert(t.text() == seq!['['] + j + seq![']'] + tail);
    lemma_window_split(c, i, seq!['['] + j + seq![']'], tail);
    lemma_window_split(c, i, seq!['['] + j, seq![']']);
    lemma_window_split(c, i, seq!['['], j);
    lemma_window_at(c, i, seq!['['], 0);
    lemma_window_at(c, i + 1 + j.len(), seq![']'], 0);
    lemma_events_window(c, i + 1, t.events@);
    assert(raw_event_views(t.events@) =~= seq![raw_event_view(t.events@[0])] + raw_event_views(t.events@).subrange(1, t.events@.len() as int));
    if !t.committed {
        lemma_window_at(c, i + 2 + j.len(), seq!['!'], 0);
    }
}

/// The text of a session, from the front: the first transaction's line,
/// then the text of the others.
pub proof fn lemma_session_text_front<V: Label>(s: Seq<Transaction<V, u64>>)
    requires
        s.len() >= 1,
    ensures
        session_text(s) == s[0].text() + seq!['\n'] + session_text(s.subrange(1, s.len() as int)),
    decreases s.len(),
{
    let rest = s.subrange(1, s.len() as int);
    if s.len() == 1 {
        assert(s.drop_last() =~= Seq::<Transaction<V, u64>>::empty());
        assert(rest =~= Seq::<Transaction<V, u64>>::empty());
        assert(session_text(s.drop_last()) == Seq::<char>::empty());
        assert(session_text(rest) == Seq::<char>::empty());
        assert(s.last() == s[0]);
        assert(session_text(s) == session_text(s.drop_last()) + s.last().text() + seq!['\n']);
        assert(session_text(s) =~= s[0].text() + seq!['\n'] + session_text(rest));
    } else {
        lemma_session_text_front(s.drop_last());
        assert(s.drop_last().subrange(1, s.len() - 1) =~= rest.drop_last());
        assert(rest.last() == s.last());
        assert(session_text(rest) == session_text(rest.drop_last()) + rest.last().text() + seq!['\n']);
        assert(session_text(s) =~= s[0].text() + seq!['\n'] + (session_text(rest.drop_last()) + rest.last().text() + seq!['\n']));
    }
}

/// What the parser yields for a session.
pub open spec fn raw_session_view<V: Label>(s: Seq<Transaction<V, u64>>) -> Seq<TxnV> {
    s.map_values(|t: Transaction<V, u64>| raw_txn_view(t))
}

/// Transactions that the parser reads back.
pub open spec fn printable_txns<V: Label>(s: Seq<Transaction<V, u64>>) -> bool {
    forall|k: int| 0 <= k < s.len() ==> printable_txn(#[trigger] s[k])
}

/// A session, followed by a separator or the end of the text.
pub proof fn lemma_session_window<V: Label>(c: Seq<char>, i: int, s: Seq<Transaction<V, u64>>)
    requires
        printable_txns(s),
        window(c, i, session_text(s)),
        i + session_text(s).len() == c.len() || at(c, i + session_text(s).len(), '-'),
    ensures
        session_from(c, i) == Ok::<(Seq<TxnV>, int), int>((raw_session_view(s), i + session_text(s).len())),
    decreases s.len(),
{
    if s.len() == 0 {
        assert(session_text(s) == Seq::<char>::empty());
        assert(run(c, i, char_class(0)) == 0);
        assert(raw_session_view(s) =~= Seq::<TxnV>::empty());
    } else {
        lemma_session_text_front(s);
        let t = s[0];
        let rest = s.subrange(1, s.len() as int);
        let tt = t.text();
        assert(printable_txn(t));
        lemma_window_split(c, i, tt + seq!['\n'], session_text(rest));
        lemma_window_split(c, i, tt, seq!['\n']);
        lemma_window_at(c, i + tt.len(), seq!['\n'], 0);
        lemma_txn_window(c, i, t);
        // the line starts with the transaction's bracket
        assert(tt[0] == '[');
        lemma_window_at(c, i, tt, 0);
        assert(run(c, i, char_class(0)) == 0);
        assert(comment_at(c, i) is None);
        assert(blank_at(c, i) is None);
        assert(run(c, i + tt.len(), char_class(0)) == 0);
        assert(txns_tail(c, i + tt.len()) == (Seq::<TxnV>::empty(), i + tt.len()));
        assert(txn_line_at(c, i) == Some((seq![raw_txn_view(t)], i + tt.len() + 1)));
        assert(item_at(c, i) == Some((seq![raw_txn_view(t)], i + tt.len() + 1)));
        assert forall|k: int| 0 <= k < rest.len() implies printable_txn(#[trigger] rest[k]) by {
            assert(rest[k] == s[k + 1]);
        }
        lemma_session_window(c, i + tt.len() + 1, rest);
        assert(raw_session_view(s) =~= seq![raw_txn_view(t)] + raw_session_view(rest));
    }
}

/// The separators and texts of the sessions from `k` on.
pub open spec fn tail_text<V: Label>(h: Seq<Vec<Transaction<V, u64>>>, k: int) -> Seq<char>
    decreases h.len() - k,
{
    if k < 0 || k >= h.len() {
        Seq::empty()
    } else {
        seq!['-', '-', '-', '\n'] + session_text(h[k]@) + tail_text(h, k + 1)
    }
}

/// The tail of a history with one more session at the end.
proof fn lemma_tail_text_last<V: Label>(h: Seq<Vec<Transaction<V, u64>>>, k: int)
    requires
        1 <= k < h.len(),
    ensures
        tail_text(h, k) == tail_text(h.drop_last(), k) + seq!['-', '-', '-', '\n'] + session_text(h.last()@),
    decreases h.len() - k,
{
    if k == h.len() - 1 {
        assert(tail_text(h.drop_last(), k) == Seq::<char>::empty());
        assert(tail_text(h, k + 1) == Seq::<char>::empty());
        assert(tail_text(h, k) =~= seq!['-', '-', '-', '\n'] + session_text(h.last()@));
    } else {
        lemma_tail_text_last(h, k + 1);
        assert(h.drop_last()[k] == h[k]);
        assert(tail_text(h, k) =~= seq!['-', '-', '-', '\n'] + session_text(h[k]@)
            + (tail_text(h.drop_last(), k + 1) + seq!['-', '-', '-', '\n'] + session_text(h.last()@)));
    }
}

/// The text of a history, from the front: the first session's text, then
/// the separators and texts of the others.
pub proof fn lemma_history_text_front<V: Label>(h: Seq<Vec<Transaction<V, u64>>>)
    requires
        h.len() >= 1,
    ensures
        history_text(h) == session_text(h[0]@) + tail_text(h, 1),
    decreases h.len(),
{
    if h.len() == 1 {
        assert(tail_text(h, 1) == Seq::<char>::empty());
        assert(history_text(h) =~= session_text(h[0]@) + tail_text(h, 1));
    } else {
        lemma_history_text_front(h.drop_last());
        lemma_tail_text_last(h, 1);
        assert(h.drop_last()[0] == h[0]);
        assert(history_text(h) =~= session_text(h[0]@) + (tail_text(h.drop_last(), 1) + seq!['-', '-', '-', '\n'] + session_text(h.last()@)));
    }
}

/// What the parser yields for a history.
pub open spec fn raw_history_view<V: Label>(h: Seq<Vec<Transaction<V, u64>>>) -> Seq<Seq<TxnV>> {
    h.map_values(|s: Vec<Transaction<V, u64>>| raw_session_view(s@))
}

/// A history that the parser reads back from its text: it has a session,
/// and each transaction has events, each with a printable name.
pub open spec fn printable_history<V: Label>(h: Seq<Vec<Transaction<V, u64>>>) -> bool {
    h.len() >= 1 && forall|k: int| 0 <= k < h.len() ==> printable_txns(#[trigger] h[k]@)
}

/// A tail of separators and sessions, up to the end of the text.
proof fn lemma_tail_window<V: Label>(c: Seq<char>, i: int, h: Seq<Vec<Transaction<V, u64>>>, k: int)
    requires
        printable_history(h),
        1 <= k <= h.len(),
        window(c, i, tail_text(h, k)),
        i + tail_text(h, k).len() == c.len(),
    ensures
        sessions_from(c, i) == Ok::<(Seq<Seq<TxnV>>, int), int>((raw_history_view(h).subrange(k, h.len() as int), c.len() as int)),
    decreases h.len() - k,
{
    if k == h.len() {
        assert(tail_text(h, k) == Seq::<char>::empty());
        assert(run(c, i, char_class(0)) == 0);
        assert(run(c, i, char_class(3)) == 0);
        assert(raw_history_view(h).subrange(k, h.len() as int) =~= Seq::<Seq<TxnV>>::empty());
    } else {
        let sep = seq!['-', '-', '-', '\n'];
        let st = session_text(h[k]@);
        let rest = tail_text(h, k + 1);
        assert(tail_text(h, k) == sep + st + rest);
        lemma_window_split(c, i, sep + st, rest);
        lemma_window_split(c, i, sep, st);
        lemma_window_at(c, i, sep, 0);
        lemma_window_at(c, i, sep, 1);
        lemma_window_at(c, i, sep, 2);
        lemma_window_at(c, i, sep, 3);
        assert(run(c, i, char_class(0)) == 0);
        assert forall|m: int| i <= m < i + 3 implies (char_class(3))(#[trigger] c[m]) by {
            lemma_window_at(c, i, sep, m - i);
        }
        lemma_run_window(c, i, 3, char_class(3));
        assert(run(c, i + 3, char_class(0)) == 0);
        assert(separator_at(c, i) == Ok::<int, int>(i + 4));
        assert(printable_txns(h[k]@));
        if k + 1 < h.len() {
            assert(rest[0] == '-');
            lemma_window_at(c, i + 4 + st.len(), rest, 0);
        } else {
            assert(rest == Seq::<char>::empty());
        }
        lemma_session_window(c, i + 4, h[k]@);
        lemma_tail_window(c, i + 4 + st.len(), h, k + 1);
        assert(raw_history_view(h).subrange(k, h.len() as int)
            =~= seq![raw_session_view(h[k]@)] + raw_history_view(h).subrange(k + 1, h.len() as int));
    }
}

/// A first session and the sessions after it, up to the end of the text,
/// make the history.
proof fn lemma_history_of_parts(c: Seq<char>, first: Seq<TxnV>, i: int, others: Seq<Seq<TxnV>>)
    requires
        session_from(c, 0) == Ok::<(Seq<TxnV>, int), int>((first, i)),
        sessions_from(c, i) == Ok::<(Seq<Seq<TxnV>>, int), int>((others, c.len() as int)),
    ensures
        history_of(c) == Ok::<Seq<Seq<TxnV>>, int>(seq![first] + others),
{
    reveal(history_of);
    assert(blank_at(c, c.len() as int) is None);
    assert(after_blank_lines(c, c.len() as int) == c.len());
}

/// The text of a history parses back to the history: the sessions, their
/// transactions with their commit flags, and the events with their kinds,
/// variable names and versions. This holds of every history with at least
/// one session, whose transactions have events and whose variable names
/// are non-empty and made of letters, digits and `_`.
#[verifier::spinoff_prover]
pub proof fn lemma_format_then_parse<V: Label>(h: Seq<Vec<Transaction<V, u64>>>)
    requires
        printable_history(h),
    ensures
        history_of(history_text(h)) == Ok::<Seq<Seq<TxnV>>, int>(raw_history_view(h)),
{
    let c = history_text(h);
    lemma_history_text_front(h);
    let st = session_text(h[0]@);
    let rest = tail_text(h, 1);
    assert(c.subrange(0, c.len() as int) =~= c);
    lemma_window_split(c, 0, st, rest);
    assert(printable_txns(h[0]@));
    if h.len() > 1 {
        assert(rest[0] == '-');
        lemma_window_at(c, st.len() as int, rest, 0);
    }
    lemma_session_window(c, 0, h[0]@);
    lemma_tail_window(c, st.len() as int, h, 1);
    let first = raw_session_view(h[0]@);
    let others = raw_history_view(h).subrange(1, h.len() as int);
    lemma_history_of_parts(c, first, st.len() as int, others);
    assert(raw_history_view(h) =~= seq![first] + others);
}

} // verus!
