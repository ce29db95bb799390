//! Raw histories: sessions of transactions of read and write events.
use vstd::prelude::*;
use vstd::string::StringExecFns;

use crate::history::atomic::types::TransactionId;
use crate::label::Label;

verus! {

/// A single read or write operation within a transaction.
#[derive(Clone, PartialEq, Eq, PartialOrd, Ord, Hash, Debug)]
pub enum Event<Variable, Version> {
    /// Reads `variable`; `None` stands for its initial, never-written value.
    Read { variable: Variable, version: Option<Version> },
    /// Writes `version` to `variable`.
    Write { variable: Variable, version: Version },
}

/// A sequence of events executed atomically, either committed or aborted.
#[derive(Clone, Debug)]
pub struct Transaction<Variable, Version> {
    pub events: Vec<Event<Variable, Version>>,
    pub committed: bool,
}

/// An ordered sequence of transactions from a single client or node.
pub type Session<Variable, Version> = Vec<Transaction<Variable, Version>>;

/// Uniquely identifies an event within a history by session (numbered from
/// 1), transaction and position.
#[derive(Debug, Copy, Clone, PartialEq, Eq, Structural, PartialOrd, Ord, Hash)]
pub struct EventId {
    pub session_id: u64,
    pub session_height: u64,
    pub transaction_height: u64,
}

impl View for EventId {
    type V = (u64, u64, u64);

    open spec fn view(&self) -> (u64, u64, u64) {
        (self.session_id, self.session_height, self.transaction_height)
    }
}

impl EventId {
    /// The transaction that holds the event.
    pub fn transaction_id(&self) -> (r: TransactionId)
        ensures
            r@ == (self.session_id, self.session_height),
    {
        TransactionId { session_id: self.session_id, session_height: self.session_height }
    }
}

impl<Variable, Version> Event<Variable, Version> {
    /// The variable the event reads or writes.
    pub open spec fn var_of(&self) -> Variable {
        match self {
            Event::Read { variable, .. } => *variable,
            Event::Write { variable, .. } => *variable,
        }
    }

    /// A read of the initial value of `variable`.
    pub fn read_empty(variable: Variable) -> (r: Self)
        ensures
            r == (Event::<Variable, Version>::Read { variable, version: None }),
    {
        Event::Read { variable, version: None }
    }

    /// A read of `version` of `variable`.
    pub fn read(variable: Variable, version: Version) -> (r: Self)
        ensures
            r == (Event::<Variable, Version>::Read { variable, version: Some(version) }),
    {
        Event::Read { variable, version: Some(version) }
    }

    /// A write of `version` to `variable`.
    pub fn write(variable: Variable, version: Version) -> (r: Self)
        ensures
            r == (Event::<Variable, Version>::Write { variable, version }),
    {
        Event::Write { variable, version }
    }
}

impl<Variable: Label, Version: Label> Event<Variable, Version> {
    /// The version the event reads or writes; `None` for a read of the
    /// initial value.
    pub open spec fn version_label(&self) -> Option<Seq<char>> {
        match self {
            Event::Read { version, .. } => match version {
                Some(v) => Some(v.label()),
                None => None,
            },
            Event::Write { version, .. } => Some(version.label()),
        }
    }

    /// The text of the event: `x:=1`, `x==1`, or `x==?` for a read of the
    /// initial value.
    pub open spec fn text(&self) -> Seq<char> {
        match self {
            Event::Write { variable, version } => variable.label() + seq![':', '='] + version.label(),
            Event::Read { variable, version } => match version {
                Some(v) => variable.label() + seq!['=', '='] + v.label(),
                None => variable.label() + seq!['=', '=', '?'],
            },
        }
    }

    /// The debugging text of the event: `x<=1`, `x=>1`, or `x=>?` for a read
    /// of the initial value.
    pub open spec fn debug_text(&self) -> Seq<char> {
        match self {
            Event::Write { variable, version } => variable.label() + seq!['<', '='] + version.label(),
            Event::Read { variable, version } => match version {
                Some(v) => variable.label() + seq!['=', '>'] + v.label(),
                None => variable.label() + seq!['=', '>', '?'],
            },
        }
    }

    /// The variable the event reads or writes.
    pub fn variable(&self) -> (r: Variable)
        ensures
            r.label() == self.var_of().label(),
    {
        match self {
            Event::Read { variable, .. } => variable.copy_label(),
            Event::Write { variable, .. } => variable.copy_label(),
        }
    }

    /// The version the event reads or writes; `None` for a read of the
    /// initial value.
    pub fn version(&self) -> (r: Option<Version>)
        ensures
            r.is_some() == self.version_label().is_some(),
            r.is_some() ==> r.unwrap().label() == self.version_label().unwrap(),
    {
        match self {
            Event::Read { version, .. } => match version {
                Some(v) => Some(v.copy_label()),
                None => None,
            },
            Event::Write { version, .. } => Some(version.copy_label()),
        }
    }

    /// The event as text, as histories are written: `x:=1`, `x==1`, `x==?`.
    pub fn to_text(&self) -> (r: String)
        ensures
            r@ == self.text(),
    {
        match self {
            Event::Write { variable, version } => {
                let mut s = variable.label_text();
                proof { reveal_strlit(":="); }
                s.append(":=");
                let v = version.label_text();
                s.append(v.as_str());
                s
            },
            Event::Read { variable, version } => {
                let mut s = variable.label_text();
                proof { reveal_strlit("=="); }
                s.append("==");
                match version {
                    Some(v) => {
                        let t = v.label_text();
                        s.append(t.as_str());
                    },
                    None => {
                        proof { reveal_strlit("?"); }
                        s.append("?");
                    },
                }
                s
            },
        }
    }

    /// The event as debugging text: `x<=1`, `x=>1`, `x=>?`.
    pub fn to_debug_text(&self) -> (r: String)
        ensures
            r@ == self.debug_text(),
    {
        match self {
            Event::Write { variable, version } => {
                let mut s = variable.label_text();
                proof { reveal_strlit("<="); }
                s.append("<=");
                let v = version.label_text();
                s.append(v.as_str());
                s
            },
            Event::Read { variable, version } => {
                let mut s = variable.label_text();
                proof { reveal_strlit("=>"); }
                s.append("=>");
                match version {
                    Some(v) => {
                        let t = v.label_text();
                        s.append(t.as_str());
                    },
                    None => {
                        proof { reveal_strlit("?"); }
                        s.append("?");
                    },
                }
                s
            },
        }
    }
}

/// The texts `parts` joined by `sep`.
pub open spec fn join(parts: Seq<Seq<char>>, sep: Seq<char>) -> Seq<char>
    decreases parts.len(),
{
    if parts.len() == 0 {
        Seq::empty()
    } else if parts.len() == 1 {
        parts[0]
    } else {
        join(parts.drop_last(), sep) + sep + parts.last()
    }
}

impl<Variable, Version> Transaction<Variable, Version> {
    /// A committed transaction of `events`.
    pub fn committed(events: Vec<Event<Variable, Version>>) -> (r: Self)
        ensures
            r.events@ == events@,
            r.committed,
    {
        Transaction { events, committed: true }
    }

    /// An aborted transaction of `events`.
    pub fn uncommitted(events: Vec<Event<Variable, Version>>) -> (r: Self)
        ensures
            r.events@ == events@,
            !r.committed,
    {
        Transaction { events, committed: false }
    }
}

impl<Variable: Label, Version: Label> Transaction<Variable, Version> {
    /// The text of the transaction: its events in brackets, separated by
    /// spaces, followed by `!` when it is aborted.
    pub open spec fn text(&self) -> Seq<char> {
        seq!['['] + join(self.events@.map_values(|e: Event<Variable, Version>| e.text()), seq![' ']) + seq![']']
            + if self.committed { Seq::empty() } else { seq!['!'] }
    }

    /// The debugging text of the transaction: its events' debugging texts in
    /// brackets, separated by `, `, followed by `!` when it is aborted.
    pub open spec fn debug_text(&self) -> Seq<char> {
        seq!['['] + join(self.events@.map_values(|e: Event<Variable, Version>| e.debug_text()), seq![',', ' '])
            + seq![']'] + if self.committed { Seq::empty() } else { seq!['!'] }
    }

    /// The transaction as text, as histories are written: `[x:=1 y==2]`, with
    /// a trailing `!` when aborted.
    pub fn to_text(&self) -> (r: String)
        ensures
            r@ == self.text(),
    {
        let ghost parts = self.events@.map_values(|e: Event<Variable, Version>| e.text());
        proof { reveal_strlit("["); reveal_strlit(" "); reveal_strlit("]"); reveal_strlit("!"); }
        let mut s = String::from_str("[");
        let mut i: usize = 0;
        while i < self.events.len()
            invariant
                0 <= i <= self.events.len(),
                parts == self.events@.map_values(|e: Event<Variable, Version>| e.text()),
                s@ == seq!['['] + join(parts.subrange(0, i as int), seq![' ']),
            decreases self.events.len() - i,
        {
            let t = self.events[i].to_text();
            proof {
                let p = parts.subrange(0, i + 1);
                assert(p.drop_last() =~= parts.subrange(0, i as int));
                assert(p.last() == parts[i as int]);
                assert(parts[i as int] == t@);
                if i > 0 {
                    assert(join(p, seq![' ']) == join(parts.subrange(0, i as int), seq![' ']) + seq![' '] + t@);
                } else {
                    assert(p =~= seq![t@]);
                    assert(join(p, seq![' ']) == t@);
                }
            }
            proof { reveal_strlit(" "); }
            if i > 0 {
                s.append(" ");
            } else {
                assert(parts.subrange(0, 1) =~= seq![parts[0]]);
            }
            s.append(t.as_str());
            proof {
                assert(s@ =~= seq!['['] + join(parts.subrange(0, i + 1), seq![' ']));
            }
            i = i + 1;
        }
        assert(parts.subrange(0, self.events.len() as int) =~= parts);
        s.append("]");
        if !self.committed {
            s.append("!");
        }
        assert(s@ =~= self.text());
        s
    }

    /// The transaction as debugging text: `[x=>?, x<=2]`, with a trailing `!`
    /// when aborted.
    pub fn to_debug_text(&self) -> (r: String)
        ensures
            r@ == self.debug_text(),
    {
        let ghost parts = self.events@.map_values(|e: Event<Variable, Version>| e.debug_text());
        proof { reveal_strlit("["); reveal_strlit(", "); reveal_strlit("]"); reveal_strlit("!"); }
        let mut s = String::from_str("[");
        let mut i: usize = 0;
        while i < self.events.len()
            invariant
                0 <= i <= self.events.len(),
                parts == self.events@.map_values(|e: Event<Variable, Version>| e.debug_text()),
                s@ == seq!['['] + join(parts.subrange(0, i as int), seq![',', ' ']),
            decreases self.events.len() - i,
        {
            let t = self.events[i].to_debug_text();
            proof {
                let p = parts.subrange(0, i + 1);
                assert(p.drop_last() =~= parts.subrange(0, i as int));
                assert(p.last() == parts[i as int]);
                assert(parts[i as int] == t@);
                if i > 0 {
                    assert(join(p, seq![',', ' ']) == join(parts.subrange(0, i as int), seq![',', ' ']) + seq![',', ' '] + t@);
                } else {
                    assert(p =~= seq![t@]);
                    assert(join(p, seq![',', ' ']) == t@);
                }
            }
            proof { reveal_strlit(", "); }
            if i > 0 {
                s.append(", ");
            } else {
                assert(parts.subrange(0, 1) =~= seq![parts[0]]);
            }
            s.append(t.as_str());
            proof {
                assert(s@ =~= seq!['['] + join(parts.subrange(0, i + 1), seq![',', ' ']));
            }
            i = i + 1;
        }
        assert(parts.subrange(0, self.events.len() as int) =~= parts);
        s.append("]");
        if !self.committed {
            s.append("!");
        }
        assert(s@ =~= self.debug_text());
        s
    }
}

} // verus!
