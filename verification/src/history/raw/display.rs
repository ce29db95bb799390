//! The compact text form of whole histories.
use vstd::prelude::*;
use vstd::string::StringExecFns;

use crate::history::raw::types::{Session, Transaction};
use crate::label::Label;

verus! {

/// The text of a session: each transaction's text on a line of its own.
pub open spec fn session_text<V: Label, W: Label>(s: Seq<Transaction<V, W>>) -> Seq<char>
    decreases s.len(),
{
    if s.len() == 0 {
        Seq::empty()
    } else {
        session_text(s.drop_last()) + s.last().text() + seq!['\n']
    }
}

/// The text of a history: its sessions' texts separated by lines of `---`.
pub open spec fn history_text<V: Label, W: Label>(h: Seq<Vec<Transaction<V, W>>>) -> Seq<char>
    decreases h.len(),
{
    if h.len() == 0 {
        Seq::empty()
    } else if h.len() == 1 {
        session_text(h[0]@)
    } else {
        history_text(h.drop_last()) + seq!['-', '-', '-', '\n'] + session_text(h.last()@)
    }
}

/// Formats a complete history as the compact text form.
///
/// Sessions are separated by `---`. Each transaction is on its own line. The
/// output ends with a newline, so that it parses back as it is.
pub fn format_history<V: Label, W: Label>(sessions: &[Session<V, W>]) -> (r: String)
    ensures
        r@ == history_text(sessions@),
{
    let mut output = String::new();
    let mut i: usize = 0;
    while i < sessions.len()
        invariant
            0 <= i <= sessions.len(),
            output@ == history_text(sessions@.subrange(0, i as int)),
        decreases sessions.len() - i,
    {
        let ghost before = output@;
        proof { reveal_strlit("---\n"); }
        if i > 0 {
            output.append("---\n");
        }
        let ghost mid = output@;
        let session = &sessions[i];
        let mut j: usize = 0;
        while j < session.len()
            invariant
                0 <= j <= session.len(),
                output@ == mid + session_text(session@.subrange(0, j as int)),
            decreases session.len() - j,
        {
            let t = session[j].to_text();
            proof { reveal_strlit("\n"); }
            output.append(t.as_str());
            output.append("\n");
            proof {
                let sub = session@.subrange(0, j + 1);
                assert(sub.drop_last() =~= session@.subrange(0, j as int));
                assert(sub.last() == session@[j as int]);
                assert(output@ =~= mid + session_text(sub));
            }
            j = j + 1;
        }
        proof {
            assert(session@.subrange(0, session@.len() as int) =~= session@);
            let sub = sessions@.subrange(0, i + 1);
            assert(sub.last() == sessions@[i as int]);
            if i == 0 {
                assert(sub.len() == 1);
                assert(output@ =~= history_text(sub));
            } else {
                assert(sub.drop_last() =~= sessions@.subrange(0, i as int));
                assert(output@ =~= history_text(sub));
            }
        }
        i = i + 1;
    }
    assert(sessions@.subrange(0, sessions@.len() as int) =~= sessions@);
    output
}

} // verus!
