//! Why a raw history is not a valid history.
use vstd::prelude::*;

use crate::history::raw::types::{Event, EventId};

verus! {

/// Error converting a raw history to an atomic transactional history.
#[derive(Debug)]
pub enum Error<Variable, Version> {
    /// Reads a value that nothing wrote.
    IncompleteHistory { event: Event<Variable, Version>, id: EventId },
    /// Different events wrote the same version; `ids` holds the later one
    /// first.
    SameVersionWrite { event: Event<Variable, Version>, ids: [EventId; 2] },
    /// Reads, from its own transaction, a version other than the one it last
    /// wrote there.
    InconsistentLocalRead { read_event_id: EventId, write_event_id: EventId, read_event: Event<Variable, Version> },
    /// Reads a failed event.
    UnsuccessfulEventRead {
        read_event: Event<Variable, Version>,
        read_event_id: EventId,
        write_event: Event<Variable, Version>,
        write_event_id: EventId,
    },
    /// Reads a write of an aborted transaction.
    UnsuccessfulTransactionRead {
        read_event: Event<Variable, Version>,
        read_event_id: EventId,
        write_event: Event<Variable, Version>,
        write_event_id: EventId,
    },
    /// Reads two different writes from two different committed transactions.
    NonRepeatableRead { read_event: Event<Variable, Version>, read_event_id: EventId, write_event_ids: [EventId; 2] },
    /// Reads a write that its committed transaction overwrites.
    OverwrittenRead {
        read_event: Event<Variable, Version>,
        read_event_id: EventId,
        overwritten_write_event_id: EventId,
        committed_write_event: Event<Variable, Version>,
        committed_write_event_id: EventId,
    },
    /// Reads a write of a transaction that did not commit.
    UncommittedWrite { read_event: Event<Variable, Version>, read_event_id: EventId, write_event_id: EventId },
}

} // verus!
