//! The serial bus as the engine sees it, and the record of what the engine
//! did on it.
//!
//! The engine keeps, as ghost state, the ordered list of every call it has
//! made on its collaborators: each control-line handshake, each byte
//! exchanged, each pause. Contracts are stated over that list.

use vstd::prelude::*;

use crate::record::{events_since, extends, lemma_extends_push};
use crate::wire::ControlByte;

verus! {

/// A full-duplex bus that moves one byte each way per transfer.
pub trait Transfer {
    /// Clocks `word` out and returns the byte that the peer clocked in
    /// meanwhile. The engine asks for no report of a fault: a transfer that
    /// went wrong shows in the frame that does not arrive.
    fn transfer(&mut self, word: u8) -> u8;
}

/// One call of the engine on a collaborator.
pub enum BusEvent {
    /// The peer was acquired for a transaction: wait until ready, select,
    /// wait for the acknowledgement. `ok` is false when a control line
    /// faulted on the way.
    Select { ok: bool },
    /// Chip-select was driven high again. `ok` is false when the line
    /// faulted.
    Deselect { ok: bool },
    /// One byte went out and one came in.
    Transfer { sent: u8, received: u8 },
    /// The engine slept for `ms` milliseconds.
    Delay { ms: u16 },
    /// The control lines were driven to their idle levels. `ok` is false when
    /// a line faulted.
    Init { ok: bool },
    /// The peer was reset. `ok` is false when a line faulted.
    Reset { ok: bool },
}

impl BusEvent {
    /// The byte that went out, for a transfer.
    pub open spec fn sent(self) -> u8 {
        match self {
            BusEvent::Transfer { sent, .. } => sent,
            _ => 0,
        }
    }

    /// The byte that came in, for a transfer.
    pub open spec fn received(self) -> u8 {
        match self {
            BusEvent::Transfer { received, .. } => received,
            _ => 0,
        }
    }
}

/// The transfer that reads one byte: the dummy byte goes out, `byte` comes in.
pub open spec fn read_of(byte: u8) -> BusEvent {
    BusEvent::Transfer { sent: ControlByte::Dummy.value(), received: byte }
}

/// The bytes that went out in `events`, one for each event.
pub open spec fn bytes_sent(events: Seq<BusEvent>) -> Seq<u8> {
    Seq::new(events.len(), |i: int| events[i].sent())
}

/// The bytes that came in during `events`, one for each event.
pub open spec fn bytes_received(events: Seq<BusEvent>) -> Seq<u8> {
    Seq::new(events.len(), |i: int| events[i].received())
}

/// Every event is a transfer of one byte.
pub open spec fn all_transfers(events: Seq<BusEvent>) -> bool {
    forall|i: int| 0 <= i < events.len() ==> (#[trigger] events[i]) is Transfer
}

/// Every event is a read: a transfer that sends the dummy byte.
pub open spec fn all_reads(events: Seq<BusEvent>) -> bool {
    forall|i: int|
        0 <= i < events.len() ==> #[trigger] events[i] == read_of(events[i].received())
}

/// One more transfer extends a run of transfers, and adds its bytes to those
/// sent and received.
pub proof fn lemma_transfer_step(
    before: Seq<BusEvent>,
    after: Seq<BusEvent>,
    sent: u8,
    received: u8,
)
    requires
        extends(before, after),
    ensures
        extends(before, after.push(BusEvent::Transfer { sent, received })),
        events_since(before, after.push(BusEvent::Transfer { sent, received })) == events_since(
            before,
            after,
        ).push(BusEvent::Transfer { sent, received }),
        bytes_sent(events_since(before, after.push(BusEvent::Transfer { sent, received })))
            == bytes_sent(events_since(before, after)).push(sent),
        bytes_received(events_since(before, after.push(BusEvent::Transfer { sent, received })))
            == bytes_received(events_since(before, after)).push(received),
        all_transfers(events_since(before, after)) ==> all_transfers(
            events_since(before, after.push(BusEvent::Transfer { sent, received })),
        ),
        all_reads(events_since(before, after)) && sent == ControlByte::Dummy.value()
            ==> all_reads(
            events_since(before, after.push(BusEvent::Transfer { sent, received })),
        ),
{
    let event = BusEvent::Transfer { sent, received };
    lemma_extends_push(before, after, event);
    let old_events = events_since(before, after);
    let new_events = events_since(before, after.push(event));
    assert(bytes_sent(new_events) =~= bytes_sent(old_events).push(sent));
    assert(bytes_received(new_events) =~= bytes_received(old_events).push(received));
    if all_transfers(old_events) {
        assert forall|i: int| 0 <= i < new_events.len() implies (#[trigger] new_events[i])
            is Transfer by {
            if i < old_events.len() {
                assert(old_events[i] is Transfer);
            }
        }
    }
    if all_reads(old_events) && sent == ControlByte::Dummy.value() {
        assert forall|i: int| 0 <= i < new_events.len() implies #[trigger] new_events[i]
            == read_of(new_events[i].received()) by {
            if i < old_events.len() {
                assert(old_events[i] == read_of(old_events[i].received()));
            }
        }
    }
}

/// The bytes sent and received in two runs of events, one after the other.
pub proof fn lemma_bytes_of_concat(a: Seq<BusEvent>, b: Seq<BusEvent>)
    ensures
        bytes_sent(a + b) == bytes_sent(a) + bytes_sent(b),
        bytes_received(a + b) == bytes_received(a) + bytes_received(b),
        all_transfers(a) && all_transfers(b) ==> all_transfers(a + b),
        all_reads(a) && all_reads(b) ==> all_reads(a + b),
{
    assert(bytes_sent(a + b) =~= bytes_sent(a) + bytes_sent(b));
    assert(bytes_received(a + b) =~= bytes_received(a) + bytes_received(b));
    if all_transfers(a) && all_transfers(b) {
        assert forall|i: int| 0 <= i < (a + b).len() implies (#[trigger] (a + b)[i]) is Transfer by {
            if i < a.len() {
                assert(a[i] is Transfer);
            } else {
                assert(b[i - a.len()] is Transfer);
            }
        }
    }
    if all_reads(a) && all_reads(b) {
        assert forall|i: int| 0 <= i < (a + b).len() implies #[trigger] (a + b)[i] == read_of(
            (a + b)[i].received(),
        ) by {
            if i < a.len() {
                assert(a[i] == read_of(a[i].received()));
            } else {
                assert(b[i - a.len()] == read_of(b[i - a.len()].received()));
            }
        }
    }
}

} // verus!
