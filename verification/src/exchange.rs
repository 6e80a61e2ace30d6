//! What one transaction with the peer looks like in the record: the
//! handshake, the bytes of a request or of a reply, and the release; and
//! what a command and its reply look like, one transaction after the other.

use vstd::prelude::*;

use crate::bus::{all_reads, all_transfers, bytes_received, bytes_sent, read_of, BusEvent};
use crate::gpio::IOError;
use crate::protocol::operation::OperationModel;
use crate::protocol::{NinaResponseBuffer, NinaResponseBufferWithLength};
use crate::record::{events_since, extends, lemma_extends_by, lemma_extends_split};
use crate::reply::{
    header_checked, lemma_header_ends_once, lemma_header_failed_throughout,
    lemma_header_has_one_outcome, lemma_long_body_has_one_outcome,
    lemma_short_body_has_one_outcome, long_body, short_body,
};
use crate::wire::{lemma_request_is_aligned, padded_request, request_frame};
use crate::Error;

verus! {

/// The events open with the handshake and close with the release.
pub open spec fn is_transaction(events: Seq<BusEvent>) -> bool {
    events.len() >= 2 && events.first() is Select && events.last() is Deselect
}

/// The handshake of a transaction went through.
pub open spec fn acquired(events: Seq<BusEvent>) -> bool {
    events.first()->Select_ok
}

/// The release of a transaction went through.
pub open spec fn released(events: Seq<BusEvent>) -> bool {
    events.last()->Deselect_ok
}

/// What happened between the handshake and the release.
pub open spec fn body_of(events: Seq<BusEvent>) -> Seq<BusEvent> {
    events.subrange(1, events.len() - 1)
}

/// The events are one whole transaction and nothing else: the handshake,
/// transfers only, and the release.
pub open spec fn sealed(events: Seq<BusEvent>) -> bool {
    is_transaction(events) && all_transfers(body_of(events))
}

/// The result of a transaction whose body yielded `body`: a failure of the
/// body stands; a body that went well still fails with `IOError::Pin` when
/// the release did not go through.
pub open spec fn after_release<T>(body: Result<T, Error>, released: bool) -> Result<T, Error> {
    match body {
        Ok(value) => if released {
            Ok(value)
        } else {
            Err(Error::Io(IOError::Pin))
        },
        Err(e) => Err(e),
    }
}

/// `events` are the transaction that sends the request `operation`, and
/// `outcome` is its result.
///
/// When the handshake fails nothing goes out, the release is still made, and
/// the result is `IOError::Pin`. Otherwise the frame goes out byte by byte,
/// then a dummy byte for each read that pads the exchange to a multiple of
/// four, and the result is that of the release.
pub open spec fn executed(
    events: Seq<BusEvent>,
    operation: OperationModel,
    outcome: Result<(), Error>,
) -> bool {
    &&& is_transaction(events)
    &&& if acquired(events) {
        &&& all_transfers(body_of(events))
        &&& bytes_sent(body_of(events)) == padded_request(
            operation.command.code(),
            operation.params,
        )
        &&& outcome == after_release(Ok::<(), Error>(()), released(events))
    } else {
        &&& body_of(events).len() == 0
        &&& outcome == Err::<(), Error>(Error::Io(IOError::Pin))
    }
}

/// What the bytes read in one transaction yield as a short reply to
/// `command`: the failure of the header, or else the result of the body
/// that follows the header, subject to the release.
pub open spec fn short_reply(
    bytes: Seq<u8>,
    command: u8,
    expected: u8,
    released: bool,
    outcome: Result<NinaResponseBuffer, Error>,
) -> bool {
    ||| {
        &&& outcome matches Err(e)
        &&& header_checked(bytes, command, expected, Err::<(), Error>(e))
    }
    ||| exists|k: int, body: Result<NinaResponseBuffer, Error>|
        {
            &&& 0 <= k <= bytes.len()
            &&& header_checked(#[trigger] bytes.take(k), command, expected, Ok::<(), Error>(()))
            &&& #[trigger] short_body(bytes.skip(k), body)
            &&& outcome == after_release(body, released)
        }
}

/// What the bytes read in one transaction yield as a long reply to
/// `command`: the failure of the header, or else the result of the body
/// that follows the header, subject to the release.
pub open spec fn long_reply(
    bytes: Seq<u8>,
    command: u8,
    expected: u8,
    released: bool,
    outcome: Result<NinaResponseBufferWithLength, Error>,
) -> bool {
    ||| {
        &&& outcome matches Err(e)
        &&& header_checked(bytes, command, expected, Err::<(), Error>(e))
    }
    ||| exists|k: int, body: Result<NinaResponseBufferWithLength, Error>|
        {
            &&& 0 <= k <= bytes.len()
            &&& header_checked(#[trigger] bytes.take(k), command, expected, Ok::<(), Error>(()))
            &&& #[trigger] long_body(bytes.skip(k), body)
            &&& outcome == after_release(body, released)
        }
}

/// `events` are the transaction that reads the short reply to `command`,
/// and `outcome` is its result. When the handshake fails nothing is read,
/// the release is still made, and the result is `IOError::Pin`.
pub open spec fn received(
    events: Seq<BusEvent>,
    command: u8,
    expected: u8,
    outcome: Result<NinaResponseBuffer, Error>,
) -> bool {
    &&& is_transaction(events)
    &&& if acquired(events) {
        &&& all_reads(body_of(events))
        &&& short_reply(
            bytes_received(body_of(events)),
            command,
            expected,
            released(events),
            outcome,
        )
    } else {
        &&& body_of(events).len() == 0
        &&& outcome == Err::<NinaResponseBuffer, Error>(Error::Io(IOError::Pin))
    }
}

/// `events` are the transaction that reads the long reply to `command`, and
/// `outcome` is its result. When the handshake fails nothing is read, the
/// release is still made, and the result is `IOError::Pin`.
pub open spec fn received_data16(
    events: Seq<BusEvent>,
    command: u8,
    expected: u8,
    outcome: Result<NinaResponseBufferWithLength, Error>,
) -> bool {
    &&& is_transaction(events)
    &&& if acquired(events) {
        &&& all_reads(body_of(events))
        &&& long_reply(
            bytes_received(body_of(events)),
            command,
            expected,
            released(events),
            outcome,
        )
    } else {
        &&& body_of(events).len() == 0
        &&& outcome == Err::<NinaResponseBufferWithLength, Error>(Error::Io(IOError::Pin))
    }
}

/// `events` are one command and its short reply, and `outcome` is what came
/// of it: the transaction that sends `operation`, and, when that went well,
/// the transaction that reads the reply, which must hold `expected`
/// parameters.
pub open spec fn exchanged(
    events: Seq<BusEvent>,
    operation: OperationModel,
    expected: u8,
    outcome: Result<NinaResponseBuffer, Error>,
) -> bool {
    ||| {
        &&& outcome matches Err(e)
        &&& executed(events, operation, Err::<(), Error>(e))
    }
    ||| exists|k: int|
        {
            &&& 0 <= k <= events.len()
            &&& executed(#[trigger] events.take(k), operation, Ok::<(), Error>(()))
            &&& received(events.skip(k), operation.command.code(), expected, outcome)
        }
}

/// `events` are one command and its long reply, and `outcome` is what came
/// of it: the transaction that sends `operation`, and, when that went well,
/// the transaction that reads the reply, which must hold `expected`
/// parameters.
pub open spec fn exchanged_data16(
    events: Seq<BusEvent>,
    operation: OperationModel,
    expected: u8,
    outcome: Result<NinaResponseBufferWithLength, Error>,
) -> bool {
    ||| {
        &&& outcome matches Err(e)
        &&& executed(events, operation, Err::<(), Error>(e))
    }
    ||| exists|k: int|
        {
            &&& 0 <= k <= events.len()
            &&& executed(#[trigger] events.take(k), operation, Ok::<(), Error>(()))
            &&& received_data16(events.skip(k), operation.command.code(), expected, outcome)
        }
}

/// The events are one command and what followed it: the transaction of a
/// request that failed, or the transaction of a request that went well and
/// the transaction of the reply.
pub open spec fn is_exchange(events: Seq<BusEvent>) -> bool {
    ||| sealed(events) && !(acquired(events) && released(events))
    ||| exists|k: int|
        {
            &&& 0 <= k <= events.len()
            &&& sealed(#[trigger] events.take(k))
            &&& acquired(events.take(k))
            &&& released(events.take(k))
            &&& sealed(events.skip(k))
        }
}

/// Chip-select is high after the last event that touched it: the record
/// holds no handshake behind its last release.
pub open spec fn deselected(record: Seq<BusEvent>) -> bool
    decreases record.len(),
{
    if record.len() == 0 {
        true
    } else if record.last() is Deselect {
        true
    } else if record.last() is Select {
        false
    } else {
        deselected(record.drop_last())
    }
}

/// A handshake, what happened under it, and the release make a transaction
/// whose body is what happened under the handshake.
pub proof fn lemma_transaction(
    before: Seq<BusEvent>,
    selected: Seq<BusEvent>,
    done: Seq<BusEvent>,
    after: Seq<BusEvent>,
    select_ok: bool,
    deselect_ok: bool,
)
    requires
        selected == before.push(BusEvent::Select { ok: select_ok }),
        extends(selected, done),
        after == done.push(BusEvent::Deselect { ok: deselect_ok }),
    ensures
        extends(before, after),
        is_transaction(events_since(before, after)),
        acquired(events_since(before, after)) == select_ok,
        released(events_since(before, after)) == deselect_ok,
        body_of(events_since(before, after)) == events_since(selected, done),
        deselected(after),
{
    let events = events_since(before, after);
    let body = events_since(selected, done);
    lemma_extends_split(selected, done);
    assert(after =~= before + (seq![BusEvent::Select { ok: select_ok }] + body + seq![
        BusEvent::Deselect { ok: deselect_ok },
    ]));
    lemma_extends_by(
        before,
        seq![BusEvent::Select { ok: select_ok }] + body + seq![
            BusEvent::Deselect { ok: deselect_ok },
        ],
    );
    assert(body_of(events) =~= body);
}

/// A record that ends with a transaction is deselected: whatever the
/// transaction did, and however it went, the release came last.
pub proof fn lemma_transaction_ends_deselected(before: Seq<BusEvent>, events: Seq<BusEvent>)
    requires
        is_transaction(events),
    ensures
        deselected(before + events),
{
    assert((before + events).last() == events.last());
}

/// A request that went out took a multiple of four bytes on the bus, and at
/// least four.
pub proof fn lemma_executed_is_aligned(
    events: Seq<BusEvent>,
    operation: OperationModel,
    outcome: Result<(), Error>,
)
    requires
        executed(events, operation, outcome),
        acquired(events),
    ensures
        body_of(events).len() % 4 == 0,
        body_of(events).len() >= 4,
        bytes_sent(body_of(events)).take(
            request_frame(operation.command.code(), operation.params).len() as int,
        ) == request_frame(operation.command.code(), operation.params),
{
    lemma_request_is_aligned(operation.command.code(), operation.params);
    let frame = request_frame(operation.command.code(), operation.params);
    let padded = padded_request(operation.command.code(), operation.params);
    assert(bytes_sent(body_of(events)).len() == body_of(events).len());
    assert(padded.take(frame.len() as int) =~= frame);
}

/// The transaction of a request is one whole transaction.
pub proof fn lemma_executed_is_sealed(
    events: Seq<BusEvent>,
    operation: OperationModel,
    outcome: Result<(), Error>,
)
    requires
        executed(events, operation, outcome),
    ensures
        sealed(events),
        outcome is Ok <==> acquired(events) && released(events),
{
}

/// The transaction of a reply is one whole transaction.
pub proof fn lemma_reply_is_sealed(events: Seq<BusEvent>)
    requires
        is_transaction(events),
        if acquired(events) {
            all_reads(body_of(events))
        } else {
            body_of(events).len() == 0
        },
    ensures
        sealed(events),
{
    let body = body_of(events);
    assert forall|i: int| 0 <= i < body.len() implies (#[trigger] body[i]) is Transfer by {
        assert(body[i] == read_of(body[i].received()));
    }
}

/// The bytes read in one transaction leave no choice of what they yield as
/// a short reply.
pub proof fn lemma_short_reply_has_one_outcome(
    bytes: Seq<u8>,
    command: u8,
    expected: u8,
    released: bool,
    first: Result<NinaResponseBuffer, Error>,
    second: Result<NinaResponseBuffer, Error>,
)
    requires
        short_reply(bytes, command, expected, released, first),
        short_reply(bytes, command, expected, released, second),
    ensures
        first == second,
{
    let failed_first = first is Err && header_checked(
        bytes,
        command,
        expected,
        Err::<(), Error>(first->Err_0),
    );
    let failed_second = second is Err && header_checked(
        bytes,
        command,
        expected,
        Err::<(), Error>(second->Err_0),
    );
    if failed_first && failed_second {
        lemma_header_has_one_outcome(
            bytes,
            command,
            expected,
            Err::<(), Error>(first->Err_0),
            Err::<(), Error>(second->Err_0),
        );
    } else if failed_first || failed_second {
        let error = if failed_first {
            first->Err_0
        } else {
            second->Err_0
        };
        let other = if failed_first {
            second
        } else {
            first
        };
        let (k, body) = choose|k: int, body: Result<NinaResponseBuffer, Error>|
            {
                &&& 0 <= k <= bytes.len()
                &&& header_checked(#[trigger] bytes.take(k), command, expected, Ok::<(), Error>(()))
                &&& #[trigger] short_body(bytes.skip(k), body)
                &&& other == after_release(body, released)
            };
        lemma_header_failed_throughout(bytes, command, expected, error, k);
    } else {
        let (j, body_first) = choose|k: int, body: Result<NinaResponseBuffer, Error>|
            {
                &&& 0 <= k <= bytes.len()
                &&& header_checked(#[trigger] bytes.take(k), command, expected, Ok::<(), Error>(()))
                &&& #[trigger] short_body(bytes.skip(k), body)
                &&& first == after_release(body, released)
            };
        let (k, body_second) = choose|k: int, body: Result<NinaResponseBuffer, Error>|
            {
                &&& 0 <= k <= bytes.len()
                &&& header_checked(#[trigger] bytes.take(k), command, expected, Ok::<(), Error>(()))
                &&& #[trigger] short_body(bytes.skip(k), body)
                &&& second == after_release(body, released)
            };
        if j <= k {
            lemma_header_ends_once(bytes, command, expected, j, k);
        } else {
            lemma_header_ends_once(bytes, command, expected, k, j);
        }
        lemma_short_body_has_one_outcome(bytes.skip(k), body_first, body_second);
    }
}

/// The bytes read in one transaction leave no choice of what they yield as
/// a long reply.
pub proof fn lemma_long_reply_has_one_outcome(
    bytes: Seq<u8>,
    command: u8,
    expected: u8,
    released: bool,
    first: Result<NinaResponseBufferWithLength, Error>,
    second: Result<NinaResponseBufferWithLength, Error>,
)
    requires
        long_reply(bytes, command, expected, released, first),
        long_reply(bytes, command, expected, released, second),
    ensures
        first == second,
{
    let failed_first = first is Err && header_checked(
        bytes,
        command,
        expected,
        Err::<(), Error>(first->Err_0),
    );
    let failed_second = second is Err && header_checked(
        bytes,
        command,
        expected,
        Err::<(), Error>(second->Err_0),
    );
    if failed_first && failed_second {
        lemma_header_has_one_outcome(
            bytes,
            command,
            expected,
            Err::<(), Error>(first->Err_0),
            Err::<(), Error>(second->Err_0),
        );
    } else if failed_first || failed_second {
        let error = if failed_first {
            first->Err_0
        } else {
            second->Err_0
        };
        let other = if failed_first {
            second
        } else {
            first
        };
        let (k, body) = choose|k: int, body: Result<NinaResponseBufferWithLength, Error>|
            {
                &&& 0 <= k <= bytes.len()
                &&& header_checked(#[trigger] bytes.take(k), command, expected, Ok::<(), Error>(()))
                &&& #[trigger] long_body(bytes.skip(k), body)
                &&& other == after_release(body, released)
            };
        lemma_header_failed_throughout(bytes, command, expected, error, k);
    } else {
        let (j, body_first) = choose|k: int, body: Result<NinaResponseBufferWithLength, Error>|
            {
                &&& 0 <= k <= bytes.len()
                &&& header_checked(#[trigger] bytes.take(k), command, expected, Ok::<(), Error>(()))
                &&& #[trigger] long_body(bytes.skip(k), body)
                &&& first == after_release(body, released)
            };
        let (k, body_second) = choose|k: int, body: Result<NinaResponseBufferWithLength, Error>|
            {
                &&& 0 <= k <= bytes.len()
                &&& header_checked(#[trigger] bytes.take(k), command, expected, Ok::<(), Error>(()))
                &&& #[trigger] long_body(bytes.skip(k), body)
                &&& second == after_release(body, released)
            };
        if j <= k {
            lemma_header_ends_once(bytes, command, expected, j, k);
        } else {
            lemma_header_ends_once(bytes, command, expected, k, j);
        }
        lemma_long_body_has_one_outcome(bytes.skip(k), body_first, body_second);
    }
}

/// A request that went out well ends in one place only: no shorter and no
/// longer run of the same events is such a request too.
pub proof fn lemma_request_ends_once(
    events: Seq<BusEvent>,
    operation: OperationModel,
    shorter: int,
    longer: int,
)
    requires
        0 <= shorter <= longer <= events.len(),
        executed(events.take(shorter), operation, Ok::<(), Error>(())),
        executed(events.take(longer), operation, Ok::<(), Error>(())),
    ensures
        shorter == longer,
{
    if shorter < longer {
        let short = events.take(shorter);
        let long = events.take(longer);
        assert(short.last() == events[shorter - 1]);
        assert(body_of(long)[shorter - 2] == events[shorter - 1]);
        assert(body_of(long)[shorter - 2] is Transfer);
    }
}

/// A request that failed holds no request that went out well in any run of
/// its events from the first on.
pub proof fn lemma_request_failed_throughout(
    events: Seq<BusEvent>,
    operation: OperationModel,
    error: Error,
    k: int,
)
    requires
        0 <= k <= events.len(),
        executed(events, operation, Err::<(), Error>(error)),
    ensures
        !executed(events.take(k), operation, Ok::<(), Error>(())),
{
    if executed(events.take(k), operation, Ok::<(), Error>(())) {
        let head = events.take(k);
        assert(head.first() == events.first());
        assert(head.last() == events[k - 1]);
        if k < events.len() {
            assert(body_of(events)[k - 2] == events[k - 1]);
            assert(body_of(events)[k - 2] is Transfer);
        } else {
            assert(head =~= events);
        }
    }
}

/// The events of one command and its short reply leave no choice of what
/// came of it.
pub proof fn lemma_exchanged_has_one_outcome(
    events: Seq<BusEvent>,
    operation: OperationModel,
    expected: u8,
    first: Result<NinaResponseBuffer, Error>,
    second: Result<NinaResponseBuffer, Error>,
)
    requires
        exchanged(events, operation, expected, first),
        exchanged(events, operation, expected, second),
    ensures
        first == second,
{
    let failed_first = first is Err && executed(events, operation, Err::<(), Error>(first->Err_0));
    let failed_second = second is Err && executed(
        events,
        operation,
        Err::<(), Error>(second->Err_0),
    );
    if failed_first && failed_second {
    } else if failed_first || failed_second {
        let error = if failed_first {
            first->Err_0
        } else {
            second->Err_0
        };
        let other = if failed_first {
            second
        } else {
            first
        };
        let k = choose|k: int|
            {
                &&& 0 <= k <= events.len()
                &&& executed(#[trigger] events.take(k), operation, Ok::<(), Error>(()))
                &&& received(events.skip(k), operation.command.code(), expected, other)
            };
        lemma_request_failed_throughout(events, operation, error, k);
    } else {
        let j = choose|k: int|
            {
                &&& 0 <= k <= events.len()
                &&& executed(#[trigger] events.take(k), operation, Ok::<(), Error>(()))
                &&& received(events.skip(k), operation.command.code(), expected, first)
            };
        let k = choose|k: int|
            {
                &&& 0 <= k <= events.len()
                &&& executed(#[trigger] events.take(k), operation, Ok::<(), Error>(()))
                &&& received(events.skip(k), operation.command.code(), expected, second)
            };
        if j <= k {
            lemma_request_ends_once(events, operation, j, k);
        } else {
            lemma_request_ends_once(events, operation, k, j);
        }
        let reply = events.skip(k);
        if acquired(reply) {
            lemma_short_reply_has_one_outcome(
                bytes_received(body_of(reply)),
                operation.command.code(),
                expected,
                released(reply),
                first,
                second,
            );
        }
    }
}

/// The events of one command and its long reply leave no choice of what
/// came of it.
pub proof fn lemma_exchanged_data16_has_one_outcome(
    events: Seq<BusEvent>,
    operation: OperationModel,
    expected: u8,
    first: Result<NinaResponseBufferWithLength, Error>,
    second: Result<NinaResponseBufferWithLength, Error>,
)
    requires
        exchanged_data16(events, operation, expected, first),
        exchanged_data16(events, operation, expected, second),
    ensures
        first == second,
{
    let failed_first = first is Err && executed(events, operation, Err::<(), Error>(first->Err_0));
    let failed_second = second is Err && executed(
        events,
        operation,
        Err::<(), Error>(second->Err_0),
    );
    if failed_first && failed_second {
    } else if failed_first || failed_second {
        let error = if failed_first {
            first->Err_0
        } else {
            second->Err_0
        };
        let other = if failed_first {
            second
        } else {
            first
        };
        let k = choose|k: int|
            {
                &&& 0 <= k <= events.len()
                &&& executed(#[trigger] events.take(k), operation, Ok::<(), Error>(()))
                &&& received_data16(events.skip(k), operation.command.code(), expected, other)
            };
        lemma_request_failed_throughout(events, operation, error, k);
    } else {
        let j = choose|k: int|
            {
                &&& 0 <= k <= events.len()
                &&& executed(#[trigger] events.take(k), operation, Ok::<(), Error>(()))
                &&& received_data16(events.skip(k), operation.command.code(), expected, first)
            };
        let k = choose|k: int|
            {
                &&& 0 <= k <= events.len()
                &&& executed(#[trigger] events.take(k), operation, Ok::<(), Error>(()))
                &&& received_data16(events.skip(k), operation.command.code(), expected, second)
            };
        if j <= k {
            lemma_request_ends_once(events, operation, j, k);
        } else {
            lemma_request_ends_once(events, operation, k, j);
        }
        let reply = events.skip(k);
        if acquired(reply) {
            lemma_long_reply_has_one_outcome(
                bytes_received(body_of(reply)),
                operation.command.code(),
                expected,
                released(reply),
                first,
                second,
            );
        }
    }
}

/// One command and its short reply are an exchange.
pub proof fn lemma_exchanged_is_exchange(
    events: Seq<BusEvent>,
    operation: OperationModel,
    expected: u8,
    outcome: Result<NinaResponseBuffer, Error>,
)
    requires
        exchanged(events, operation, expected, outcome),
    ensures
        is_exchange(events),
{
    if outcome is Err && executed(events, operation, Err::<(), Error>(outcome->Err_0)) {
        lemma_executed_is_sealed(events, operation, Err::<(), Error>(outcome->Err_0));
    } else {
        let k = choose|k: int|
            {
                &&& 0 <= k <= events.len()
                &&& executed(#[trigger] events.take(k), operation, Ok::<(), Error>(()))
                &&& received(events.skip(k), operation.command.code(), expected, outcome)
            };
        lemma_executed_is_sealed(events.take(k), operation, Ok::<(), Error>(()));
        lemma_reply_is_sealed(events.skip(k));
    }
}

/// One command and its long reply are an exchange.
pub proof fn lemma_exchanged_data16_is_exchange(
    events: Seq<BusEvent>,
    operation: OperationModel,
    expected: u8,
    outcome: Result<NinaResponseBufferWithLength, Error>,
)
    requires
        exchanged_data16(events, operation, expected, outcome),
    ensures
        is_exchange(events),
{
    if outcome is Err && executed(events, operation, Err::<(), Error>(outcome->Err_0)) {
        lemma_executed_is_sealed(events, operation, Err::<(), Error>(outcome->Err_0));
    } else {
        let k = choose|k: int|
            {
                &&& 0 <= k <= events.len()
                &&& executed(#[trigger] events.take(k), operation, Ok::<(), Error>(()))
                &&& received_data16(events.skip(k), operation.command.code(), expected, outcome)
            };
        lemma_executed_is_sealed(events.take(k), operation, Ok::<(), Error>(()));
        lemma_reply_is_sealed(events.skip(k));
    }
}

/// How many releases the first `count` events hold.
pub open spec fn releases(events: Seq<BusEvent>, count: int) -> int
    decreases count,
{
    if count <= 0 {
        0
    } else {
        releases(events, count - 1) + if events[count - 1] is Deselect {
            1int
        } else {
            0int
        }
    }
}

/// Counting releases looks at the events that are counted only.
pub proof fn lemma_releases_of_prefix(events: Seq<BusEvent>, other: Seq<BusEvent>, count: int)
    requires
        0 <= count <= events.len(),
        count <= other.len(),
        forall|i: int| 0 <= i < count ==> events[i] == other[i],
    ensures
        releases(events, count) == releases(other, count),
    decreases count,
{
    if count > 0 {
        lemma_releases_of_prefix(events, other, count - 1);
    }
}

/// Counting on from `from` to `to` never lowers the count, and raises it
/// when a release stands in between.
pub proof fn lemma_releases_grow(events: Seq<BusEvent>, from: int, to: int)
    requires
        0 <= from <= to <= events.len(),
    ensures
        releases(events, from) <= releases(events, to),
        forall|i: int|
            from <= i < to && (#[trigger] events[i]) is Deselect ==> releases(events, from)
                < releases(events, to),
    decreases to - from,
{
    if from < to {
        lemma_releases_grow(events, from, to - 1);
    }
}

/// Releases counted over two runs of events, one after the other.
pub proof fn lemma_releases_of_concat(first: Seq<BusEvent>, second: Seq<BusEvent>, count: int)
    requires
        0 <= count <= second.len(),
    ensures
        releases(first + second, first.len() + count) == releases(first, first.len() as int)
            + releases(second, count),
    decreases count,
{
    if count > 0 {
        lemma_releases_of_concat(first, second, count - 1);
        assert((first + second)[first.len() + count - 1] == second[count - 1]);
    } else {
        lemma_releases_of_prefix(first + second, first, first.len() as int);
    }
}

/// One whole transaction holds one release, its last event.
pub proof fn lemma_sealed_releases(events: Seq<BusEvent>, count: int)
    requires
        sealed(events),
        0 <= count <= events.len(),
    ensures
        releases(events, count) == if count == events.len() {
            1int
        } else {
            0int
        },
    decreases count,
{
    if count > 0 {
        lemma_sealed_releases(events, count - 1);
        if count < events.len() {
            if count - 1 >= 1 {
                assert(body_of(events)[count - 2] == events[count - 1]);
                assert(body_of(events)[count - 2] is Transfer);
            }
        }
    }
}

/// An exchange holds one release when its request failed and two when it
/// did not, and always ends with one.
pub proof fn lemma_exchange_releases(events: Seq<BusEvent>)
    requires
        is_exchange(events),
    ensures
        events.len() >= 2,
        events.last() is Deselect,
        events.first() is Select,
        releases(events, events.len() as int) == if acquired(events) && releases(
            events,
            events.len() - 1,
        ) == 1 {
            2int
        } else {
            1int
        },
        releases(events, events.len() as int) == 2 ==> exists|k: int|
            {
                &&& 2 <= k <= events.len() - 2
                &&& sealed(#[trigger] events.take(k))
                &&& acquired(events.take(k))
                &&& released(events.take(k))
                &&& sealed(events.skip(k))
            },
        releases(events, events.len() as int) == 1 ==> sealed(events) && !(acquired(events)
            && released(events)),
{
    if sealed(events) && !(acquired(events) && released(events)) {
        lemma_sealed_releases(events, events.len() as int);
        lemma_sealed_releases(events, events.len() - 1);
    } else {
        let k = choose|k: int|
            {
                &&& 0 <= k <= events.len()
                &&& sealed(#[trigger] events.take(k))
                &&& acquired(events.take(k))
                &&& released(events.take(k))
                &&& sealed(events.skip(k))
            };
        let head = events.take(k);
        let tail = events.skip(k);
        assert(events =~= head + tail);
        lemma_sealed_releases(head, k);
        lemma_sealed_releases(tail, tail.len() as int);
        lemma_sealed_releases(tail, tail.len() - 1);
        lemma_releases_of_concat(head, tail, tail.len() as int);
        lemma_releases_of_concat(head, tail, tail.len() - 1);
        assert(head.first() == events.first());
        assert(tail.last() == events.last());
    }
}

/// An exchange ends in one place only: no shorter and no longer run of the
/// same events is an exchange too.
pub proof fn lemma_exchange_ends_once(events: Seq<BusEvent>, shorter: int, longer: int)
    requires
        0 <= shorter <= longer <= events.len(),
        is_exchange(events.take(shorter)),
        is_exchange(events.take(longer)),
    ensures
        shorter == longer,
{
    if shorter < longer {
        let short = events.take(shorter);
        let long = events.take(longer);
        lemma_exchange_releases(short);
        lemma_exchange_releases(long);
        assert(short.first() == long.first());
        lemma_releases_of_prefix(short, long, shorter);
        lemma_releases_of_prefix(short, long, shorter - 1);
        lemma_releases_grow(long, shorter, longer - 1);
        lemma_releases_grow(long, shorter - 1, shorter);
        lemma_releases_grow(long, longer - 1, longer);
        assert(long[shorter - 1] == short.last());
        assert(long[longer - 1] is Deselect);
        // The longer run holds the release of the shorter one and its own: it
        // is a request that went well and a reply, and the shorter run is that
        // request alone.
        assert(releases(long, longer) >= 2);
        assert(releases(short, shorter) == 1);
        let k = choose|k: int|
            {
                &&& 2 <= k <= long.len() - 2
                &&& sealed(#[trigger] long.take(k))
                &&& acquired(long.take(k))
                &&& released(long.take(k))
                &&& sealed(long.skip(k))
            };
        let request = long.take(k);
        lemma_sealed_releases(request, k);
        lemma_releases_of_prefix(request, long, k);
        if k < shorter {
            lemma_releases_grow(long, k, shorter - 1);
            lemma_releases_of_prefix(short, long, shorter - 1);
            lemma_releases_grow(long, shorter - 1, shorter);
            assert(false);
        } else if k > shorter {
            lemma_sealed_releases(request, shorter);
            lemma_releases_of_prefix(request, long, shorter);
            assert(false);
        } else {
            assert(request =~= short);
            assert(false);
        }
    }
}

/// Two commands and their replies that open the same events end in the same
/// place, whatever the commands are and whatever came of them.
pub proof fn lemma_exchanges_end_alike(
    events: Seq<BusEvent>,
    j: int,
    k: int,
)
    requires
        0 <= j <= events.len(),
        0 <= k <= events.len(),
        is_exchange(events.take(j)),
        is_exchange(events.take(k)),
    ensures
        j == k,
{
    if j <= k {
        lemma_exchange_ends_once(events, j, k);
    } else {
        lemma_exchange_ends_once(events, k, j);
    }
}

} // verus!
