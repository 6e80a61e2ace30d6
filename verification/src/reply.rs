//! What the bytes of a reply mean: how the wait for its start ends, when its
//! header is accepted, and what its body holds.

use vstd::prelude::*;

use crate::protocol::{
    NinaResponseBuffer, NinaResponseBufferWithLength, ProtocolError, MAX_NINA_PARAMS,
    MAX_NINA_RESPONSE_LENGTH,
};
use crate::wire::{reply_byte, word_of, ControlByte};
use crate::Error;

verus! {

/// The most bytes that are read while waiting for a reply to start.
pub const RETRY_LIMIT: u16 = 1000;

/// None of the first `count` bytes ends a wait for `wanted`: none is the
/// error byte, none is `wanted`.
pub open spec fn quiet(bytes: Seq<u8>, wanted: u8, count: int) -> bool {
    forall|j: int|
        0 <= j < count ==> (#[trigger] bytes[j]) != ControlByte::Error.value() && bytes[j]
            != wanted
}

/// How a wait for `wanted` ends, given all the bytes `bytes` that it read.
///
/// The wait reads until it sees `wanted` (success), until it sees the error
/// byte (it then reads two bytes more and fails with
/// `NinaProtocolVersionMismatch`), or until [`RETRY_LIMIT`] bytes were read
/// in vain (`CommunicationTimeout`). The error byte counts before `wanted`.
pub open spec fn waited(bytes: Seq<u8>, wanted: u8, outcome: Result<bool, Error>) -> bool {
    ||| {
        &&& 1 <= bytes.len() <= RETRY_LIMIT
        &&& quiet(bytes, wanted, bytes.len() - 1)
        &&& bytes.last() == wanted
        &&& wanted != ControlByte::Error.value()
        &&& outcome == Ok::<bool, Error>(true)
    }
    ||| {
        &&& 3 <= bytes.len() <= RETRY_LIMIT + 2
        &&& quiet(bytes, wanted, bytes.len() - 3)
        &&& bytes[bytes.len() - 3] == ControlByte::Error.value()
        &&& outcome == Err::<bool, Error>(
            Error::Protocol(ProtocolError::NinaProtocolVersionMismatch),
        )
    }
    ||| {
        &&& bytes.len() == RETRY_LIMIT
        &&& quiet(bytes, wanted, RETRY_LIMIT as int)
        &&& outcome == Err::<bool, Error>(Error::Protocol(ProtocolError::CommunicationTimeout))
    }
}

/// The bytes that a wait read leave no choice of how it ended.
pub proof fn lemma_wait_has_one_outcome(
    bytes: Seq<u8>,
    wanted: u8,
    first: Result<bool, Error>,
    second: Result<bool, Error>,
)
    requires
        waited(bytes, wanted, first),
        waited(bytes, wanted, second),
    ensures
        first == second,
{
    let n = bytes.len() as int;
    if first != second {
        if n >= 1 {
            assert(bytes[n - 1] == bytes.last());
        }
        if n >= 3 && bytes[n - 3] == ControlByte::Error.value() {
            assert(!quiet(bytes, wanted, n - 1));
            assert(!quiet(bytes, wanted, n));
        }
    }
}

/// How the check of a reply's header ends, given all the bytes that it read:
/// the wait for the start byte, then the command byte with the reply flag
/// set, then the number of parameters.
pub open spec fn header_checked(
    bytes: Seq<u8>,
    command: u8,
    expected: u8,
    outcome: Result<(), Error>,
) -> bool {
    let start = ControlByte::Start.value();
    let n = bytes.len() as int;
    ||| {
        &&& outcome matches Err(e)
        &&& waited(bytes, start, Err::<bool, Error>(e))
    }
    ||| {
        &&& n >= 2
        &&& waited(bytes.take(n - 1), start, Ok::<bool, Error>(true))
        &&& bytes[n - 1] != reply_byte(command)
        &&& outcome == Err::<(), Error>(Error::Protocol(ProtocolError::InvalidCommand))
    }
    ||| {
        &&& n >= 3
        &&& waited(bytes.take(n - 2), start, Ok::<bool, Error>(true))
        &&& bytes[n - 2] == reply_byte(command)
        &&& bytes[n - 1] != expected
        &&& outcome == Err::<(), Error>(
            Error::Protocol(ProtocolError::InvalidNumberOfParameters),
        )
    }
    ||| {
        &&& n >= 3
        &&& waited(bytes.take(n - 2), start, Ok::<bool, Error>(true))
        &&& bytes[n - 2] == reply_byte(command)
        &&& bytes[n - 1] == expected
        &&& outcome == Ok::<(), Error>(())
    }
}

/// The bytes that a check of a header read leave no choice of how it ended.
pub proof fn lemma_header_has_one_outcome(
    bytes: Seq<u8>,
    command: u8,
    expected: u8,
    first: Result<(), Error>,
    second: Result<(), Error>,
)
    requires
        header_checked(bytes, command, expected, first),
        header_checked(bytes, command, expected, second),
    ensures
        first == second,
{
    let start = ControlByte::Start.value();
    let n = bytes.len() as int;
    if first != second {
        lemma_header_marks(bytes, command, expected, first);
        lemma_header_marks(bytes, command, expected, second);
        if first is Err && second is Err && waited(bytes, start, Err::<bool, Error>(first->Err_0))
            && waited(bytes, start, Err::<bool, Error>(second->Err_0)) {
            lemma_wait_has_one_outcome(
                bytes,
                start,
                Err::<bool, Error>(first->Err_0),
                Err::<bool, Error>(second->Err_0),
            );
        }
    }
}

/// Where the start byte stands among the bytes that a check of a header
/// read, for each way in which the check can end: in the third place from
/// the end when the check got as far as the number of parameters, in the
/// second when it failed at the command byte, and nowhere when the wait for
/// it failed.
pub proof fn lemma_header_marks(
    bytes: Seq<u8>,
    command: u8,
    expected: u8,
    outcome: Result<(), Error>,
)
    requires
        header_checked(bytes, command, expected, outcome),
    ensures
        match outcome {
            Ok(_) => {
                &&& bytes.len() >= 3
                &&& bytes[bytes.len() - 3] == ControlByte::Start.value()
                &&& quiet(bytes, ControlByte::Start.value(), bytes.len() - 3)
                &&& bytes[bytes.len() - 2] == reply_byte(command)
                &&& bytes[bytes.len() - 1] == expected
            },
            Err(Error::Protocol(ProtocolError::InvalidNumberOfParameters)) => {
                &&& bytes.len() >= 3
                &&& bytes[bytes.len() - 3] == ControlByte::Start.value()
                &&& quiet(bytes, ControlByte::Start.value(), bytes.len() - 3)
                &&& bytes[bytes.len() - 2] == reply_byte(command)
                &&& bytes[bytes.len() - 1] != expected
            },
            Err(Error::Protocol(ProtocolError::InvalidCommand)) => {
                &&& bytes.len() >= 2
                &&& bytes[bytes.len() - 2] == ControlByte::Start.value()
                &&& quiet(bytes, ControlByte::Start.value(), bytes.len() - 2)
                &&& bytes[bytes.len() - 1] != reply_byte(command)
            },
            Err(Error::Protocol(ProtocolError::NinaProtocolVersionMismatch)) => {
                &&& bytes.len() >= 3
                &&& bytes[bytes.len() - 3] == ControlByte::Error.value()
                &&& quiet(bytes, ControlByte::Start.value(), bytes.len() - 3)
            },
            Err(Error::Protocol(ProtocolError::CommunicationTimeout)) => {
                &&& bytes.len() == RETRY_LIMIT
                &&& quiet(bytes, ControlByte::Start.value(), bytes.len() as int)
            },
            Err(_) => false,
        },
{
    let start = ControlByte::Start.value();
    let n = bytes.len() as int;
    if n >= 2 && waited(bytes.take(n - 1), start, Ok::<bool, Error>(true)) {
        let head = bytes.take(n - 1);
        assert(head.last() == bytes[n - 2]);
        assert forall|j: int| 0 <= j < n - 2 implies (#[trigger] bytes[j])
            != ControlByte::Error.value() && bytes[j] != start by {
            assert(head[j] == bytes[j]);
        }
    }
    if n >= 3 && waited(bytes.take(n - 2), start, Ok::<bool, Error>(true)) {
        let head = bytes.take(n - 2);
        assert(head.last() == bytes[n - 3]);
        assert forall|j: int| 0 <= j < n - 3 implies (#[trigger] bytes[j])
            != ControlByte::Error.value() && bytes[j] != start by {
            assert(head[j] == bytes[j]);
        }
    }
}

/// A header that was accepted ends in one place only: no shorter and no
/// longer run of the same bytes holds an accepted header too.
pub proof fn lemma_header_ends_once(
    bytes: Seq<u8>,
    command: u8,
    expected: u8,
    shorter: int,
    longer: int,
)
    requires
        0 <= shorter <= longer <= bytes.len(),
        header_checked(bytes.take(shorter), command, expected, Ok::<(), Error>(())),
        header_checked(bytes.take(longer), command, expected, Ok::<(), Error>(())),
    ensures
        shorter == longer,
{
    lemma_header_marks(bytes.take(shorter), command, expected, Ok::<(), Error>(()));
    lemma_header_marks(bytes.take(longer), command, expected, Ok::<(), Error>(()));
    if shorter < longer {
        assert(bytes.take(shorter)[shorter - 3] == bytes[shorter - 3]);
        assert(bytes.take(longer)[shorter - 3] == bytes[shorter - 3]);
    }
}

/// A header that failed holds no accepted header in any run of its bytes
/// from the first on.
pub proof fn lemma_header_failed_throughout(
    bytes: Seq<u8>,
    command: u8,
    expected: u8,
    error: Error,
    k: int,
)
    requires
        0 <= k <= bytes.len(),
        header_checked(bytes, command, expected, Err::<(), Error>(error)),
    ensures
        !header_checked(bytes.take(k), command, expected, Ok::<(), Error>(())),
{
    if header_checked(bytes.take(k), command, expected, Ok::<(), Error>(())) {
        lemma_header_marks(bytes, command, expected, Err::<(), Error>(error));
        lemma_header_marks(bytes.take(k), command, expected, Ok::<(), Error>(()));
        assert(bytes.take(k)[k - 3] == bytes[k - 3]);
        assert(bytes.take(k)[k - 2] == bytes[k - 2]);
        assert(bytes.take(k)[k - 1] == bytes[k - 1]);
    }
}

/// A response buffer that holds `payload` from its first byte on, and zeros
/// behind it.
pub open spec fn buffer_holding(payload: Seq<u8>) -> Seq<u8> {
    Seq::new(
        MAX_NINA_RESPONSE_LENGTH as nat,
        |i: int|
            if i < payload.len() {
                payload[i]
            } else {
                0u8
            },
    )
}

/// What the body of a short reply yields, given all the bytes that were
/// read for it: one byte of length, that many bytes of payload, and the
/// byte in the place of the end byte, whatever it is. A length above
/// [`MAX_NINA_PARAMS`] fails at once.
pub open spec fn short_body(bytes: Seq<u8>, outcome: Result<NinaResponseBuffer, Error>) -> bool {
    &&& bytes.len() >= 1
    &&& if bytes[0] > MAX_NINA_PARAMS {
        &&& bytes.len() == 1
        &&& outcome == Err::<NinaResponseBuffer, Error>(
            Error::Protocol(ProtocolError::TooManyParameters),
        )
    } else {
        &&& bytes.len() == bytes[0] + 2
        &&& outcome matches Ok(buffer)
        &&& buffer@ == buffer_holding(bytes.subrange(1, 1 + bytes[0]))
    }
}

/// The number of payload bytes that are read for a long reply that
/// announces `announced` bytes: all of them, as far as the buffer has room.
pub open spec fn stored_length(announced: int) -> int {
    if announced <= MAX_NINA_RESPONSE_LENGTH {
        announced
    } else {
        MAX_NINA_RESPONSE_LENGTH as int
    }
}

/// What the body of a long reply yields, given all the bytes that were read
/// for it: two bytes of length, most significant first, the payload as far
/// as the buffer has room, and the byte in the place of the end byte.
pub open spec fn long_body(
    bytes: Seq<u8>,
    outcome: Result<NinaResponseBufferWithLength, Error>,
) -> bool {
    &&& bytes.len() >= 2
    &&& bytes.len() == 2 + stored_length(word_of(bytes[1], bytes[0]) as int) + 1
    &&& outcome matches Ok(reply)
    &&& reply.0 == stored_length(word_of(bytes[1], bytes[0]) as int)
    &&& reply.1@ == buffer_holding(bytes.subrange(2, 2 + reply.0))
}

/// The bytes that were read for the body of a short reply leave no choice of
/// what it yields.
pub proof fn lemma_short_body_has_one_outcome(
    bytes: Seq<u8>,
    first: Result<NinaResponseBuffer, Error>,
    second: Result<NinaResponseBuffer, Error>,
)
    requires
        short_body(bytes, first),
        short_body(bytes, second),
    ensures
        first == second,
{
    if bytes[0] <= MAX_NINA_PARAMS {
        assert(first->Ok_0@ =~= second->Ok_0@);
        assert(first->Ok_0 == second->Ok_0);
    }
}

/// The bytes that were read for the body of a long reply leave no choice of
/// what it yields.
pub proof fn lemma_long_body_has_one_outcome(
    bytes: Seq<u8>,
    first: Result<NinaResponseBufferWithLength, Error>,
    second: Result<NinaResponseBufferWithLength, Error>,
)
    requires
        long_body(bytes, first),
        long_body(bytes, second),
    ensures
        first == second,
{
    assert(first->Ok_0.1@ =~= second->Ok_0.1@);
    assert(first->Ok_0.1 == second->Ok_0.1);
}

} // verus!
