//! What receiving from a socket looks like in the record: the pause, the
//! question how much is waiting, and the chunks that are fetched and put
//! together.

use vstd::prelude::*;

use crate::bus::{bytes_received, BusEvent};
use crate::command::{available_length, chunk_request, request, short_param};
use crate::exchange::{
    after_release, body_of, exchanged, exchanged_data16, executed,
    lemma_exchanged_data16_has_one_outcome, lemma_exchanged_data16_is_exchange,
    lemma_exchanged_has_one_outcome, lemma_exchanged_is_exchange, lemma_exchanges_end_alike,
    long_reply, received_data16, released,
};
use crate::protocol::{
    NinaCommand, NinaResponseBuffer, NinaResponseBufferWithLength, MAX_NINA_RESPONSE_LENGTH,
};
use crate::reply::{buffer_holding, header_checked, long_body};
use crate::Error;

verus! {

/// The pause before each question how much is waiting, in milliseconds.
pub const POLL_DELAY_MS: u16 = 50;

/// The buffer after a chunk of `length` bytes was put in at `at`: all bytes
/// of the chunk but the last, as far as the buffer has room. The place of
/// the last byte stays as it was.
pub open spec fn with_chunk(buffer: Seq<u8>, at: int, chunk: Seq<u8>, length: int) -> Seq<u8> {
    Seq::new(
        buffer.len(),
        |i: int|
            if at <= i < at + length - 1 {
                chunk[i - at]
            } else {
                buffer[i]
            },
    )
}

/// More is to be fetched: less was consumed than is available, and less than
/// a buffer holds.
pub open spec fn more_to_fetch(available: usize, consumed: int) -> bool {
    consumed < available && consumed < MAX_NINA_RESPONSE_LENGTH
}

/// `events` are the fetching of chunks from `socket`, starting with
/// `consumed` bytes already counted and `buffer` already put together, and
/// `outcome` is what came of it.
///
/// While more is to be fetched, one chunk is asked for, with `available` as
/// the length wanted. A failure ends the fetching with that failure. An
/// empty chunk ends it with what was put together so far. Any other chunk is
/// put in behind what was consumed, and its full length counts as consumed.
pub open spec fn drained(
    events: Seq<BusEvent>,
    socket: u8,
    available: usize,
    consumed: int,
    buffer: Seq<u8>,
    outcome: Result<Option<Seq<u8>>, Error>,
) -> bool
    decreases events.len(),
{
    if !more_to_fetch(available, consumed) {
        events.len() == 0 && outcome == Ok::<Option<Seq<u8>>, Error>(Some(buffer))
    } else {
        exists|k: int, chunk: Result<NinaResponseBufferWithLength, Error>|
            {
                &&& 0 < k <= events.len()
                &&& #[trigger] exchanged_data16(
                    events.take(k),
                    chunk_request(socket, available),
                    1,
                    chunk,
                )
                &&& match chunk {
                    Err(e) => k == events.len() && outcome == Err::<Option<Seq<u8>>, Error>(e),
                    Ok(reply) => if reply.0 == 0 {
                        k == events.len() && outcome == Ok::<Option<Seq<u8>>, Error>(
                            Some(buffer),
                        )
                    } else {
                        drained(
                            events.skip(k),
                            socket,
                            available,
                            consumed + reply.0,
                            with_chunk(buffer, consumed, reply.1@, reply.0 as int),
                            outcome,
                        )
                    },
                }
            }
    }
}

/// `events` are one round of receiving from `socket`, and `outcome` is what
/// came of it: the pause of [`POLL_DELAY_MS`], the question how much is
/// waiting, and, unless nothing is, the fetching of chunks into a buffer of
/// zeros. When nothing is waiting the round yields `None`.
pub open spec fn data_received(
    events: Seq<BusEvent>,
    socket: u8,
    outcome: Result<Option<Seq<u8>>, Error>,
) -> bool {
    &&& events.len() >= 1
    &&& events[0] == (BusEvent::Delay { ms: POLL_DELAY_MS })
    &&& exists|k: int, asked: Result<NinaResponseBuffer, Error>|
        {
            &&& 1 <= k <= events.len()
            &&& #[trigger] exchanged(
                events.subrange(1, k),
                request(NinaCommand::AvailDataTcp, seq![short_param(seq![socket])]),
                1,
                asked,
            )
            &&& match asked {
                Err(e) => k == events.len() && outcome == Err::<Option<Seq<u8>>, Error>(e),
                Ok(reply) => if available_length(reply@) == 0 {
                    k == events.len() && outcome == Ok::<Option<Seq<u8>>, Error>(None)
                } else {
                    drained(
                        events.skip(k),
                        socket,
                        available_length(reply@) as usize,
                        0,
                        buffer_holding(Seq::empty()),
                        outcome,
                    )
                },
            }
        }
}

/// What was received, with the buffer as the sequence of its bytes.
pub open spec fn as_data(result: Result<Option<NinaResponseBuffer>, Error>) -> Result<
    Option<Seq<u8>>,
    Error,
> {
    match result {
        Ok(Some(buffer)) => Ok(Some(buffer@)),
        Ok(None) => Ok(None),
        Err(e) => Err(e),
    }
}

/// A command and its long reply take at least the handshake and the release
/// of one transaction.
pub proof fn lemma_chunk_has_events(
    events: Seq<BusEvent>,
    socket: u8,
    available: usize,
    chunk: Result<NinaResponseBufferWithLength, Error>,
)
    requires
        exchanged_data16(events, chunk_request(socket, available), 1, chunk),
    ensures
        events.len() >= 2,
{
    if !executed(events, chunk_request(socket, available), Err::<(), Error>(chunk->Err_0)) {
        let k = choose|k: int|
            {
                &&& 0 <= k <= events.len()
                &&& executed(
                    #[trigger] events.take(k),
                    chunk_request(socket, available),
                    Ok::<(), Error>(()),
                )
                &&& received_data16(
                    events.skip(k),
                    chunk_request(socket, available).command.code(),
                    1,
                    chunk,
                )
            };
        assert(events.take(k).len() >= 2);
    }
}

/// A chunk never announces more bytes than a buffer holds.
pub proof fn lemma_chunk_fits(
    events: Seq<BusEvent>,
    socket: u8,
    available: usize,
    chunk: Result<NinaResponseBufferWithLength, Error>,
)
    requires
        exchanged_data16(events, chunk_request(socket, available), 1, chunk),
        chunk is Ok,
    ensures
        chunk->Ok_0.0 <= MAX_NINA_RESPONSE_LENGTH,
{
    let k = choose|k: int|
        {
            &&& 0 <= k <= events.len()
            &&& executed(
                #[trigger] events.take(k),
                chunk_request(socket, available),
                Ok::<(), Error>(()),
            )
            &&& received_data16(
                events.skip(k),
                chunk_request(socket, available).command.code(),
                1,
                chunk,
            )
        };
    let body = bytes_received(body_of(events.skip(k)));
    let released = released(events.skip(k));
    let code = chunk_request(socket, available).command.code();
    assert(long_reply(body, code, 1, released, chunk));
    let (j, inner) = choose|j: int, inner: Result<NinaResponseBufferWithLength, Error>|
        {
            &&& 0 <= j <= body.len()
            &&& header_checked(#[trigger] body.take(j), code, 1, Ok::<(), Error>(()))
            &&& #[trigger] long_body(body.skip(j), inner)
            &&& chunk == after_release(inner, released)
        };
    assert(inner == chunk);
}

/// Fetching ends at once when nothing more is to be fetched.
pub proof fn lemma_drained_done(socket: u8, available: usize, consumed: int, buffer: Seq<u8>)
    requires
        !more_to_fetch(available, consumed),
    ensures
        drained(
            Seq::empty(),
            socket,
            available,
            consumed,
            buffer,
            Ok::<Option<Seq<u8>>, Error>(Some(buffer)),
        ),
{
}

/// Fetching ends with the chunk that fails or is empty.
pub proof fn lemma_drained_last(
    events: Seq<BusEvent>,
    socket: u8,
    available: usize,
    consumed: int,
    buffer: Seq<u8>,
    chunk: Result<NinaResponseBufferWithLength, Error>,
)
    requires
        more_to_fetch(available, consumed),
        exchanged_data16(events, chunk_request(socket, available), 1, chunk),
        events.len() > 0,
        chunk matches Ok(reply) ==> reply.0 == 0,
    ensures
        drained(
            events,
            socket,
            available,
            consumed,
            buffer,
            match chunk {
                Err(e) => Err::<Option<Seq<u8>>, Error>(e),
                Ok(_) => Ok::<Option<Seq<u8>>, Error>(Some(buffer)),
            },
        ),
{
    let k = events.len() as int;
    assert(events.take(k) =~= events);
    assert(exchanged_data16(events.take(k), chunk_request(socket, available), 1, chunk));
}

/// Fetching that goes on behind a chunk: the chunk is put in, its length
/// counts, and the rest of the events are the rest of the fetching.
pub proof fn lemma_drained_step(
    first: Seq<BusEvent>,
    rest: Seq<BusEvent>,
    socket: u8,
    available: usize,
    consumed: int,
    buffer: Seq<u8>,
    chunk: Result<NinaResponseBufferWithLength, Error>,
    outcome: Result<Option<Seq<u8>>, Error>,
)
    requires
        more_to_fetch(available, consumed),
        first.len() > 0,
        exchanged_data16(first, chunk_request(socket, available), 1, chunk),
        chunk matches Ok(reply) && reply.0 != 0 && drained(
            rest,
            socket,
            available,
            consumed + reply.0,
            with_chunk(buffer, consumed, reply.1@, reply.0 as int),
            outcome,
        ),
    ensures
        drained(first + rest, socket, available, consumed, buffer, outcome),
{
    let events = first + rest;
    let k = first.len() as int;
    assert(events.take(k) =~= first);
    assert(events.skip(k) =~= rest);
    assert(exchanged_data16(events.take(k), chunk_request(socket, available), 1, chunk));
}

/// The events of fetching chunks leave no choice of what came of it.
pub proof fn lemma_drained_has_one_outcome(
    events: Seq<BusEvent>,
    socket: u8,
    available: usize,
    consumed: int,
    buffer: Seq<u8>,
    first: Result<Option<Seq<u8>>, Error>,
    second: Result<Option<Seq<u8>>, Error>,
)
    requires
        drained(events, socket, available, consumed, buffer, first),
        drained(events, socket, available, consumed, buffer, second),
    ensures
        first == second,
    decreases events.len(),
{
    if more_to_fetch(available, consumed) {
        let question = chunk_request(socket, available);
        let (j, chunk_first) = choose|k: int, chunk: Result<NinaResponseBufferWithLength, Error>|
            {
                &&& 0 < k <= events.len()
                &&& #[trigger] exchanged_data16(events.take(k), question, 1, chunk)
                &&& match chunk {
                    Err(e) => k == events.len() && first == Err::<Option<Seq<u8>>, Error>(e),
                    Ok(reply) => if reply.0 == 0 {
                        k == events.len() && first == Ok::<Option<Seq<u8>>, Error>(Some(buffer))
                    } else {
                        drained(
                            events.skip(k),
                            socket,
                            available,
                            consumed + reply.0,
                            with_chunk(buffer, consumed, reply.1@, reply.0 as int),
                            first,
                        )
                    },
                }
            };
        let (k, chunk_second) = choose|k: int, chunk: Result<NinaResponseBufferWithLength, Error>|
            {
                &&& 0 < k <= events.len()
                &&& #[trigger] exchanged_data16(events.take(k), question, 1, chunk)
                &&& match chunk {
                    Err(e) => k == events.len() && second == Err::<Option<Seq<u8>>, Error>(e),
                    Ok(reply) => if reply.0 == 0 {
                        k == events.len() && second == Ok::<Option<Seq<u8>>, Error>(
                            Some(buffer),
                        )
                    } else {
                        drained(
                            events.skip(k),
                            socket,
                            available,
                            consumed + reply.0,
                            with_chunk(buffer, consumed, reply.1@, reply.0 as int),
                            second,
                        )
                    },
                }
            };
        lemma_exchanged_data16_is_exchange(events.take(j), question, 1, chunk_first);
        lemma_exchanged_data16_is_exchange(events.take(k), question, 1, chunk_second);
        lemma_exchanges_end_alike(events, j, k);
        lemma_exchanged_data16_has_one_outcome(
            events.take(k),
            question,
            1,
            chunk_first,
            chunk_second,
        );
        if chunk_first is Ok && chunk_first->Ok_0.0 != 0 {
            let reply = chunk_first->Ok_0;
            lemma_drained_has_one_outcome(
                events.skip(k),
                socket,
                available,
                consumed + reply.0,
                with_chunk(buffer, consumed, reply.1@, reply.0 as int),
                first,
                second,
            );
        }
    }
}

/// The events of one round of receiving leave no choice of what came of it.
pub proof fn lemma_data_received_has_one_outcome(
    events: Seq<BusEvent>,
    socket: u8,
    first: Result<Option<Seq<u8>>, Error>,
    second: Result<Option<Seq<u8>>, Error>,
)
    requires
        data_received(events, socket, first),
        data_received(events, socket, second),
    ensures
        first == second,
{
    let question = request(NinaCommand::AvailDataTcp, seq![short_param(seq![socket])]);
    let zeros = buffer_holding(Seq::empty());
    let (j, asked_first) = choose|k: int, asked: Result<NinaResponseBuffer, Error>|
        {
            &&& 1 <= k <= events.len()
            &&& #[trigger] exchanged(events.subrange(1, k), question, 1, asked)
            &&& match asked {
                Err(e) => k == events.len() && first == Err::<Option<Seq<u8>>, Error>(e),
                Ok(reply) => if available_length(reply@) == 0 {
                    k == events.len() && first == Ok::<Option<Seq<u8>>, Error>(None)
                } else {
                    drained(
                        events.skip(k),
                        socket,
                        available_length(reply@) as usize,
                        0,
                        zeros,
                        first,
                    )
                },
            }
        };
    let (k, asked_second) = choose|k: int, asked: Result<NinaResponseBuffer, Error>|
        {
            &&& 1 <= k <= events.len()
            &&& #[trigger] exchanged(events.subrange(1, k), question, 1, asked)
            &&& match asked {
                Err(e) => k == events.len() && second == Err::<Option<Seq<u8>>, Error>(e),
                Ok(reply) => if available_length(reply@) == 0 {
                    k == events.len() && second == Ok::<Option<Seq<u8>>, Error>(None)
                } else {
                    drained(
                        events.skip(k),
                        socket,
                        available_length(reply@) as usize,
                        0,
                        zeros,
                        second,
                    )
                },
            }
        };
    let rest = events.skip(1);
    assert(rest.take(j - 1) =~= events.subrange(1, j));
    assert(rest.take(k - 1) =~= events.subrange(1, k));
    lemma_exchanged_is_exchange(rest.take(j - 1), question, 1, asked_first);
    lemma_exchanged_is_exchange(rest.take(k - 1), question, 1, asked_second);
    lemma_exchanges_end_alike(rest, j - 1, k - 1);
    lemma_exchanged_has_one_outcome(events.subrange(1, k), question, 1, asked_first, asked_second);
    if asked_first is Ok && available_length(asked_first->Ok_0@) != 0 {
        let reply = asked_first->Ok_0;
        lemma_drained_has_one_outcome(
            events.skip(k),
            socket,
            available_length(reply@) as usize,
            0,
            zeros,
            first,
            second,
        );
    }
}

} // verus!
