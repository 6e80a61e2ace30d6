//! What each command asks and how its reply reads.

use vstd::prelude::*;

use crate::bus::BusEvent;
use crate::exchange::{
    exchanged, lemma_exchanged_has_one_outcome, lemma_exchanged_is_exchange,
    lemma_exchanges_end_alike,
};
use crate::network::NetworkError;
use crate::protocol::operation::OperationModel;
use crate::protocol::{NinaCommand, NinaResponseBuffer};
use crate::wire::{bytes_of_word, word_of, ParamModel};
use crate::Error;

verus! {

/// A parameter with a length prefix of one byte.
pub open spec fn short_param(payload: Seq<u8>) -> ParamModel {
    ParamModel { width: 1, payload }
}

/// A parameter with a length prefix of two bytes.
pub open spec fn long_param(payload: Seq<u8>) -> ParamModel {
    ParamModel { width: 2, payload }
}

/// The request for `command` with `params`.
pub open spec fn request(command: NinaCommand, params: Seq<ParamModel>) -> OperationModel {
    OperationModel { command, params }
}

/// `events` are one command and its short reply of one parameter, and
/// `result` is the reply as `decode` reads it; a failure of the exchange
/// stands as it is.
pub open spec fn answered<T>(
    events: Seq<BusEvent>,
    operation: OperationModel,
    decode: spec_fn(Seq<u8>) -> Result<T, Error>,
    result: Result<T, Error>,
) -> bool {
    exists|reply: Result<NinaResponseBuffer, Error>|
        {
            &&& #[trigger] exchanged(events, operation, 1, reply)
            &&& result == match reply {
                Ok(buffer) => decode(buffer@),
                Err(e) => Err(e),
            }
        }
}

/// The events of one command leave no choice of its result, however the
/// reply is decoded.
pub proof fn lemma_answered_has_one_outcome<T>(
    events: Seq<BusEvent>,
    operation: OperationModel,
    decode: spec_fn(Seq<u8>) -> Result<T, Error>,
    first: Result<T, Error>,
    second: Result<T, Error>,
)
    requires
        answered(events, operation, decode, first),
        answered(events, operation, decode, second),
    ensures
        first == second,
{
    let reply_first = choose|reply: Result<NinaResponseBuffer, Error>|
        {
            &&& #[trigger] exchanged(events, operation, 1, reply)
            &&& first == match reply {
                Ok(buffer) => decode(buffer@),
                Err(e) => Err(e),
            }
        };
    let reply_second = choose|reply: Result<NinaResponseBuffer, Error>|
        {
            &&& #[trigger] exchanged(events, operation, 1, reply)
            &&& second == match reply {
                Ok(buffer) => decode(buffer@),
                Err(e) => Err(e),
            }
        };
    lemma_exchanged_has_one_outcome(events, operation, 1, reply_first, reply_second);
}

/// An array as the sequence of its bytes, inside a result.
pub open spec fn as_bytes<const N: usize>(result: Result<[u8; N], Error>) -> Result<
    Seq<u8>,
    Error,
> {
    match result {
        Ok(array) => Ok(array@),
        Err(e) => Err(e),
    }
}

/// The second name server as it goes out: four zeros when there is none.
pub open spec fn second_server(address: Option<[u8; 4]>) -> Seq<u8> {
    match address {
        Some(ip) => ip@,
        None => seq![0u8, 0u8, 0u8, 0u8],
    }
}

/// What the reply to a request for resolving a host name means: the peer
/// takes the request with the byte 1, and refuses it with any other.
pub open spec fn resolving_accepted(reply: Seq<u8>) -> Result<u8, Error> {
    if reply[0] == 1 {
        Ok(reply[0])
    } else {
        Err(Error::Network(NetworkError::DnsResolveFailed))
    }
}

/// The address in the reply to a request for the resolved address: its first
/// four bytes, unless they are all 255, which stands for "not found".
pub open spec fn resolved_address(reply: Seq<u8>) -> Result<Seq<u8>, Error> {
    if reply.take(4) == seq![255u8, 255u8, 255u8, 255u8] {
        Err(Error::Network(NetworkError::DnsResolveFailed))
    } else {
        Ok(reply.take(4))
    }
}

/// `events` are the two commands that resolve the host name `hostname`, and
/// `outcome` is what came of them: the request to resolve the name, and,
/// when the peer took it, the request for the address.
pub open spec fn resolved(
    events: Seq<BusEvent>,
    hostname: Seq<u8>,
    outcome: Result<Seq<u8>, Error>,
) -> bool {
    exists|k: int, first: Result<NinaResponseBuffer, Error>|
        {
            &&& 0 <= k <= events.len()
            &&& #[trigger] exchanged(
                events.take(k),
                request(NinaCommand::ReqHostByName, seq![short_param(hostname)]),
                1,
                first,
            )
            &&& match first {
                Err(e) => k == events.len() && outcome == Err::<Seq<u8>, Error>(e),
                Ok(accepted) => match resolving_accepted(accepted@) {
                    Err(e) => k == events.len() && outcome == Err::<Seq<u8>, Error>(e),
                    Ok(_) => answered(
                        events.skip(k),
                        request(NinaCommand::GetHostByName, seq![]),
                        |reply: Seq<u8>| resolved_address(reply),
                        outcome,
                    ),
                },
            }
        }
}

/// Resolving ends with the first command when that command fails or the
/// peer refuses the request.
pub proof fn lemma_resolved_at_first(
    events: Seq<BusEvent>,
    hostname: Seq<u8>,
    first: Result<NinaResponseBuffer, Error>,
    error: Error,
)
    requires
        exchanged(
            events,
            request(NinaCommand::ReqHostByName, seq![short_param(hostname)]),
            1,
            first,
        ),
        match first {
            Err(e) => e == error,
            Ok(accepted) => resolving_accepted(accepted@) == Err::<u8, Error>(error),
        },
    ensures
        resolved(events, hostname, Err::<Seq<u8>, Error>(error)),
{
    let k = events.len() as int;
    assert(events.take(k) =~= events);
    assert(exchanged(
        events.take(k),
        request(NinaCommand::ReqHostByName, seq![short_param(hostname)]),
        1,
        first,
    ));
}

/// Resolving that got past the first command ends as the second command
/// does.
pub proof fn lemma_resolved_at_second(
    events: Seq<BusEvent>,
    k: int,
    hostname: Seq<u8>,
    first: Result<NinaResponseBuffer, Error>,
    second: Result<NinaResponseBuffer, Error>,
    outcome: Result<Seq<u8>, Error>,
)
    requires
        0 <= k <= events.len(),
        exchanged(
            events.take(k),
            request(NinaCommand::ReqHostByName, seq![short_param(hostname)]),
            1,
            first,
        ),
        first matches Ok(accepted) && resolving_accepted(accepted@) is Ok,
        exchanged(events.skip(k), request(NinaCommand::GetHostByName, seq![]), 1, second),
        outcome == match second {
            Ok(buffer) => resolved_address(buffer@),
            Err(e) => Err(e),
        },
    ensures
        resolved(events, hostname, outcome),
{
    assert(answered(
        events.skip(k),
        request(NinaCommand::GetHostByName, seq![]),
        |reply: Seq<u8>| resolved_address(reply),
        outcome,
    ));
}

/// The events of resolving a host name leave no choice of what came of it.
pub proof fn lemma_resolved_has_one_outcome(
    events: Seq<BusEvent>,
    hostname: Seq<u8>,
    first: Result<Seq<u8>, Error>,
    second: Result<Seq<u8>, Error>,
)
    requires
        resolved(events, hostname, first),
        resolved(events, hostname, second),
    ensures
        first == second,
{
    let question = request(NinaCommand::ReqHostByName, seq![short_param(hostname)]);
    let (j, asked_first) = choose|k: int, asked: Result<NinaResponseBuffer, Error>|
        {
            &&& 0 <= k <= events.len()
            &&& #[trigger] exchanged(events.take(k), question, 1, asked)
            &&& match asked {
                Err(e) => k == events.len() && first == Err::<Seq<u8>, Error>(e),
                Ok(accepted) => match resolving_accepted(accepted@) {
                    Err(e) => k == events.len() && first == Err::<Seq<u8>, Error>(e),
                    Ok(_) => answered(
                        events.skip(k),
                        request(NinaCommand::GetHostByName, seq![]),
                        |reply: Seq<u8>| resolved_address(reply),
                        first,
                    ),
                },
            }
        };
    let (k, asked_second) = choose|k: int, asked: Result<NinaResponseBuffer, Error>|
        {
            &&& 0 <= k <= events.len()
            &&& #[trigger] exchanged(events.take(k), question, 1, asked)
            &&& match asked {
                Err(e) => k == events.len() && second == Err::<Seq<u8>, Error>(e),
                Ok(accepted) => match resolving_accepted(accepted@) {
                    Err(e) => k == events.len() && second == Err::<Seq<u8>, Error>(e),
                    Ok(_) => answered(
                        events.skip(k),
                        request(NinaCommand::GetHostByName, seq![]),
                        |reply: Seq<u8>| resolved_address(reply),
                        second,
                    ),
                },
            }
        };
    lemma_exchanged_is_exchange(events.take(j), question, 1, asked_first);
    lemma_exchanged_is_exchange(events.take(k), question, 1, asked_second);
    lemma_exchanges_end_alike(events, j, k);
    lemma_exchanged_has_one_outcome(events.take(k), question, 1, asked_first, asked_second);
    if asked_first matches Ok(accepted) && resolving_accepted(accepted@) is Ok {
        lemma_answered_has_one_outcome(
            events.skip(k),
            request(NinaCommand::GetHostByName, seq![]),
            |reply: Seq<u8>| resolved_address(reply),
            first,
            second,
        );
    }
}

/// The number of bytes that wait on a socket, as the peer's reply spells
/// it, low byte first. The peer reports one more than it hands out when it
/// reports 5744.
pub open spec fn available_length(reply: Seq<u8>) -> int {
    if word_of(reply[0], reply[1]) == 5744 {
        5743
    } else {
        word_of(reply[0], reply[1]) as int
    }
}

/// The request for a chunk of what waits on `socket`: the socket, and the
/// length asked for as a word, most significant byte first.
pub open spec fn chunk_request(socket: u8, length: usize) -> OperationModel {
    request(
        NinaCommand::GetDataBufTcp,
        seq![
            long_param(seq![socket]),
            long_param(bytes_of_word((length % 0x1_0000) as u16)),
        ],
    )
}

} // verus!
