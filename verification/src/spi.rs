//! The protocol engine: one command and its reply at a time, byte by byte,
//! over the bus and the control lines.
//!
//! The engine touches its collaborators in six small functions only: `init`,
//! `reset`, `select`, `deselect`, `exchange` and `pause`. Each of them makes
//! one call and writes it into the record in the same breath, so the record
//! that the contracts speak of is the list of the calls that were made.

use core::convert::Infallible;
use vstd::prelude::*;
use vstd::string::StringSliceAdditionalSpecFns;

use crate::bus::{
    all_reads, all_transfers, bytes_received, bytes_sent, lemma_bytes_of_concat,
    lemma_transfer_step, read_of, BusEvent, Transfer,
};
use crate::command::{
    answered, as_bytes, available_length, chunk_request, lemma_resolved_at_first,
    lemma_resolved_at_second, long_param, request, resolved, resolved_address, resolving_accepted,
    second_server, short_param,
};
use crate::exchange::{
    body_of, deselected, exchanged, exchanged_data16, executed, lemma_transaction, received,
    received_data16,
};
use crate::gpio::{DelayMs, EspControlInterface, IOError};
use crate::network::{
    ConnectionState, ConnectionStatus, IpAddress, NetworkError, Port, Socket, TransportMode,
};
use crate::protocol::operation::Operation;
use crate::protocol::{
    NinaCommand, NinaParam, NinaResponseBuffer, NinaResponseBufferWithLength, ParamKind,
    ProtocolError, MAX_NINA_PARAMS, MAX_NINA_RESPONSE_LENGTH,
};
use crate::receive::{
    as_data, data_received, drained, lemma_chunk_fits, lemma_chunk_has_events,
    lemma_drained_done, lemma_drained_last, lemma_drained_step, with_chunk, POLL_DELAY_MS,
};
use crate::record::{
    events_since, extends, lemma_extends_push, lemma_extends_self, lemma_extends_twice,
};
use crate::reply::{
    buffer_holding, header_checked, long_body, quiet, short_body, stored_length, waited,
    RETRY_LIMIT,
};
use crate::wire::{
    bytes_of_word, lemma_request_is_aligned, length_prefix, padded_request, padding_for,
    param_bytes, params_bytes, request_byte, request_header, word_of, ControlByte, ParamModel,
};
use crate::{Error, FirmwareVersion};

verus! {

/// The engine. It owns the bus and the control lines, and holds no other
/// state between calls than the record of what it did on them.
pub struct NinaProtocolHandler<S: Transfer, C: EspControlInterface> {
    bus: S,
    control_pins: C,
    record: Ghost<Seq<BusEvent>>,
}

impl<S: Transfer, C: EspControlInterface> NinaProtocolHandler<S, C> {
    /// Every call that the engine has made on the bus, the control lines and
    /// the delay since it was built, in order.
    pub closed spec fn trace(&self) -> Seq<BusEvent> {
        self.record@
    }

    /// The bus and the control lines that the engine holds.
    pub closed spec fn parts(&self) -> (S, C) {
        (self.bus, self.control_pins)
    }

    /// An engine on `bus` and `control_pins` that has done nothing yet.
    pub fn new(bus: S, control_pins: C) -> (handler: Self)
        ensures
            handler.trace() == Seq::<BusEvent>::empty(),
            handler.parts() == (bus, control_pins),
    {
        NinaProtocolHandler { bus, control_pins, record: Ghost(Seq::empty()) }
    }

    /// Gives the bus and the control lines back, as they are now.
    pub fn release(self) -> (parts: (S, C))
        ensures
            parts == self.parts(),
    {
        (self.bus, self.control_pins)
    }

    /// Drives the control lines to their idle levels.
    pub fn init(&mut self) -> (result: Result<(), Error>)
        ensures
            final(self).trace() == old(self).trace().push(BusEvent::Init { ok: result is Ok }),
            result is Err ==> result == Err::<(), Error>(Error::Io(IOError::Pin)),
    {
        let outcome = self.control_pins.init();
        let ok = outcome.is_ok();
        self.record = Ghost(self.record@.push(BusEvent::Init { ok }));
        if ok {
            Ok(())
        } else {
            Err(Error::Io(IOError::Pin))
        }
    }

    /// Resets the peer by its reset line; `delay` times the pulse.
    pub fn reset<D: DelayMs>(&mut self, delay: &mut D) -> (result: Result<(), Error>)
        ensures
            final(self).trace() == old(self).trace().push(BusEvent::Reset { ok: result is Ok }),
            result is Err ==> result == Err::<(), Error>(Error::Io(IOError::Pin)),
    {
        let outcome = self.control_pins.reset(delay);
        let ok = outcome.is_ok();
        self.record = Ghost(self.record@.push(BusEvent::Reset { ok }));
        if ok {
            Ok(())
        } else {
            Err(Error::Io(IOError::Pin))
        }
    }

    /// Sleeps for `ms` milliseconds.
    fn pause<D: DelayMs>(&mut self, delay: &mut D, ms: u16)
        ensures
            final(self).trace() == old(self).trace().push(BusEvent::Delay { ms }),
    {
        delay.delay_ms(ms);
        self.record = Ghost(self.record@.push(BusEvent::Delay { ms }));
    }

    /// Acquires the peer for a transaction.
    fn select(&mut self) -> (result: Result<(), Error>)
        ensures
            final(self).trace() == old(self).trace().push(BusEvent::Select { ok: result is Ok }),
            result is Err ==> result == Err::<(), Error>(Error::Io(IOError::Pin)),
    {
        let outcome = self.control_pins.wait_for_esp_select();
        let ok = outcome.is_ok();
        self.record = Ghost(self.record@.push(BusEvent::Select { ok }));
        if ok {
            Ok(())
        } else {
            Err(Error::Io(IOError::Pin))
        }
    }

    /// Lets the peer go.
    fn deselect(&mut self) -> (result: Result<(), Error>)
        ensures
            final(self).trace() == old(self).trace().push(
                BusEvent::Deselect { ok: result is Ok },
            ),
            result is Err ==> result == Err::<(), Error>(Error::Io(IOError::Pin)),
    {
        let outcome = self.control_pins.esp_deselect();
        let ok = outcome.is_ok();
        self.record = Ghost(self.record@.push(BusEvent::Deselect { ok }));
        if ok {
            Ok(())
        } else {
            Err(Error::Io(IOError::Pin))
        }
    }

    /// Moves one byte each way.
    fn exchange(&mut self, word: u8) -> (received: u8)
        ensures
            final(self).trace() == old(self).trace().push(
                BusEvent::Transfer { sent: word, received },
            ),
    {
        let received = self.bus.transfer(word);
        self.record = Ghost(self.record@.push(BusEvent::Transfer { sent: word, received }));
        received
    }

    /// Reads one byte: the dummy byte goes out, and what the peer clocks in
    /// meanwhile comes back.
    pub fn get_byte(&mut self) -> (result: Result<u8, Infallible>)
        ensures
            result is Ok,
            final(self).trace() == old(self).trace().push(read_of(result->Ok_0)),
    {
        let byte = self.exchange(ControlByte::Dummy.as_byte());
        Ok(byte)
    }

    /// Sends the byte that closes a frame.
    pub fn send_end_cmd(&mut self) -> (result: Result<(), Infallible>)
        ensures
            result is Ok,
            extends(old(self).trace(), final(self).trace()),
            all_transfers(events_since(old(self).trace(), final(self).trace())),
            bytes_sent(events_since(old(self).trace(), final(self).trace())) == seq![
                ControlByte::End.value(),
            ],
    {
        let ghost before = self.trace();
        let received = self.exchange(ControlByte::End.as_byte());
        proof {
            lemma_extends_self(before);
            lemma_extends_push(
                before,
                before,
                BusEvent::Transfer { sent: ControlByte::End.value(), received },
            );
            assert(bytes_sent(events_since(before, self.trace())) =~= seq![
                ControlByte::End.value(),
            ]);
        }
        Ok(())
    }

    /// Sends `bytes`, one transfer each, and drops what comes in meanwhile.
    fn send_bytes(&mut self, bytes: &[u8])
        ensures
            extends(old(self).trace(), final(self).trace()),
            all_transfers(events_since(old(self).trace(), final(self).trace())),
            bytes_sent(events_since(old(self).trace(), final(self).trace())) == bytes@,
    {
        let ghost before = self.trace();
        proof {
            lemma_extends_self(before);
        }
        let mut i: usize = 0;
        while i < bytes.len()
            invariant
                i <= bytes@.len(),
                extends(before, self.trace()),
                all_transfers(events_since(before, self.trace())),
                bytes_sent(events_since(before, self.trace())) == bytes@.take(i as int),
            decreases bytes@.len() - i,
        {
            let ghost so_far = self.trace();
            let received = self.exchange(bytes[i]);
            proof {
                lemma_transfer_step(before, so_far, bytes@[i as int], received);
                assert(bytes@.take(i as int).push(bytes@[i as int]) =~= bytes@.take(i + 1));
            }
            i += 1;
        }
        assert(bytes@.take(bytes@.len() as int) =~= bytes@);
    }

    /// Sends the header of a request: the start byte, the command byte with
    /// the reply flag cleared, and the number of parameters. A request
    /// without parameters is closed at once with the end byte.
    pub fn send_cmd(&mut self, cmd: &NinaCommand, num_params: u8) -> (result: Result<(), Error>)
        ensures
            result is Ok,
            extends(old(self).trace(), final(self).trace()),
            all_transfers(events_since(old(self).trace(), final(self).trace())),
            bytes_sent(events_since(old(self).trace(), final(self).trace())) == request_header(
                cmd.code(),
                num_params,
            ),
    {
        let ghost before = self.trace();
        let buf: [u8; 3] = [
            ControlByte::Start.as_byte(),
            cmd.as_byte() & !ControlByte::Reply.as_byte(),
            num_params,
        ];
        self.send_bytes(buf.as_slice());
        let ghost middle = self.trace();
        assert(buf@ =~= seq![ControlByte::Start.value(), request_byte(cmd.code()), num_params]);
        if num_params == 0 {
            let _ = self.send_end_cmd();
            proof {
                lemma_extends_twice(before, middle, self.trace());
                lemma_bytes_of_concat(
                    events_since(before, middle),
                    events_since(middle, self.trace()),
                );
            }
        }
        Ok(())
    }

    /// Sends the length prefix of `param`.
    pub fn send_param_length(&mut self, param: &NinaParam) -> (result: Result<(), Infallible>)
        ensures
            result is Ok,
            extends(old(self).trace(), final(self).trace()),
            all_transfers(events_since(old(self).trace(), final(self).trace())),
            bytes_sent(events_since(old(self).trace(), final(self).trace())) == length_prefix(
                param@.payload.len() as int,
                param@.width,
            ),
    {
        let bytes = param.length_as_bytes();
        self.send_bytes(bytes.as_slice());
        Ok(())
    }

    /// Sends `param`: its length prefix, then its payload.
    pub fn send_param(&mut self, param: &NinaParam) -> (result: Result<(), Infallible>)
        ensures
            result is Ok,
            extends(old(self).trace(), final(self).trace()),
            all_transfers(events_since(old(self).trace(), final(self).trace())),
            bytes_sent(events_since(old(self).trace(), final(self).trace())) == param_bytes(
                param@,
            ),
    {
        let ghost before = self.trace();
        let _ = self.send_param_length(param);
        let ghost middle = self.trace();
        self.send_bytes(param.data());
        proof {
            lemma_extends_twice(before, middle, self.trace());
            lemma_bytes_of_concat(events_since(before, middle), events_since(middle, self.trace()));
        }
        Ok(())
    }

    /// Reads and drops bytes until `command_size`, counted up by one for
    /// each, is a multiple of four.
    pub fn pad_to_multiple_of_4(&mut self, command_size: usize)
        ensures
            extends(old(self).trace(), final(self).trace()),
            all_reads(events_since(old(self).trace(), final(self).trace())),
            events_since(old(self).trace(), final(self).trace()).len() == padding_for(
                command_size as int,
            ),
    {
        let ghost before = self.trace();
        proof {
            lemma_extends_self(before);
        }
        let mut rest: usize = command_size % 4;
        while rest != 0
            invariant
                rest < 4,
                extends(before, self.trace()),
                all_reads(events_since(before, self.trace())),
                (command_size + events_since(before, self.trace()).len()) % 4 == rest as int,
                events_since(before, self.trace()).len() < 4,
                events_since(before, self.trace()).len() + padding_for(rest as int)
                    == padding_for(command_size as int),
            decreases padding_for(rest as int),
        {
            let ghost so_far = self.trace();
            let byte = self.get_byte().unwrap();
            proof {
                lemma_transfer_step(before, so_far, ControlByte::Dummy.value(), byte);
            }
            rest = (rest + 1) % 4;
        }
    }

    /// Reads until `wait_byte` comes in, for at most [`RETRY_LIMIT`] bytes.
    /// The error byte ends the wait at once: two bytes more are read and
    /// dropped, and the wait fails with `NinaProtocolVersionMismatch`. When
    /// the limit is used up the wait fails with `CommunicationTimeout`.
    pub fn wait_for_byte(&mut self, wait_byte: u8) -> (result: Result<bool, Error>)
        ensures
            extends(old(self).trace(), final(self).trace()),
            all_reads(events_since(old(self).trace(), final(self).trace())),
            waited(
                bytes_received(events_since(old(self).trace(), final(self).trace())),
                wait_byte,
                result,
            ),
    {
        let ghost before = self.trace();
        proof {
            lemma_extends_self(before);
        }
        let mut tries: u16 = 0;
        while tries < RETRY_LIMIT
            invariant
                tries <= RETRY_LIMIT,
                before == old(self).trace(),
                extends(before, self.trace()),
                all_reads(events_since(before, self.trace())),
                bytes_received(events_since(before, self.trace())).len() == tries,
                quiet(bytes_received(events_since(before, self.trace())), wait_byte, tries as int),
            decreases RETRY_LIMIT - tries,
        {
            let ghost so_far = self.trace();
            let ghost seen = bytes_received(events_since(before, so_far));
            let byte_read = self.get_byte().unwrap();
            proof {
                lemma_transfer_step(before, so_far, ControlByte::Dummy.value(), byte_read);
                assert(quiet(seen.push(byte_read), wait_byte, tries as int)) by {
                    assert forall|j: int| 0 <= j < tries implies (#[trigger] seen.push(
                        byte_read,
                    )[j]) != ControlByte::Error.value() && seen.push(byte_read)[j]
                        != wait_byte by {
                        assert(seen[j] != ControlByte::Error.value());
                    }
                }
            }
            if byte_read == ControlByte::Error.as_byte() {
                let ghost first = self.trace();
                let second_byte = self.get_byte().unwrap();
                let ghost second = self.trace();
                let third_byte = self.get_byte().unwrap();
                proof {
                    lemma_transfer_step(before, first, ControlByte::Dummy.value(), second_byte);
                    lemma_transfer_step(before, second, ControlByte::Dummy.value(), third_byte);
                    let all = bytes_received(events_since(before, self.trace()));
                    assert(all == seen.push(byte_read).push(second_byte).push(third_byte));
                    assert(quiet(all, wait_byte, all.len() - 3)) by {
                        assert forall|j: int| 0 <= j < all.len() - 3 implies (#[trigger] all[j])
                            != ControlByte::Error.value() && all[j] != wait_byte by {
                            assert(seen[j] != ControlByte::Error.value());
                        }
                    }
                }
                return Err(Error::Protocol(ProtocolError::NinaProtocolVersionMismatch));
            } else if byte_read == wait_byte {
                return Ok(true);
            }
            proof {
                let now = seen.push(byte_read);
                assert forall|j: int| 0 <= j < tries + 1 implies (#[trigger] now[j])
                    != ControlByte::Error.value() && now[j] != wait_byte by {
                    if j < tries {
                        assert(seen[j] != ControlByte::Error.value());
                    }
                }
            }
            tries += 1;
        }
        Err(Error::Protocol(ProtocolError::CommunicationTimeout))
    }

    /// Waits for the byte that opens a reply.
    pub fn check_start_cmd(&mut self) -> (result: Result<bool, Error>)
        ensures
            extends(old(self).trace(), final(self).trace()),
            all_reads(events_since(old(self).trace(), final(self).trace())),
            waited(
                bytes_received(events_since(old(self).trace(), final(self).trace())),
                ControlByte::Start.value(),
                result,
            ),
    {
        self.wait_for_byte(ControlByte::Start.as_byte())
    }

    /// Reads one byte and tells whether it is `check_byte`.
    pub fn read_and_check_byte(&mut self, check_byte: &u8) -> (result: Result<bool, Infallible>)
        ensures
            result is Ok,
            extends(old(self).trace(), final(self).trace()),
            all_reads(events_since(old(self).trace(), final(self).trace())),
            bytes_received(events_since(old(self).trace(), final(self).trace())).len() == 1,
            result->Ok_0 == (bytes_received(
                events_since(old(self).trace(), final(self).trace()),
            )[0] == *check_byte),
    {
        let ghost before = self.trace();
        let byte = self.get_byte().unwrap();
        proof {
            lemma_extends_self(before);
            lemma_transfer_step(before, before, ControlByte::Dummy.value(), byte);
        }
        Ok(byte == *check_byte)
    }

    /// Checks the header of the reply to `cmd`: waits for the start byte,
    /// then reads the command byte, which must be that of `cmd` with the
    /// reply flag set, and the number of parameters, which must be
    /// `num_params`. Nothing is read behind the first byte that fails.
    pub fn check_response_ready(&mut self, cmd: &NinaCommand, num_params: u8) -> (result: Result<
        (),
        Error,
    >)
        ensures
            extends(old(self).trace(), final(self).trace()),
            all_reads(events_since(old(self).trace(), final(self).trace())),
            header_checked(
                bytes_received(events_since(old(self).trace(), final(self).trace())),
                cmd.code(),
                num_params,
                result,
            ),
    {
        let ghost before = self.trace();
        match self.check_start_cmd() {
            Err(e) => {
                return Err(e);
            },
            Ok(_) => {},
        }
        let ghost started = self.trace();
        let ghost waiting = bytes_received(events_since(before, started));
        let byte_to_check: u8 = cmd.as_byte() | ControlByte::Reply.as_byte();
        let is_reply = self.read_and_check_byte(&byte_to_check).unwrap();
        let ghost named = self.trace();
        proof {
            lemma_extends_twice(before, started, named);
            lemma_bytes_of_concat(events_since(before, started), events_since(started, named));
            let bytes = bytes_received(events_since(before, named));
            assert(bytes.take(bytes.len() - 1) =~= waiting);
        }
        if !is_reply {
            return Err(Error::Protocol(ProtocolError::InvalidCommand));
        }
        let is_expected = self.read_and_check_byte(&num_params).unwrap();
        proof {
            lemma_extends_twice(before, named, self.trace());
            lemma_bytes_of_concat(events_since(before, named), events_since(named, self.trace()));
            let bytes = bytes_received(events_since(before, self.trace()));
            assert(bytes.take(bytes.len() - 2) =~= waiting);
        }
        if !is_expected {
            return Err(Error::Protocol(ProtocolError::InvalidNumberOfParameters));
        }
        Ok(())
    }

    /// Reads `response_length_in_bytes` bytes into the front of the buffer,
    /// as far as the buffer has room, and leaves the rest of it as it is.
    pub fn read_response_bytes(
        &mut self,
        response_param_buffer: NinaResponseBuffer,
        response_length_in_bytes: usize,
    ) -> (result: Result<NinaResponseBuffer, Error>)
        ensures
            result is Ok,
            extends(old(self).trace(), final(self).trace()),
            all_reads(events_since(old(self).trace(), final(self).trace())),
            events_since(old(self).trace(), final(self).trace()).len() == stored_length(
                response_length_in_bytes as int,
            ),
            result->Ok_0@ == bytes_received(
                events_since(old(self).trace(), final(self).trace()),
            ) + response_param_buffer@.skip(stored_length(response_length_in_bytes as int)),
    {
        let ghost before = self.trace();
        proof {
            lemma_extends_self(before);
        }
        let mut buffer = response_param_buffer;
        let count: usize = if response_length_in_bytes > MAX_NINA_RESPONSE_LENGTH {
            MAX_NINA_RESPONSE_LENGTH
        } else {
            response_length_in_bytes
        };
        let mut i: usize = 0;
        while i < count
            invariant
                i <= count <= MAX_NINA_RESPONSE_LENGTH,
                extends(before, self.trace()),
                all_reads(events_since(before, self.trace())),
                events_since(before, self.trace()).len() == i,
                buffer@ == bytes_received(events_since(before, self.trace()))
                    + response_param_buffer@.skip(i as int),
            decreases count - i,
        {
            let ghost so_far = self.trace();
            let ghost held = buffer@;
            let byte = self.get_byte().unwrap();
            buffer[i] = byte;
            proof {
                lemma_transfer_step(before, so_far, ControlByte::Dummy.value(), byte);
                assert(buffer@ == held.update(i as int, byte));
                assert(buffer@ =~= bytes_received(events_since(before, self.trace()))
                    + response_param_buffer@.skip(i + 1));
            }
            i += 1;
        }
        Ok(buffer)
    }

    /// Reads the body of a short reply: one byte of length, which must not
    /// be above [`MAX_NINA_PARAMS`], that many bytes of payload into a
    /// buffer of zeros, and the byte in the place of the end byte, which is
    /// not held against the reply.
    pub fn read_response(&mut self) -> (result: Result<NinaResponseBuffer, Error>)
        ensures
            extends(old(self).trace(), final(self).trace()),
            all_reads(events_since(old(self).trace(), final(self).trace())),
            short_body(
                bytes_received(events_since(old(self).trace(), final(self).trace())),
                result,
            ),
    {
        let ghost before = self.trace();
        let length_byte = self.get_byte().unwrap();
        let response_length_in_bytes = length_byte as usize;
        let ghost counted = self.trace();
        proof {
            lemma_extends_self(before);
            lemma_transfer_step(before, before, ControlByte::Dummy.value(), length_byte);
        }
        if response_length_in_bytes > MAX_NINA_PARAMS {
            return Err(Error::Protocol(ProtocolError::TooManyParameters));
        }
        let zeros: NinaResponseBuffer = [0; MAX_NINA_RESPONSE_LENGTH];
        let response_param_buffer = match self.read_response_bytes(
            zeros,
            response_length_in_bytes,
        ) {
            Ok(buffer) => buffer,
            Err(e) => {
                return Err(e);
            },
        };
        let ghost filled = self.trace();
        let control_byte: u8 = ControlByte::End.as_byte();
        let _ = self.read_and_check_byte(&control_byte);
        proof {
            let payload = bytes_received(events_since(counted, filled));
            lemma_extends_twice(before, counted, filled);
            lemma_bytes_of_concat(events_since(before, counted), events_since(counted, filled));
            lemma_extends_twice(before, filled, self.trace());
            lemma_bytes_of_concat(events_since(before, filled), events_since(filled, self.trace()));
            let bytes = bytes_received(events_since(before, self.trace()));
            assert(bytes.subrange(1, 1 + length_byte as int) =~= payload);
            assert(response_param_buffer@ =~= buffer_holding(payload));
        }
        Ok(response_param_buffer)
    }

    /// Reads the body of a long reply: two bytes of length, most significant
    /// first, the payload into a buffer of zeros as far as the buffer has
    /// room, and the byte in the place of the end byte, which is not held
    /// against the reply. The length that is returned counts the bytes of
    /// payload that the buffer holds.
    pub fn read_response16(&mut self) -> (result: Result<NinaResponseBufferWithLength, Error>)
        ensures
            extends(old(self).trace(), final(self).trace()),
            all_reads(events_since(old(self).trace(), final(self).trace())),
            long_body(
                bytes_received(events_since(old(self).trace(), final(self).trace())),
                result,
            ),
    {
        let ghost before = self.trace();
        let high = self.get_byte().unwrap();
        let ghost half = self.trace();
        let low = self.get_byte().unwrap();
        let ghost counted = self.trace();
        proof {
            lemma_extends_self(before);
            lemma_transfer_step(before, before, ControlByte::Dummy.value(), high);
            lemma_transfer_step(before, half, ControlByte::Dummy.value(), low);
        }
        let announced: usize = Self::combine_2_bytes(low, high) as usize;
        let zeros: NinaResponseBuffer = [0; MAX_NINA_RESPONSE_LENGTH];
        let response_param_buffer = match self.read_response_bytes(zeros, announced) {
            Ok(buffer) => buffer,
            Err(e) => {
                return Err(e);
            },
        };
        let ghost filled = self.trace();
        let control_byte: u8 = ControlByte::End.as_byte();
        let _ = self.read_and_check_byte(&control_byte);
        let response_length: usize = if announced > MAX_NINA_RESPONSE_LENGTH {
            MAX_NINA_RESPONSE_LENGTH
        } else {
            announced
        };
        proof {
            let payload = bytes_received(events_since(counted, filled));
            lemma_extends_twice(before, counted, filled);
            lemma_bytes_of_concat(events_since(before, counted), events_since(counted, filled));
            lemma_extends_twice(before, filled, self.trace());
            lemma_bytes_of_concat(events_since(before, filled), events_since(filled, self.trace()));
            let bytes = bytes_received(events_since(before, self.trace()));
            assert(bytes[0] == high && bytes[1] == low);
            assert(bytes.subrange(2, 2 + response_length as int) =~= payload);
            assert(response_param_buffer@ =~= buffer_holding(payload));
        }
        Ok((response_length, response_param_buffer))
    }

    /// Sends the request `operation` in one transaction: the handshake, the
    /// frame, the reads that pad the exchange to a multiple of four bytes,
    /// and the release. Whatever happens, the peer is released before the
    /// call returns.
    pub fn execute(&mut self, operation: &Operation) -> (result: Result<(), Error>)
        ensures
            extends(old(self).trace(), final(self).trace()),
            executed(events_since(old(self).trace(), final(self).trace()), operation@, result),
            body_of(events_since(old(self).trace(), final(self).trace())).len() % 4 == 0,
            deselected(final(self).trace()),
    {
        let ghost before = self.trace();
        if let Err(e) = self.select() {
            let ghost selected = self.trace();
            let released = self.deselect();
            proof {
                lemma_extends_self(selected);
                lemma_transaction(before, selected, selected, self.trace(), false, released is Ok);
            }
            return Err(e);
        }
        let ghost selected = self.trace();
        let number_of_params: usize = operation.param_count();
        let command = operation.command();
        let _ = self.send_cmd(&command, number_of_params as u8);
        let mut command_size: usize = 4;
        if number_of_params > 0 {
            let mut i: usize = 0;
            while i < number_of_params
                invariant
                    i <= number_of_params == operation@.params.len(),
                    number_of_params <= MAX_NINA_PARAMS,
                    extends(selected, self.trace()),
                    all_transfers(events_since(selected, self.trace())),
                    bytes_sent(events_since(selected, self.trace())) == seq![
                        ControlByte::Start.value(),
                        request_byte(operation@.command.code()),
                        number_of_params as u8,
                    ] + params_bytes(operation@.params.take(i as int)),
                    command_size == 4 + params_bytes(operation@.params.take(i as int)).len(),
                    command_size <= 4 + i * 65537,
                decreases number_of_params - i,
            {
                let ghost so_far = self.trace();
                let param = operation.param_at(i);
                let _ = self.send_param(param);
                command_size = command_size + param.length() as usize + param.length_size() as usize;
                proof {
                    lemma_extends_twice(selected, so_far, self.trace());
                    lemma_bytes_of_concat(
                        events_since(selected, so_far),
                        events_since(so_far, self.trace()),
                    );
                    let sent = operation@.params.take(i + 1);
                    assert(sent.drop_last() =~= operation@.params.take(i as int));
                    assert(sent.last() == operation@.params[i as int]);
                }
                i += 1;
            }
            let ghost listed = self.trace();
            let _ = self.send_end_cmd();
            let ghost closed = self.trace();
            self.pad_to_multiple_of_4(command_size);
            proof {
                assert(operation@.params.take(number_of_params as int) =~= operation@.params);
                lemma_extends_twice(selected, listed, closed);
                lemma_bytes_of_concat(events_since(selected, listed), events_since(listed, closed));
                lemma_extends_twice(selected, closed, self.trace());
                lemma_bytes_of_concat(
                    events_since(selected, closed),
                    events_since(closed, self.trace()),
                );
                let padding = events_since(closed, self.trace());
                assert(bytes_sent(padding) =~= Seq::new(
                    padding.len(),
                    |i: int| ControlByte::Dummy.value(),
                )) by {
                    assert forall|i: int| 0 <= i < padding.len() implies bytes_sent(padding)[i]
                        == ControlByte::Dummy.value() by {
                        assert(padding[i] == read_of(padding[i].received()));
                    }
                }
                assert(all_transfers(padding)) by {
                    assert forall|i: int| 0 <= i < padding.len() implies (#[trigger] padding[i])
                        is Transfer by {
                        assert(padding[i] == read_of(padding[i].received()));
                    }
                }
                assert(bytes_sent(events_since(selected, self.trace())) =~= padded_request(
                    operation@.command.code(),
                    operation@.params,
                ));
            }
        } else {
            proof {
                assert(operation@.params =~= Seq::<ParamModel>::empty());
                assert(bytes_sent(events_since(selected, self.trace())) =~= padded_request(
                    operation@.command.code(),
                    operation@.params,
                ));
            }
        }
        let ghost done = self.trace();
        let result = self.deselect();
        proof {
            lemma_transaction(before, selected, done, self.trace(), true, result is Ok);
            lemma_request_is_aligned(operation@.command.code(), operation@.params);
        }
        match result {
            Ok(_) => Ok(()),
            Err(e) => Err(e),
        }
    }

    /// Reads the short reply to `operation` in one transaction: the
    /// handshake, the header, which must name the command and hold
    /// `expected_num_params` parameters, the body, and the release. Whatever
    /// happens, the peer is released before the call returns.
    pub fn receive(&mut self, operation: &Operation, expected_num_params: u8) -> (result: Result<
        NinaResponseBuffer,
        Error,
    >)
        ensures
            extends(old(self).trace(), final(self).trace()),
            received(
                events_since(old(self).trace(), final(self).trace()),
                operation@.command.code(),
                expected_num_params,
                result,
            ),
            deselected(final(self).trace()),
    {
        let ghost before = self.trace();
        if let Err(e) = self.select() {
            let ghost selected = self.trace();
            let released = self.deselect();
            proof {
                lemma_extends_self(selected);
                lemma_transaction(before, selected, selected, self.trace(), false, released is Ok);
            }
            return Err(e);
        }
        let ghost selected = self.trace();
        let command = operation.command();
        if let Err(e) = self.check_response_ready(&command, expected_num_params) {
            let ghost done = self.trace();
            let released = self.deselect();
            proof {
                lemma_transaction(before, selected, done, self.trace(), true, released is Ok);
            }
            return Err(e);
        }
        let ghost checked = self.trace();
        let body = self.read_response();
        let ghost done = self.trace();
        let released = self.deselect();
        proof {
            lemma_extends_twice(selected, checked, done);
            lemma_bytes_of_concat(events_since(selected, checked), events_since(checked, done));
            lemma_transaction(before, selected, done, self.trace(), true, released is Ok);
            let bytes = bytes_received(events_since(selected, done));
            let k = events_since(selected, checked).len() as int;
            assert(bytes.take(k) =~= bytes_received(events_since(selected, checked)));
            assert(bytes.skip(k) =~= bytes_received(events_since(checked, done)));
            assert(header_checked(
                bytes.take(k),
                operation@.command.code(),
                expected_num_params,
                Ok::<(), Error>(()),
            ) && short_body(bytes.skip(k), body));
        }
        match body {
            Ok(buffer) => match released {
                Ok(_) => Ok(buffer),
                Err(e) => Err(e),
            },
            Err(e) => Err(e),
        }
    }

    /// Reads the long reply to `operation` in one transaction: the
    /// handshake, the header, which must name the command and hold
    /// `expected_num_params` parameters, the body with its length of two
    /// bytes, and the release. Whatever happens, the peer is released before
    /// the call returns.
    pub fn receive_data16(&mut self, operation: &Operation, expected_num_params: u8) -> (result:
        Result<NinaResponseBufferWithLength, Error>)
        ensures
            extends(old(self).trace(), final(self).trace()),
            received_data16(
                events_since(old(self).trace(), final(self).trace()),
                operation@.command.code(),
                expected_num_params,
                result,
            ),
            deselected(final(self).trace()),
    {
        let ghost before = self.trace();
        if let Err(e) = self.select() {
            let ghost selected = self.trace();
            let released = self.deselect();
            proof {
                lemma_extends_self(selected);
                lemma_transaction(before, selected, selected, self.trace(), false, released is Ok);
            }
            return Err(e);
        }
        let ghost selected = self.trace();
        let command = operation.command();
        if let Err(e) = self.check_response_ready(&command, expected_num_params) {
            let ghost done = self.trace();
            let released = self.deselect();
            proof {
                lemma_transaction(before, selected, done, self.trace(), true, released is Ok);
            }
            return Err(e);
        }
        let ghost checked = self.trace();
        let body = self.read_response16();
        let ghost done = self.trace();
        let released = self.deselect();
        proof {
            lemma_extends_twice(selected, checked, done);
            lemma_bytes_of_concat(events_since(selected, checked), events_since(checked, done));
            lemma_transaction(before, selected, done, self.trace(), true, released is Ok);
            let bytes = bytes_received(events_since(selected, done));
            let k = events_since(selected, checked).len() as int;
            assert(bytes.take(k) =~= bytes_received(events_since(selected, checked)));
            assert(bytes.skip(k) =~= bytes_received(events_since(checked, done)));
            assert(header_checked(
                bytes.take(k),
                operation@.command.code(),
                expected_num_params,
                Ok::<(), Error>(()),
            ) && long_body(bytes.skip(k), body));
        }
        match body {
            Ok(reply) => match released {
                Ok(_) => Ok(reply),
                Err(e) => Err(e),
            },
            Err(e) => Err(e),
        }
    }

    /// Sends `operation` and reads the short reply to it, which must hold one
    /// parameter. The reply is not awaited when the request could not be
    /// sent.
    pub fn send_command(&mut self, operation: &Operation) -> (result: Result<
        NinaResponseBuffer,
        Error,
    >)
        ensures
            extends(old(self).trace(), final(self).trace()),
            exchanged(events_since(old(self).trace(), final(self).trace()), operation@, 1, result),
            deselected(final(self).trace()),
    {
        let ghost before = self.trace();
        if let Err(e) = self.execute(operation) {
            return Err(e);
        }
        let ghost sent = self.trace();
        let result = self.receive(operation, 1);
        proof {
            lemma_extends_twice(before, sent, self.trace());
            let events = events_since(before, self.trace());
            let k = events_since(before, sent).len() as int;
            assert(events.take(k) =~= events_since(before, sent));
            assert(events.skip(k) =~= events_since(sent, self.trace()));
        }
        result
    }

    /// Asks the peer for the version of its firmware.
    pub fn get_fw_version(&mut self) -> (result: Result<FirmwareVersion, Error>)
        ensures
            extends(old(self).trace(), final(self).trace()),
            deselected(final(self).trace()),
            answered(
                events_since(old(self).trace(), final(self).trace()),
                request(NinaCommand::GetFwVersion, seq![]),
                |reply: Seq<u8>| Ok::<FirmwareVersion, Error>(FirmwareVersion::spelled(reply.take(5))),
                result,
            ),
    {
        let operation = Operation::new(NinaCommand::GetFwVersion);
        assert(operation@ == request(NinaCommand::GetFwVersion, seq![]));
        let reply = self.send_command(&operation);
        match reply {
            Ok(buffer) => {
                let version: [u8; 5] = [buffer[0], buffer[1], buffer[2], buffer[3], buffer[4]];
                assert(version@ =~= buffer@.take(5));
                Ok(FirmwareVersion::new(version))
            },
            Err(e) => Err(e),
        }
    }

    /// Hands the peer the name of the network to join and its passphrase.
    /// Fails with `PayloadTooLarge`, before anything is sent, when either
    /// has more than 255 bytes.
    pub fn set_passphrase(&mut self, ssid: &str, passphrase: &str) -> (result: Result<(), Error>)
        ensures
            extends(old(self).trace(), final(self).trace()),
            if ssid.spec_bytes().len() > 255 || passphrase.spec_bytes().len() > 255 {
                &&& result == Err::<(), Error>(Error::Protocol(ProtocolError::PayloadTooLarge))
                &&& final(self).trace() == old(self).trace()
            } else {
                &&& deselected(final(self).trace())
                &&& answered(
                    events_since(old(self).trace(), final(self).trace()),
                    request(
                        NinaCommand::SetPassphrase,
                        seq![short_param(ssid.spec_bytes()), short_param(passphrase.spec_bytes())],
                    ),
                    |reply: Seq<u8>| Ok::<(), Error>(()),
                    result,
                )
            },
    {
        proof {
            lemma_extends_self(self.trace());
        }
        let operation = Operation::new(NinaCommand::SetPassphrase).param(
            NinaParam::new(ParamKind::SmallArray, ssid)?,
        ).param(NinaParam::new(ParamKind::SmallArray, passphrase)?);
        assert(operation@.params =~= seq![
            short_param(ssid.spec_bytes()),
            short_param(passphrase.spec_bytes()),
        ]);
        match self.send_command(&operation) {
            Ok(_) => Ok(()),
            Err(e) => Err(e),
        }
    }

    /// Asks the peer for the state of the Wi-Fi link.
    pub fn get_conn_status(&mut self) -> (result: Result<ConnectionStatus, Error>)
        ensures
            extends(old(self).trace(), final(self).trace()),
            deselected(final(self).trace()),
            answered(
                events_since(old(self).trace(), final(self).trace()),
                request(NinaCommand::GetConnStatus, seq![]),
                |reply: Seq<u8>| Ok::<ConnectionStatus, Error>(ConnectionStatus::of_byte(reply[0])),
                result,
            ),
    {
        let operation = Operation::new(NinaCommand::GetConnStatus);
        assert(operation@ == request(NinaCommand::GetConnStatus, seq![]));
        match self.send_command(&operation) {
            Ok(buffer) => Ok(ConnectionStatus::from_byte(buffer[0])),
            Err(e) => Err(e),
        }
    }

    /// Tells the peer to leave the network. The request carries one dummy
    /// byte.
    pub fn disconnect(&mut self) -> (result: Result<(), Error>)
        ensures
            extends(old(self).trace(), final(self).trace()),
            deselected(final(self).trace()),
            answered(
                events_since(old(self).trace(), final(self).trace()),
                request(
                    NinaCommand::Disconnect,
                    seq![short_param(seq![ControlByte::Dummy.value()])],
                ),
                |reply: Seq<u8>| Ok::<(), Error>(()),
                result,
            ),
    {
        let dummy: [u8; 1] = [ControlByte::Dummy.as_byte()];
        assert(dummy@ =~= seq![ControlByte::Dummy.value()]);
        let operation = Operation::new(NinaCommand::Disconnect).param(
            NinaParam::from_bytes(ParamKind::Byte, dummy.as_slice())?,
        );
        assert(operation@.params =~= seq![short_param(seq![ControlByte::Dummy.value()])]);
        match self.send_command(&operation) {
            Ok(_) => Ok(()),
            Err(e) => Err(e),
        }
    }

    /// Hands the peer the name servers to ask: one for sure, and a second
    /// one that goes out as four zeros when there is none.
    pub fn set_dns_config(&mut self, ip1: IpAddress, ip2: Option<IpAddress>) -> (result: Result<
        (),
        Error,
    >)
        ensures
            extends(old(self).trace(), final(self).trace()),
            deselected(final(self).trace()),
            answered(
                events_since(old(self).trace(), final(self).trace()),
                request(
                    NinaCommand::SetDNSConfig,
                    seq![
                        short_param(seq![1u8]),
                        short_param(ip1@),
                        short_param(second_server(ip2)),
                    ],
                ),
                |reply: Seq<u8>| Ok::<(), Error>(()),
                result,
            ),
    {
        let count: [u8; 1] = [1];
        let second: IpAddress = match ip2 {
            Some(ip) => ip,
            None => [0, 0, 0, 0],
        };
        let ghost second_model = second_server(ip2);
        assert(count@ =~= seq![1u8]);
        assert(second@ =~= second_model);
        let operation = Operation::new(NinaCommand::SetDNSConfig).param(
            NinaParam::from_bytes(ParamKind::Byte, count.as_slice())?,
        ).param(NinaParam::from_bytes(ParamKind::SmallArray, ip1.as_slice())?).param(
            NinaParam::from_bytes(ParamKind::SmallArray, second.as_slice())?,
        );
        assert(operation@.params =~= seq![
            short_param(seq![1u8]),
            short_param(ip1@),
            short_param(second_model),
        ]);
        assert(operation@ == request(
            NinaCommand::SetDNSConfig,
            seq![short_param(seq![1u8]), short_param(ip1@), short_param(second_model)],
        ));
        match self.send_command(&operation) {
            Ok(_) => Ok(()),
            Err(e) => Err(e),
        }
    }

    /// Asks the peer to resolve `hostname`. The peer takes the request with
    /// the byte 1; any other byte fails with `DnsResolveFailed`. Fails with
    /// `PayloadTooLarge`, before anything is sent, when the name has more
    /// than 255 bytes.
    pub fn req_host_by_name(&mut self, hostname: &str) -> (result: Result<u8, Error>)
        ensures
            extends(old(self).trace(), final(self).trace()),
            if hostname.spec_bytes().len() > 255 {
                &&& result == Err::<u8, Error>(Error::Protocol(ProtocolError::PayloadTooLarge))
                &&& final(self).trace() == old(self).trace()
            } else {
                &&& deselected(final(self).trace())
                &&& answered(
                    events_since(old(self).trace(), final(self).trace()),
                    request(NinaCommand::ReqHostByName, seq![short_param(hostname.spec_bytes())]),
                    |reply: Seq<u8>| resolving_accepted(reply),
                    result,
                )
            },
    {
        proof {
            lemma_extends_self(self.trace());
        }
        let operation = Operation::new(NinaCommand::ReqHostByName).param(
            NinaParam::new(ParamKind::SmallArray, hostname)?,
        );
        assert(operation@.params =~= seq![short_param(hostname.spec_bytes())]);
        match self.send_command(&operation) {
            Ok(buffer) => {
                if buffer[0] != 1u8 {
                    return Err(Error::Network(NetworkError::DnsResolveFailed));
                }
                Ok(buffer[0])
            },
            Err(e) => Err(e),
        }
    }

    /// Asks the peer for the address that it resolved, and hands the reply
    /// back as it came.
    pub fn get_host_by_name(&mut self) -> (result: Result<NinaResponseBuffer, Error>)
        ensures
            extends(old(self).trace(), final(self).trace()),
            deselected(final(self).trace()),
            exchanged(
                events_since(old(self).trace(), final(self).trace()),
                request(NinaCommand::GetHostByName, seq![]),
                1,
                result,
            ),
    {
        let operation = Operation::new(NinaCommand::GetHostByName);
        assert(operation@ == request(NinaCommand::GetHostByName, seq![]));
        self.send_command(&operation)
    }

    /// Resolves `hostname`: asks the peer to resolve it and, when the peer
    /// takes the request, asks for the address. The address of four times
    /// 255 stands for "not found" and fails with `DnsResolveFailed`. Fails
    /// with `PayloadTooLarge`, before anything is sent, when the name has
    /// more than 255 bytes.
    pub fn resolve(&mut self, hostname: &str) -> (result: Result<IpAddress, Error>)
        ensures
            extends(old(self).trace(), final(self).trace()),
            if hostname.spec_bytes().len() > 255 {
                &&& result == Err::<IpAddress, Error>(
                    Error::Protocol(ProtocolError::PayloadTooLarge),
                )
                &&& final(self).trace() == old(self).trace()
            } else {
                &&& deselected(final(self).trace())
                &&& resolved(
                    events_since(old(self).trace(), final(self).trace()),
                    hostname.spec_bytes(),
                    as_bytes(result),
                )
            },
    {
        let ghost before = self.trace();
        let accepted = self.req_host_by_name(hostname);
        let ghost asked = self.trace();
        let ghost name = hostname.spec_bytes();
        let ghost first = choose|first: Result<NinaResponseBuffer, Error>|
            {
                &&& #[trigger] exchanged(
                    events_since(before, asked),
                    request(NinaCommand::ReqHostByName, seq![short_param(name)]),
                    1,
                    first,
                )
                &&& accepted == match first {
                    Ok(buffer) => resolving_accepted(buffer@),
                    Err(e) => Err(e),
                }
            };
        if let Err(e) = accepted {
            proof {
                if name.len() <= 255 {
                    lemma_resolved_at_first(events_since(before, asked), name, first, e);
                }
            }
            return Err(e);
        }
        let reply = self.get_host_by_name();
        let ghost events = events_since(before, self.trace());
        let ghost k = events_since(before, asked).len() as int;
        proof {
            lemma_extends_twice(before, asked, self.trace());
            assert(events.take(k) =~= events_since(before, asked));
            assert(events.skip(k) =~= events_since(asked, self.trace()));
        }
        let result = match reply {
            Ok(buffer) => Self::address_of(&buffer),
            Err(e) => Err(e),
        };
        proof {
            lemma_resolved_at_second(events, k, name, first, reply, as_bytes(result));
        }
        result
    }

    /// The address at the front of a reply, unless it is four times 255.
    fn address_of(buffer: &NinaResponseBuffer) -> (result: Result<IpAddress, Error>)
        ensures
            as_bytes(result) == resolved_address(buffer@),
    {
        let ip_address: IpAddress = [buffer[0], buffer[1], buffer[2], buffer[3]];
        assert(ip_address@ =~= buffer@.take(4));
        if ip_address[0] == 255 && ip_address[1] == 255 && ip_address[2] == 255 && ip_address[3]
            == 255 {
            assert(ip_address@ =~= seq![255u8, 255u8, 255u8, 255u8]);
            Err(Error::Network(NetworkError::DnsResolveFailed))
        } else {
            assert(ip_address@ != seq![255u8, 255u8, 255u8, 255u8]) by {
                let dummy = seq![255u8, 255u8, 255u8, 255u8];
                assert(dummy[0] == 255 && dummy[1] == 255 && dummy[2] == 255 && dummy[3] == 255);
            }
            Ok(ip_address)
        }
    }

    /// Asks the peer for a free socket.
    pub fn get_socket(&mut self) -> (result: Result<Socket, Error>)
        ensures
            extends(old(self).trace(), final(self).trace()),
            deselected(final(self).trace()),
            answered(
                events_since(old(self).trace(), final(self).trace()),
                request(NinaCommand::GetSocket, seq![]),
                |reply: Seq<u8>| Ok::<Socket, Error>(reply[0]),
                result,
            ),
    {
        let operation = Operation::new(NinaCommand::GetSocket);
        assert(operation@ == request(NinaCommand::GetSocket, seq![]));
        match self.send_command(&operation) {
            Ok(buffer) => Ok(buffer[0]),
            Err(e) => Err(e),
        }
    }

    /// Opens a connection from `socket` to `port` at `ip`. The port goes out
    /// most significant byte first. The peer confirms with the byte 1; any
    /// other byte fails with `ConnectFailed`.
    pub fn start_client_tcp(
        &mut self,
        socket: Socket,
        ip: IpAddress,
        port: Port,
        mode: &TransportMode,
    ) -> (result: Result<(), Error>)
        ensures
            extends(old(self).trace(), final(self).trace()),
            deselected(final(self).trace()),
            answered(
                events_since(old(self).trace(), final(self).trace()),
                request(
                    NinaCommand::StartClientTcp,
                    seq![
                        short_param(ip@),
                        short_param(bytes_of_word(port)),
                        short_param(seq![socket]),
                        short_param(seq![mode.wire()]),
                    ],
                ),
                |reply: Seq<u8>|
                    if reply[0] == 1 {
                        Ok::<(), Error>(())
                    } else {
                        Err::<(), Error>(Error::Network(NetworkError::ConnectFailed))
                    },
                result,
            ),
    {
        let port_as_bytes = Self::split_word(port);
        let socket_byte: [u8; 1] = [socket];
        let mode_byte: [u8; 1] = [mode.as_byte()];
        assert(socket_byte@ =~= seq![socket]);
        assert(mode_byte@ =~= seq![mode.wire()]);
        let operation = Operation::new(NinaCommand::StartClientTcp).param(
            NinaParam::from_bytes(ParamKind::SmallArray, ip.as_slice())?,
        ).param(NinaParam::from_bytes(ParamKind::Word, port_as_bytes.as_slice())?).param(
            NinaParam::from_bytes(ParamKind::Byte, socket_byte.as_slice())?,
        ).param(NinaParam::from_bytes(ParamKind::Byte, mode_byte.as_slice())?);
        assert(operation@.params =~= seq![
            short_param(ip@),
            short_param(bytes_of_word(port)),
            short_param(seq![socket]),
            short_param(seq![mode.wire()]),
        ]);
        match self.send_command(&operation) {
            Ok(buffer) => {
                if buffer[0] == 1 {
                    Ok(())
                } else {
                    Err(Error::Network(NetworkError::ConnectFailed))
                }
            },
            Err(e) => Err(e),
        }
    }

    /// Closes the connection of `socket`. The peer confirms with the byte 1;
    /// any other byte fails with `DisconnectFailed`. The mode is not looked
    /// at.
    pub fn stop_client_tcp(&mut self, socket: Socket, _mode: &TransportMode) -> (result: Result<
        (),
        Error,
    >)
        ensures
            extends(old(self).trace(), final(self).trace()),
            deselected(final(self).trace()),
            answered(
                events_since(old(self).trace(), final(self).trace()),
                request(NinaCommand::StopClientTcp, seq![short_param(seq![socket])]),
                |reply: Seq<u8>|
                    if reply[0] == 1 {
                        Ok::<(), Error>(())
                    } else {
                        Err::<(), Error>(Error::Network(NetworkError::DisconnectFailed))
                    },
                result,
            ),
    {
        let socket_byte: [u8; 1] = [socket];
        assert(socket_byte@ =~= seq![socket]);
        let operation = Operation::new(NinaCommand::StopClientTcp).param(
            NinaParam::from_bytes(ParamKind::Byte, socket_byte.as_slice())?,
        );
        assert(operation@.params =~= seq![short_param(seq![socket])]);
        match self.send_command(&operation) {
            Ok(buffer) => {
                if buffer[0] == 1 {
                    Ok(())
                } else {
                    Err(Error::Network(NetworkError::DisconnectFailed))
                }
            },
            Err(e) => Err(e),
        }
    }

    /// Asks the peer for the state of the connection of `socket`.
    pub fn get_client_state_tcp(&mut self, socket: Socket) -> (result: Result<
        ConnectionState,
        Error,
    >)
        ensures
            extends(old(self).trace(), final(self).trace()),
            deselected(final(self).trace()),
            answered(
                events_since(old(self).trace(), final(self).trace()),
                request(NinaCommand::GetClientStateTcp, seq![short_param(seq![socket])]),
                |reply: Seq<u8>| Ok::<ConnectionState, Error>(ConnectionState::of_byte(reply[0])),
                result,
            ),
    {
        let socket_byte: [u8; 1] = [socket];
        assert(socket_byte@ =~= seq![socket]);
        let operation = Operation::new(NinaCommand::GetClientStateTcp).param(
            NinaParam::from_bytes(ParamKind::Byte, socket_byte.as_slice())?,
        );
        assert(operation@.params =~= seq![short_param(seq![socket])]);
        match self.send_command(&operation) {
            Ok(buffer) => Ok(ConnectionState::from_byte(buffer[0])),
            Err(e) => Err(e),
        }
    }

    /// Sends `data` on `socket` and returns the byte with which the peer
    /// tells how much it wrote. Fails with `PayloadTooLarge`, before anything
    /// is sent, when `data` has more than 65535 bytes.
    pub fn send_data(&mut self, data: &str, socket: Socket) -> (result: Result<[u8; 1], Error>)
        ensures
            extends(old(self).trace(), final(self).trace()),
            if data.spec_bytes().len() > 65535 {
                &&& result == Err::<[u8; 1], Error>(
                    Error::Protocol(ProtocolError::PayloadTooLarge),
                )
                &&& final(self).trace() == old(self).trace()
            } else {
                &&& deselected(final(self).trace())
                &&& answered(
                    events_since(old(self).trace(), final(self).trace()),
                    request(
                        NinaCommand::SendDataTcp,
                        seq![long_param(seq![socket]), long_param(data.spec_bytes())],
                    ),
                    |reply: Seq<u8>| Ok::<Seq<u8>, Error>(seq![reply[0]]),
                    as_bytes(result),
                )
            },
    {
        proof {
            lemma_extends_self(self.trace());
        }
        let socket_byte: [u8; 1] = [socket];
        assert(socket_byte@ =~= seq![socket]);
        let operation = Operation::new(NinaCommand::SendDataTcp).param(
            NinaParam::from_bytes(ParamKind::LargeArray, socket_byte.as_slice())?,
        ).param(NinaParam::new(ParamKind::LargeArray, data)?);
        assert(operation@.params =~= seq![long_param(seq![socket]), long_param(data.spec_bytes())]);
        match self.send_command(&operation) {
            Ok(buffer) => {
                let written: [u8; 1] = [buffer[0]];
                assert(written@ =~= seq![buffer@[0]]);
                Ok(written)
            },
            Err(e) => Err(e),
        }
    }

    /// Asks the peer how many bytes wait on `socket`. The reply spells the
    /// number low byte first; 5744 is read as 5743.
    pub fn avail_data_tcp(&mut self, socket: Socket) -> (result: Result<usize, Error>)
        ensures
            extends(old(self).trace(), final(self).trace()),
            deselected(final(self).trace()),
            answered(
                events_since(old(self).trace(), final(self).trace()),
                request(NinaCommand::AvailDataTcp, seq![short_param(seq![socket])]),
                |reply: Seq<u8>| Ok::<usize, Error>(available_length(reply) as usize),
                result,
            ),
            result matches Ok(n) ==> n <= 65535,
    {
        let socket_byte: [u8; 1] = [socket];
        assert(socket_byte@ =~= seq![socket]);
        let operation = Operation::new(NinaCommand::AvailDataTcp).param(
            NinaParam::from_bytes(ParamKind::Byte, socket_byte.as_slice())?,
        );
        assert(operation@.params =~= seq![short_param(seq![socket])]);
        match self.send_command(&operation) {
            Ok(buffer) => {
                let mut available_data_length: usize = Self::combine_2_bytes(
                    buffer[0],
                    buffer[1],
                ) as usize;
                if available_data_length == 5744 {
                    available_data_length = 5743;
                }
                Ok(available_data_length)
            },
            Err(e) => Err(e),
        }
    }

    /// Asks the peer for up to `available_length` bytes of what waits on
    /// `socket`, and reads the chunk that it sends. The length goes out as a
    /// word, most significant byte first; what does not fit a word is cut
    /// off.
    pub fn get_data_buf_tcp(&mut self, socket: Socket, available_length: usize) -> (result: Result<
        NinaResponseBufferWithLength,
        Error,
    >)
        ensures
            extends(old(self).trace(), final(self).trace()),
            deselected(final(self).trace()),
            exchanged_data16(
                events_since(old(self).trace(), final(self).trace()),
                chunk_request(socket, available_length),
                1,
                result,
            ),
    {
        let ghost before = self.trace();
        let word: u16 = (available_length % 0x1_0000) as u16;
        let response_param_buffer_length: [u8; 2] = Self::split_word(word);
        let socket_byte: [u8; 1] = [socket];
        assert(socket_byte@ =~= seq![socket]);
        let operation = Operation::new(NinaCommand::GetDataBufTcp).param(
            NinaParam::from_bytes(ParamKind::LargeArray, socket_byte.as_slice())?,
        ).param(
            NinaParam::from_bytes(ParamKind::LargeArray, response_param_buffer_length.as_slice())?,
        );
        assert(operation@.params =~= chunk_request(socket, available_length).params);
        if let Err(e) = self.execute(&operation) {
            return Err(e);
        }
        let ghost sent = self.trace();
        let result = self.receive_data16(&operation, 1);
        proof {
            lemma_extends_twice(before, sent, self.trace());
            let events = events_since(before, self.trace());
            let k = events_since(before, sent).len() as int;
            assert(events.take(k) =~= events_since(before, sent));
            assert(events.skip(k) =~= events_since(sent, self.trace()));
        }
        result
    }

    /// Fetches what waits on `socket`, chunk by chunk, into a buffer of
    /// zeros, as long as less was consumed than `available` and than the
    /// buffer holds. Of each chunk all bytes but the last are put in behind
    /// what was consumed, as far as the buffer has room, and the full length
    /// of the chunk counts as consumed. An empty chunk ends the fetching.
    pub fn read_available(&mut self, socket: Socket, available: usize) -> (result: Result<
        NinaResponseBuffer,
        Error,
    >)
        ensures
            extends(old(self).trace(), final(self).trace()),
            drained(
                events_since(old(self).trace(), final(self).trace()),
                socket,
                available,
                0,
                buffer_holding(Seq::empty()),
                match result {
                    Ok(buffer) => Ok::<Option<Seq<u8>>, Error>(Some(buffer@)),
                    Err(e) => Err::<Option<Seq<u8>>, Error>(e),
                },
            ),
            final(self).trace() == old(self).trace() || deselected(final(self).trace()),
    {
        let ghost before = self.trace();
        let ghost zeros = buffer_holding(Seq::empty());
        let mut data_length: usize = 0;
        let mut result_buffer: NinaResponseBuffer = [0; MAX_NINA_RESPONSE_LENGTH];
        proof {
            lemma_extends_self(before);
            assert(result_buffer@ =~= zeros);
            assert forall|rest: Seq<BusEvent>, outcome: Result<Option<Seq<u8>>, Error>| #[trigger]
                drained(rest, socket, available, 0, zeros, outcome) implies drained(
                events_since(before, before) + rest,
                socket,
                available,
                0,
                zeros,
                outcome,
            ) by {
                assert(events_since(before, before) + rest =~= rest);
            }
        }
        while available > data_length && data_length < MAX_NINA_RESPONSE_LENGTH
            invariant
                before == old(self).trace(),
                zeros == buffer_holding(Seq::empty()),
                extends(before, self.trace()),
                self.trace() == before || deselected(self.trace()),
                data_length <= 2 * MAX_NINA_RESPONSE_LENGTH,
                forall|rest: Seq<BusEvent>, outcome: Result<Option<Seq<u8>>, Error>| #[trigger]
                    drained(rest, socket, available, data_length as int, result_buffer@, outcome)
                        ==> drained(
                        events_since(before, self.trace()) + rest,
                        socket,
                        available,
                        0,
                        zeros,
                        outcome,
                    ),
            decreases 2 * MAX_NINA_RESPONSE_LENGTH - data_length,
        {
            let ghost so_far = self.trace();
            let ghost held = result_buffer@;
            let chunk = self.get_data_buf_tcp(socket, available);
            let ghost fetched = events_since(so_far, self.trace());
            proof {
                lemma_extends_twice(before, so_far, self.trace());
                lemma_chunk_has_events(fetched, socket, available, chunk);
            }
            let (current_length, response_buffer) = match chunk {
                Ok(reply) => reply,
                Err(e) => {
                    proof {
                        lemma_drained_last(
                            fetched,
                            socket,
                            available,
                            data_length as int,
                            held,
                            chunk,
                        );
                    }
                    return Err(e);
                },
            };
            if current_length == 0 {
                proof {
                    lemma_drained_last(fetched, socket, available, data_length as int, held, chunk);
                }
                return Ok(result_buffer);
            }
            proof {
                lemma_chunk_fits(fetched, socket, available, chunk);
            }
            let mut i: usize = 0;
            while i < current_length - 1
                invariant
                    1 <= current_length <= MAX_NINA_RESPONSE_LENGTH,
                    i <= current_length - 1,
                    data_length < MAX_NINA_RESPONSE_LENGTH,
                    held.len() == MAX_NINA_RESPONSE_LENGTH,
                    result_buffer@ == with_chunk(
                        held,
                        data_length as int,
                        response_buffer@,
                        i + 1,
                    ),
                decreases current_length - 1 - i,
            {
                if data_length + i < MAX_NINA_RESPONSE_LENGTH {
                    result_buffer[data_length + i] = response_buffer[i];
                }
                i += 1;
                assert(result_buffer@ =~= with_chunk(
                    held,
                    data_length as int,
                    response_buffer@,
                    i + 1,
                ));
            }
            proof {
                let placed = with_chunk(
                    held,
                    data_length as int,
                    response_buffer@,
                    current_length as int,
                );
                assert forall|rest: Seq<BusEvent>, outcome: Result<Option<Seq<u8>>, Error>| #[trigger]
                    drained(
                        rest,
                        socket,
                        available,
                        data_length + current_length,
                        placed,
                        outcome,
                    ) implies drained(
                    events_since(before, self.trace()) + rest,
                    socket,
                    available,
                    0,
                    zeros,
                    outcome,
                ) by {
                    lemma_drained_step(
                        fetched,
                        rest,
                        socket,
                        available,
                        data_length as int,
                        held,
                        chunk,
                        outcome,
                    );
                    assert(events_since(before, self.trace()) + rest =~= events_since(
                        before,
                        so_far,
                    ) + (fetched + rest));
                }
            }
            data_length += current_length;
        }
        proof {
            lemma_drained_done(socket, available, data_length as int, result_buffer@);
            assert(events_since(before, self.trace()) + Seq::<BusEvent>::empty()
                =~= events_since(before, self.trace()));
        }
        Ok(result_buffer)
    }

    /// One round of receiving from `socket`: sleeps for [`POLL_DELAY_MS`],
    /// asks the peer how much is waiting, and fetches it. Returns `None` when
    /// nothing is waiting yet; the caller then makes another round.
    pub fn receive_data<D: DelayMs>(&mut self, socket: Socket, delay: &mut D) -> (result: Result<
        Option<NinaResponseBuffer>,
        Error,
    >)
        ensures
            extends(old(self).trace(), final(self).trace()),
            data_received(
                events_since(old(self).trace(), final(self).trace()),
                socket,
                as_data(result),
            ),
            deselected(final(self).trace()),
    {
        let ghost before = self.trace();
        self.pause(delay, POLL_DELAY_MS);
        let ghost paused = self.trace();
        let asked = self.avail_data_tcp(socket);
        let ghost polled = self.trace();
        let ghost question = request(NinaCommand::AvailDataTcp, seq![short_param(seq![socket])]);
        let ghost reply = choose|reply: Result<NinaResponseBuffer, Error>|
            {
                &&& #[trigger] exchanged(events_since(paused, polled), question, 1, reply)
                &&& asked == match reply {
                    Ok(buffer) => Ok::<usize, Error>(available_length(buffer@) as usize),
                    Err(e) => Err(e),
                }
            };
        proof {
            lemma_extends_self(before);
            lemma_extends_push(before, before, BusEvent::Delay { ms: POLL_DELAY_MS });
            lemma_extends_twice(before, paused, polled);
            let events = events_since(before, polled);
            assert(events.subrange(1, events.len() as int) =~= events_since(paused, polled));
            assert(events.skip(events.len() as int) =~= Seq::<BusEvent>::empty());
        }
        let available_data_length = match asked {
            Ok(n) => n,
            Err(e) => {
                return Err(e);
            },
        };
        if available_data_length == 0 {
            return Ok(None);
        }
        let fetched = self.read_available(socket, available_data_length);
        proof {
            lemma_extends_twice(before, polled, self.trace());
            let events = events_since(before, self.trace());
            let k = events_since(before, polled).len() as int;
            assert(events.subrange(1, k) =~= events_since(paused, polled));
            assert(events.skip(k) =~= events_since(polled, self.trace()));
            assert(exchanged(events.subrange(1, k), question, 1, reply));
        }
        match fetched {
            Ok(buffer) => Ok(Some(buffer)),
            Err(e) => Err(e),
        }
    }

    /// Packs two bytes into a word: `byte0` is the least significant byte,
    /// `byte1` the most significant.
    pub fn combine_2_bytes(byte0: u8, byte1: u8) -> (word: u16)
        ensures
            word == word_of(byte0, byte1),
            word == ((byte1 as u16) << 8) | (byte0 as u16),
    {
        let word0: u16 = byte0 as u16;
        let word1: u16 = byte1 as u16;
        assert(((word1 << 8) | (word0 & 0xff)) == ((word1 << 8) | word0)) by (bit_vector)
            requires
                word0 < 256,
        ;
        (word1 << 8) | (word0 & 0xff)
    }

    /// Splits a word into its two bytes, most significant first.
    pub fn split_word(word: u16) -> (bytes: [u8; 2])
        ensures
            bytes@ == bytes_of_word(word),
            bytes[0] == (word >> 8) as u8,
            bytes[1] == (word & 0xff) as u8,
    {
        assert((word & 0xff00) >> 8 == word >> 8) by (bit_vector);
        assert(word >> 8 < 256) by (bit_vector);
        assert(word & 0xff < 256) by (bit_vector);
        let bytes = [((word & 0xff00) >> 8) as u8, (word & 0xff) as u8];
        assert(bytes@ =~= bytes_of_word(word));
        bytes
    }
}

} // verus!
