//! The frame layout that the peer firmware fixes: control bytes, words,
//! length prefixes, and the request frame with its padding.

use vstd::arithmetic::power2::{lemma2_to64, pow2};
use vstd::prelude::*;

verus! {

/// The bytes that mark up a frame.
#[derive(Clone, Copy, PartialEq, Eq, Structural, Debug)]
pub enum ControlByte {
    /// Opens every frame.
    Start,
    /// Closes every frame.
    End,
    /// Set in the command byte of a reply, clear in that of a request.
    Reply,
    /// Clocked out while the host only listens.
    Dummy,
    /// Sent by the peer in place of `Start` when it could not take the
    /// command.
    Error,
}

impl ControlByte {
    /// The byte on the wire.
    pub open spec fn value(self) -> u8 {
        match self {
            ControlByte::Start => 0xE0,
            ControlByte::End => 0xEE,
            ControlByte::Reply => 0x80,
            ControlByte::Dummy => 0xFF,
            ControlByte::Error => 0xEF,
        }
    }

    /// The byte on the wire.
    pub fn as_byte(self) -> (b: u8)
        ensures
            b == self.value(),
    {
        match self {
            ControlByte::Start => 0xE0,
            ControlByte::End => 0xEE,
            ControlByte::Reply => 0x80,
            ControlByte::Dummy => 0xFF,
            ControlByte::Error => 0xEF,
        }
    }
}

/// The command byte of a request: the command code with the reply flag
/// cleared.
pub open spec fn request_byte(command: u8) -> u8 {
    command & !ControlByte::Reply.value()
}

/// The command byte of the reply to `command`: the code with the reply flag
/// set.
pub open spec fn reply_byte(command: u8) -> u8 {
    command | ControlByte::Reply.value()
}

/// The word whose least significant byte is `byte0` and whose most
/// significant byte is `byte1`.
pub open spec fn word_of(byte0: u8, byte1: u8) -> u16 {
    ((byte1 as u16) << 8) | (byte0 as u16)
}

/// The two bytes of a word, most significant first.
pub open spec fn bytes_of_word(word: u16) -> Seq<u8> {
    seq![(word >> 8) as u8, (word & 0xff) as u8]
}

/// Splitting a word and packing the bytes again, low byte first, gives the
/// word back; packing two bytes and splitting the word gives the bytes back,
/// high byte first.
pub proof fn lemma_split_combine_identity(byte0: u8, byte1: u8, word: u16)
    ensures
        word_of(bytes_of_word(word)[1], bytes_of_word(word)[0]) == word,
        bytes_of_word(word_of(byte0, byte1)) == seq![byte1, byte0],
{
    assert(((((word >> 8) as u8) as u16) << 8) | (((word & 0xff) as u8) as u16) == word)
        by (bit_vector);
    assert((((((byte1 as u16) << 8) | (byte0 as u16)) >> 8) as u8) == byte1) by (bit_vector);
    assert((((((byte1 as u16) << 8) | (byte0 as u16)) & 0xff) as u8) == byte0) by (bit_vector);
    assert(bytes_of_word(word_of(byte0, byte1)) =~= seq![byte1, byte0]);
}

/// The largest payload that a length prefix of `width` bytes can announce.
pub open spec fn max_payload(width: int) -> int {
    if width == 1 {
        255
    } else {
        65535
    }
}

/// The largest payload is the largest number that the length prefix can
/// spell: all of its bits set.
pub proof fn lemma_max_payload_fills_the_prefix()
    ensures
        max_payload(1) == pow2(8) - 1,
        max_payload(2) == pow2(16) - 1,
{
    lemma2_to64();
}

/// A length written in `width` bytes, most significant first.
pub open spec fn length_prefix(length: int, width: int) -> Seq<u8> {
    if width == 1 {
        seq![length as u8]
    } else {
        seq![(length / 256) as u8, (length % 256) as u8]
    }
}

/// The number that `bytes` spell, most significant byte first.
pub open spec fn big_endian(bytes: Seq<u8>) -> int
    decreases bytes.len(),
{
    if bytes.len() == 0 {
        0
    } else {
        big_endian(bytes.drop_last()) * 256 + bytes.last()
    }
}

/// A length prefix has as many bytes as its width, and spells the length that
/// it was written for.
pub proof fn lemma_length_prefix_round_trip(length: int, width: int)
    requires
        1 <= width <= 2,
        0 <= length <= max_payload(width),
    ensures
        length_prefix(length, width).len() == width,
        big_endian(length_prefix(length, width)) == length,
{
    let p = length_prefix(length, width);
    reveal_with_fuel(big_endian, 3);
    if width == 1 {
        assert(p.drop_last() =~= Seq::<u8>::empty());
    } else {
        assert(p.drop_last() =~= seq![(length / 256) as u8]);
        assert(p.drop_last().drop_last() =~= Seq::<u8>::empty());
    }
}

/// What a parameter is on the wire: the width of its length prefix, and its
/// payload.
pub struct ParamModel {
    pub width: int,
    pub payload: Seq<u8>,
}

/// A parameter on the wire: the length prefix, then the payload.
pub open spec fn param_bytes(param: ParamModel) -> Seq<u8> {
    length_prefix(param.payload.len() as int, param.width) + param.payload
}

/// Parameters on the wire, in the order in which they were added.
pub open spec fn params_bytes(params: Seq<ParamModel>) -> Seq<u8>
    decreases params.len(),
{
    if params.len() == 0 {
        Seq::empty()
    } else {
        params_bytes(params.drop_last()) + param_bytes(params.last())
    }
}

/// The header of a request that announces `count` parameters: start,
/// command byte, count. With no parameter to follow, the end byte closes
/// the frame at once.
pub open spec fn request_header(command: u8, count: u8) -> Seq<u8> {
    let header = seq![ControlByte::Start.value(), request_byte(command), count];
    if count == 0 {
        header + seq![ControlByte::End.value()]
    } else {
        header
    }
}

/// The frame of a request: start, command byte, parameter count, each
/// parameter, end.
pub open spec fn request_frame(command: u8, params: Seq<ParamModel>) -> Seq<u8> {
    seq![ControlByte::Start.value(), request_byte(command), params.len() as u8] + params_bytes(
        params,
    ) + seq![ControlByte::End.value()]
}

/// How many bytes bring a frame of `length` bytes to a multiple of four.
pub open spec fn padding_for(length: int) -> int {
    (4 - length % 4) % 4
}

/// What goes out for a request: the frame, then a dummy byte for each
/// discarded read that pads the exchange to a multiple of four.
pub open spec fn padded_request(command: u8, params: Seq<ParamModel>) -> Seq<u8> {
    let frame = request_frame(command, params);
    frame + Seq::new(padding_for(frame.len() as int) as nat, |i: int| ControlByte::Dummy.value())
}

/// Every request takes a multiple of four bytes on the bus.
pub proof fn lemma_request_is_aligned(command: u8, params: Seq<ParamModel>)
    ensures
        padded_request(command, params).len() % 4 == 0,
        padded_request(command, params).len() >= 4,
        padded_request(command, params).len() - request_frame(command, params).len() < 4,
{
}

} // verus!
