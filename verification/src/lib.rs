//! Host-side protocol engine for an ESP32-WROOM Wi-Fi coprocessor running the
//! NINA firmware, reached over a serial peripheral bus and four control lines.
//!
//! The engine frames one command at a time, waits for the framed reply and
//! decodes it. Everything it asks of the platform (a full-duplex byte
//! transfer, pins to drive and to sample, a millisecond delay) comes in
//! through the small capability traits of [`bus`] and [`gpio`].
//!
//! What the engine did is kept as a ghost record of events, and every
//! contract says what a call adds to that record and how its result follows
//! from the bytes that came in:
//!
//! - [`wire`]: control bytes, words, length prefixes, the request frame;
//! - [`protocol`]: commands, parameters, operations, protocol errors;
//! - [`reply`]: the wait for a reply, its header and its body, byte by byte;
//! - [`exchange`]: one transaction, and one command with its reply;
//! - [`command`]: what each command asks and how its reply reads;
//! - [`receive`]: receiving from a socket, chunk by chunk;
//! - [`spi`]: the engine itself;
//! - [`gpio`]: the control lines;
//! - [`wifi`]: the handle for application code.

pub mod bus;
pub mod command;
pub mod exchange;
pub mod gpio;
pub mod network;
pub mod protocol;
pub mod receive;
pub mod record;
pub mod reply;
pub mod spi;
pub mod wifi;
pub mod wire;

use vstd::prelude::*;

use crate::gpio::IOError;
use crate::network::NetworkError;
use crate::protocol::ProtocolError;

verus! {

/// Everything that can go wrong while talking to the coprocessor.
#[derive(Clone, Copy, PartialEq, Eq, Structural, Debug)]
pub enum Error {
    /// A control line could not be driven or sampled.
    Io(IOError),
    /// The exchange with the peer broke the framing rules.
    Protocol(ProtocolError),
    /// The peer answered, and the answer reports a network failure.
    Network(NetworkError),
}

/// The version of the firmware that runs on the peer.
#[derive(Clone, Copy, PartialEq, Eq, Structural, Debug)]
pub struct FirmwareVersion {
    pub major: u8,
    pub minor: u8,
    pub patch: u8,
}

impl FirmwareVersion {
    /// The number that an ASCII digit stands for; any other byte reads as
    /// zero.
    pub open spec fn digit(byte: u8) -> u8 {
        if 0x30 <= byte <= 0x39 {
            (byte - 0x30) as u8
        } else {
            0
        }
    }

    /// The version that the text `M.m.p` spells: the digits at its first,
    /// third and fifth place.
    pub open spec fn spelled(text: Seq<u8>) -> FirmwareVersion {
        FirmwareVersion {
            major: Self::digit(text[0]),
            minor: Self::digit(text[2]),
            patch: Self::digit(text[4]),
        }
    }

    /// The version that the five bytes of a reply spell, as in `1.7.4`.
    pub fn new(version: [u8; 5]) -> (firmware: FirmwareVersion)
        ensures
            firmware == Self::spelled(version@),
    {
        Self::parse(version)
    }

    /// Reads the five bytes `M.m.p`: an ASCII digit, a separator, a digit, a
    /// separator, a digit. The separators are not looked at.
    pub fn parse(version: [u8; 5]) -> (firmware: FirmwareVersion)
        ensures
            firmware == Self::spelled(version@),
    {
        FirmwareVersion {
            major: Self::digit_value(version[0]),
            minor: Self::digit_value(version[2]),
            patch: Self::digit_value(version[4]),
        }
    }

    fn digit_value(byte: u8) -> (value: u8)
        ensures
            value == Self::digit(byte),
    {
        if 0x30 <= byte && byte <= 0x39 {
            byte - 0x30
        } else {
            0
        }
    }
}

} // verus!
