//! Commands, parameters and the errors of the command protocol.

pub mod operation;

use vstd::prelude::*;
use vstd::slice::slice_to_vec;
use vstd::string::StringSliceAdditionalSpecFns;

use crate::wire::{length_prefix, max_payload, ParamModel};
use crate::Error;

verus! {

/// The most parameters that a request can carry, and the longest reply that
/// the short form of a reply can announce.
pub const MAX_NINA_PARAMS: usize = 8;

/// The room of a response buffer: the longest chunk that the peer sends at
/// once.
pub const MAX_NINA_RESPONSE_LENGTH: usize = 5744;

/// The bytes of a reply, with zeros behind them.
pub type NinaResponseBuffer = [u8; MAX_NINA_RESPONSE_LENGTH];

/// A reply together with the number of its bytes.
pub type NinaResponseBufferWithLength = (usize, NinaResponseBuffer);

/// What can break in the exchange of frames.
#[derive(Clone, Copy, PartialEq, Eq, Structural, Debug)]
pub enum ProtocolError {
    /// A parameter's payload is longer than its length prefix can announce.
    PayloadTooLarge,
    /// The reply announces more than the peer can send.
    TooManyParameters,
    /// The reply is for another command.
    InvalidCommand,
    /// The reply holds another number of parameters than expected.
    InvalidNumberOfParameters,
    /// The peer sent the error byte in place of a reply.
    NinaProtocolVersionMismatch,
    /// No reply started within the retry limit.
    CommunicationTimeout,
}

/// The commands that the engine sends.
#[derive(Clone, Copy, PartialEq, Eq, Structural, Debug)]
pub enum NinaCommand {
    SetPassphrase,
    SetDNSConfig,
    GetConnStatus,
    AvailDataTcp,
    StartClientTcp,
    StopClientTcp,
    GetClientStateTcp,
    Disconnect,
    ReqHostByName,
    GetHostByName,
    GetFwVersion,
    GetSocket,
    SendDataTcp,
    GetDataBufTcp,
}

impl NinaCommand {
    /// The code that the peer firmware knows the command by. The reply flag
    /// is clear in every code.
    pub open spec fn code(self) -> u8 {
        match self {
            NinaCommand::SetPassphrase => 0x11,
            NinaCommand::SetDNSConfig => 0x15,
            NinaCommand::GetConnStatus => 0x20,
            NinaCommand::AvailDataTcp => 0x2b,
            NinaCommand::StartClientTcp => 0x2d,
            NinaCommand::StopClientTcp => 0x2e,
            NinaCommand::GetClientStateTcp => 0x2f,
            NinaCommand::Disconnect => 0x30,
            NinaCommand::ReqHostByName => 0x34,
            NinaCommand::GetHostByName => 0x35,
            NinaCommand::GetFwVersion => 0x37,
            NinaCommand::GetSocket => 0x3f,
            NinaCommand::SendDataTcp => 0x44,
            NinaCommand::GetDataBufTcp => 0x45,
        }
    }

    /// The code that the peer firmware knows the command by.
    pub fn as_byte(self) -> (b: u8)
        ensures
            b == self.code(),
    {
        match self {
            NinaCommand::SetPassphrase => 0x11,
            NinaCommand::SetDNSConfig => 0x15,
            NinaCommand::GetConnStatus => 0x20,
            NinaCommand::AvailDataTcp => 0x2b,
            NinaCommand::StartClientTcp => 0x2d,
            NinaCommand::StopClientTcp => 0x2e,
            NinaCommand::GetClientStateTcp => 0x2f,
            NinaCommand::Disconnect => 0x30,
            NinaCommand::ReqHostByName => 0x34,
            NinaCommand::GetHostByName => 0x35,
            NinaCommand::GetFwVersion => 0x37,
            NinaCommand::GetSocket => 0x3f,
            NinaCommand::SendDataTcp => 0x44,
            NinaCommand::GetDataBufTcp => 0x45,
        }
    }
}

/// The four flavours of a parameter. They differ in what they are meant to
/// carry; on the wire only the width of the length prefix tells them apart.
#[derive(Clone, Copy, PartialEq, Eq, Structural, Debug)]
pub enum ParamKind {
    /// One byte.
    Byte,
    /// One word, as two bytes.
    Word,
    /// A short run of bytes.
    SmallArray,
    /// A long run of bytes; the only flavour with a length prefix of two
    /// bytes.
    LargeArray,
}

impl ParamKind {
    /// The number of bytes of the length prefix.
    pub open spec fn width(self) -> int {
        match self {
            ParamKind::LargeArray => 2,
            _ => 1,
        }
    }

    /// The number of bytes of the length prefix.
    pub fn length_size(self) -> (w: u8)
        ensures
            w == self.width(),
    {
        match self {
            ParamKind::LargeArray => 2,
            _ => 1,
        }
    }

    /// The longest payload that the flavour takes.
    pub fn capacity(self) -> (n: usize)
        ensures
            n == max_payload(self.width()),
    {
        match self {
            ParamKind::LargeArray => 65535,
            _ => 255,
        }
    }
}

/// One parameter of a request: a payload, and the flavour that fixes the
/// width of its length prefix. The payload always fits the prefix.
pub struct NinaParam {
    kind: ParamKind,
    data: Vec<u8>,
}

impl View for NinaParam {
    type V = ParamModel;

    closed spec fn view(&self) -> ParamModel {
        ParamModel { width: self.kind.width(), payload: self.data@ }
    }
}

impl NinaParam {
    #[verifier::type_invariant]
    spec fn fits(self) -> bool {
        self.data@.len() <= max_payload(self.kind.width())
    }

    /// The flavour that the parameter was built as.
    pub closed spec fn flavour(&self) -> ParamKind {
        self.kind
    }

    /// A parameter whose payload is the raw bytes of `data`. Fails with
    /// `PayloadTooLarge`, and builds nothing, when there are more bytes than
    /// the length prefix of the flavour can announce.
    pub fn new(kind: ParamKind, data: &str) -> (result: Result<NinaParam, Error>)
        ensures
            data.spec_bytes().len() <= max_payload(kind.width()) ==> result is Ok,
            data.spec_bytes().len() > max_payload(kind.width()) ==> result == Err::<
                NinaParam,
                Error,
            >(Error::Protocol(ProtocolError::PayloadTooLarge)),
            result matches Ok(param) ==> param.flavour() == kind && param@ == (ParamModel {
                width: kind.width(),
                payload: data.spec_bytes(),
            }),
    {
        Self::from_bytes(kind, data.as_bytes())
    }

    /// A parameter whose payload is a copy of `bytes`. Fails with
    /// `PayloadTooLarge`, and builds nothing, when there are more bytes than
    /// the length prefix of the flavour can announce.
    pub fn from_bytes(kind: ParamKind, bytes: &[u8]) -> (result: Result<NinaParam, Error>)
        ensures
            bytes@.len() <= max_payload(kind.width()) ==> result is Ok,
            bytes@.len() > max_payload(kind.width()) ==> result == Err::<NinaParam, Error>(
                Error::Protocol(ProtocolError::PayloadTooLarge),
            ),
            result matches Ok(param) ==> param.flavour() == kind && param@ == (ParamModel {
                width: kind.width(),
                payload: bytes@,
            }),
    {
        if bytes.len() > kind.capacity() {
            return Err(Error::Protocol(ProtocolError::PayloadTooLarge));
        }
        Ok(NinaParam { kind, data: slice_to_vec(bytes) })
    }

    /// The payload, in order.
    pub fn data(&self) -> (bytes: &[u8])
        ensures
            bytes@ == self@.payload,
            bytes@.len() <= max_payload(self@.width),
    {
        proof {
            use_type_invariant(self);
        }
        self.data.as_slice()
    }

    /// The number of bytes of the payload.
    pub fn length(&self) -> (n: u16)
        ensures
            n == self@.payload.len(),
            n <= max_payload(self@.width),
    {
        proof {
            use_type_invariant(self);
        }
        self.data.len() as u16
    }

    /// The number of bytes of the length prefix: one or two.
    pub fn length_size(&self) -> (w: u8)
        ensures
            w == self@.width,
            w == 1 || w == 2,
    {
        self.kind.length_size()
    }

    /// The length prefix: the length of the payload in as many bytes as the
    /// flavour asks for, most significant first.
    pub fn length_as_bytes(&self) -> (bytes: Vec<u8>)
        ensures
            bytes@ == length_prefix(self@.payload.len() as int, self@.width),
            bytes@.len() == self@.width,
    {
        let n = self.length();
        let mut bytes: Vec<u8> = Vec::new();
        if self.kind.length_size() == 1 {
            bytes.push(n as u8);
        } else {
            bytes.push((n / 256) as u8);
            bytes.push((n % 256) as u8);
        }
        assert(bytes@ =~= length_prefix(self@.payload.len() as int, self@.width));
        bytes
    }
}

} // verus!
