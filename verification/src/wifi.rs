//! The handle that application code holds: it owns the engine and passes
//! each request on to it.

use vstd::prelude::*;

use crate::bus::{BusEvent, Transfer};
use crate::command::{answered, request};
use crate::exchange::deselected;
use crate::gpio::EspControlInterface;
use crate::protocol::NinaCommand;
use crate::record::{events_since, extends};
use crate::spi::NinaProtocolHandler;
use crate::{Error, FirmwareVersion};

verus! {

/// A coprocessor behind its bus and control lines.
pub struct Wifi<S: Transfer, C: EspControlInterface> {
    protocol_handler: NinaProtocolHandler<S, C>,
}

impl<S: Transfer, C: EspControlInterface> Wifi<S, C> {
    /// Every call that the engine has made on the bus and the control lines.
    pub closed spec fn trace(&self) -> Seq<BusEvent> {
        self.protocol_handler.trace()
    }

    /// The engine that the handle holds.
    pub closed spec fn handler(&self) -> NinaProtocolHandler<S, C> {
        self.protocol_handler
    }

    /// The coprocessor that `protocol_handler` talks to.
    pub fn new(protocol_handler: NinaProtocolHandler<S, C>) -> (wifi: Self)
        ensures
            wifi.handler() == protocol_handler,
            wifi.trace() == protocol_handler.trace(),
    {
        Wifi { protocol_handler }
    }

    /// Asks the coprocessor for the version of its firmware.
    pub fn get_firmware_version(&mut self) -> (result: Result<FirmwareVersion, Error>)
        ensures
            extends(old(self).trace(), final(self).trace()),
            deselected(final(self).trace()),
            answered(
                events_since(old(self).trace(), final(self).trace()),
                request(NinaCommand::GetFwVersion, seq![]),
                |reply: Seq<u8>| Ok::<FirmwareVersion, Error>(FirmwareVersion::spelled(reply.take(5))),
                result,
            ),
    {
        self.protocol_handler.get_fw_version()
    }

    /// Gives the engine back, as it is now.
    pub fn release(self) -> (protocol_handler: NinaProtocolHandler<S, C>)
        ensures
            protocol_handler == self.handler(),
            protocol_handler.trace() == self.trace(),
    {
        self.protocol_handler
    }
}

} // verus!
