//! The control lines that wrap the bus: chip-select, the shared ready/ack
//! line, reset and boot-mode.
//!
//! [`EspControlPins`] drives them through four pins and keeps, as ghost
//! state, the ordered list of everything it asked of the pins and of the
//! delay. Contracts are stated over that list.

use vstd::prelude::*;

use crate::record::{events_since, extends, lemma_extends_push, lemma_extends_self};

verus! {

/// A fault of the control lines.
#[derive(Clone, Copy, PartialEq, Eq, Structural, Debug)]
pub enum IOError {
    /// A pin could not be driven or sampled.
    Pin,
}

/// How long the reset line is held low, in milliseconds.
pub const RESET_HOLD_MS: u16 = 10;

/// How long the peer is given to settle after reset is let go, in
/// milliseconds.
pub const RESET_SETTLE_MS: u16 = 750;

/// A blocking sleep.
pub trait DelayMs {
    /// Returns after at least `ms` milliseconds.
    fn delay_ms(&mut self, ms: u16);
}

/// A pin that the host drives.
pub trait OutputPin {
    /// Drives the pin high.
    fn set_high(&mut self) -> Result<(), IOError>;

    /// Drives the pin low.
    fn set_low(&mut self) -> Result<(), IOError>;
}

/// A pin that the peer drives.
pub trait InputPin {
    /// Whether the pin is high now.
    fn is_high(&mut self) -> Result<bool, IOError>;

    /// Whether the pin is low now.
    fn is_low(&mut self) -> Result<bool, IOError>;

    /// Blocks until the pin is high, however long that takes.
    fn wait_for_high(&mut self) -> Result<(), IOError>;

    /// Blocks until the pin is low, however long that takes.
    fn wait_for_low(&mut self) -> Result<(), IOError>;
}

/// The handshake that the engine asks of the four control lines. A fault of
/// any pin is reported as [`IOError::Pin`]; nothing is retried.
pub trait EspControlInterface {
    /// Drives chip-select, boot-mode and reset high and samples the ready line
    /// once.
    fn init(&mut self) -> Result<(), IOError>;

    /// Pulses the reset line: boot-mode and chip-select high, reset low for
    /// [`RESET_HOLD_MS`], reset high, then [`RESET_SETTLE_MS`] to settle.
    fn reset<D: DelayMs>(&mut self, delay: &mut D) -> Result<(), IOError>;

    /// Drives chip-select low.
    fn esp_select(&mut self) -> Result<(), IOError>;

    /// Drives chip-select high.
    fn esp_deselect(&mut self) -> Result<(), IOError>;

    /// True when the ready line is low: the peer takes a command.
    fn get_esp_ready(&mut self) -> Result<bool, IOError>;

    /// True when the ready line is high: the peer has latched the selection.
    fn get_esp_ack(&mut self) -> Result<bool, IOError>;

    /// Blocks until the peer is ready.
    fn wait_for_esp_ready(&mut self) -> Result<(), IOError>;

    /// Blocks until the peer acknowledges.
    fn wait_for_esp_ack(&mut self) -> Result<(), IOError>;

    /// Acquires the peer for one transaction: waits until it is ready, selects
    /// it, and waits for its acknowledgement.
    fn wait_for_esp_select(&mut self) -> Result<(), IOError>;
}

/// The three lines that the host drives.
#[derive(Clone, Copy, PartialEq, Eq, Structural, Debug)]
pub enum Line {
    /// Chip-select; low selects the peer.
    ChipSelect,
    /// Boot-mode; high lets the peer start its firmware.
    BootMode,
    /// Reset; low holds the peer in reset.
    Reset,
}

/// One thing that is asked of a pin or of the delay.
pub enum PinAction {
    /// Drive `line` high or low.
    Drive { line: Line, high: bool },
    /// Ask whether the ready line is at the level `high`.
    Sample { high: bool },
    /// Block until the ready line is at the level `high`.
    Await { high: bool },
    /// Sleep for `ms` milliseconds.
    Pause { ms: u16 },
}

/// One thing that was asked of a pin or of the delay, and how it went.
pub enum PinEvent {
    /// `line` was driven; `ok` is false when the pin faulted.
    Drove { line: Line, high: bool, ok: bool },
    /// The ready line was asked whether it is at the level `high`.
    Sampled { high: bool, answer: Result<bool, IOError> },
    /// The ready line was awaited at the level `high`; `ok` is false when
    /// the pin faulted.
    Awaited { high: bool, ok: bool },
    /// The delay slept for `ms` milliseconds.
    Paused { ms: u16 },
}

impl PinEvent {
    /// What was asked.
    pub open spec fn action(self) -> PinAction {
        match self {
            PinEvent::Drove { line, high, .. } => PinAction::Drive { line, high },
            PinEvent::Sampled { high, .. } => PinAction::Sample { high },
            PinEvent::Awaited { high, .. } => PinAction::Await { high },
            PinEvent::Paused { ms } => PinAction::Pause { ms },
        }
    }

    /// Whether it went without a fault.
    pub open spec fn ok(self) -> bool {
        match self {
            PinEvent::Drove { ok, .. } => ok,
            PinEvent::Sampled { answer, .. } => answer is Ok,
            PinEvent::Awaited { ok, .. } => ok,
            PinEvent::Paused { .. } => true,
        }
    }
}

/// `events` are `plan` carried out step by step up to the first fault:
/// each event is the next step of the plan, no event but the last is a
/// fault, and the plan was cut short only by a fault. `done` tells whether
/// the whole plan went through.
pub open spec fn carried_out(events: Seq<PinEvent>, plan: Seq<PinAction>, done: bool) -> bool {
    &&& events.len() <= plan.len()
    &&& forall|i: int| 0 <= i < events.len() ==> (#[trigger] events[i]).action() == plan[i]
    &&& forall|i: int| 0 <= i < events.len() - 1 ==> (#[trigger] events[i]).ok()
    &&& if done {
        events.len() == plan.len() && (events.len() > 0 ==> events.last().ok())
    } else {
        events.len() > 0 && !events.last().ok()
    }
}

/// What bringing the lines to their idle levels asks for.
pub open spec fn init_plan() -> Seq<PinAction> {
    seq![
        PinAction::Drive { line: Line::ChipSelect, high: true },
        PinAction::Drive { line: Line::BootMode, high: true },
        PinAction::Drive { line: Line::Reset, high: true },
        PinAction::Sample { high: false },
    ]
}

/// What resetting the peer asks for.
pub open spec fn reset_plan() -> Seq<PinAction> {
    seq![
        PinAction::Drive { line: Line::BootMode, high: true },
        PinAction::Drive { line: Line::ChipSelect, high: true },
        PinAction::Drive { line: Line::Reset, high: false },
        PinAction::Pause { ms: RESET_HOLD_MS },
        PinAction::Drive { line: Line::Reset, high: true },
        PinAction::Pause { ms: RESET_SETTLE_MS },
    ]
}

/// What acquiring the peer for a transaction asks for.
pub open spec fn acquire_plan() -> Seq<PinAction> {
    seq![
        PinAction::Await { high: false },
        PinAction::Drive { line: Line::ChipSelect, high: false },
        PinAction::Await { high: true },
    ]
}

/// The four pins that control the peer beside the bus.
pub struct EspControlPins<CS: OutputPin, GPIO0: OutputPin, RESETN: OutputPin, ACK: InputPin> {
    cs: CS,
    gpio0: GPIO0,
    resetn: RESETN,
    ack: ACK,
    record: Ghost<Seq<PinEvent>>,
}

impl<CS: OutputPin, GPIO0: OutputPin, RESETN: OutputPin, ACK: InputPin> EspControlPins<
    CS,
    GPIO0,
    RESETN,
    ACK,
> {
    /// Everything that was asked of the pins and of the delay, in order.
    pub closed spec fn trace(&self) -> Seq<PinEvent> {
        self.record@
    }

    /// The four pins: chip-select, boot-mode, reset, ready/ack.
    pub closed spec fn pins(&self) -> (CS, GPIO0, RESETN, ACK) {
        (self.cs, self.gpio0, self.resetn, self.ack)
    }

    /// The control lines on chip-select `cs`, boot-mode `gpio0`, reset
    /// `resetn` and ready/ack `ack`. Nothing is asked of the pins yet.
    pub fn new(cs: CS, gpio0: GPIO0, resetn: RESETN, ack: ACK) -> (pins: Self)
        ensures
            pins.trace() == Seq::<PinEvent>::empty(),
            pins.pins() == (cs, gpio0, resetn, ack),
    {
        EspControlPins { cs, gpio0, resetn, ack, record: Ghost(Seq::empty()) }
    }

    /// Gives the pins back, as they are now: chip-select, boot-mode, reset,
    /// ready/ack.
    pub fn release(self) -> (pins: (CS, GPIO0, RESETN, ACK))
        ensures
            pins == self.pins(),
    {
        (self.cs, self.gpio0, self.resetn, self.ack)
    }

    /// Drives `line` to the level `high`.
    fn drive(&mut self, line: Line, high: bool) -> (result: Result<(), IOError>)
        ensures
            final(self).trace() == old(self).trace().push(
                PinEvent::Drove { line, high, ok: result is Ok },
            ),
    {
        let outcome = match line {
            Line::ChipSelect => if high {
                self.cs.set_high()
            } else {
                self.cs.set_low()
            },
            Line::BootMode => if high {
                self.gpio0.set_high()
            } else {
                self.gpio0.set_low()
            },
            Line::Reset => if high {
                self.resetn.set_high()
            } else {
                self.resetn.set_low()
            },
        };
        let ok = outcome.is_ok();
        self.record = Ghost(self.record@.push(PinEvent::Drove { line, high, ok }));
        outcome
    }

    /// Blocks until the ready line is at the level `high`.
    fn await_level(&mut self, high: bool) -> (result: Result<(), IOError>)
        ensures
            final(self).trace() == old(self).trace().push(
                PinEvent::Awaited { high, ok: result is Ok },
            ),
    {
        let outcome = if high {
            self.ack.wait_for_high()
        } else {
            self.ack.wait_for_low()
        };
        let ok = outcome.is_ok();
        self.record = Ghost(self.record@.push(PinEvent::Awaited { high, ok }));
        outcome
    }

    /// Sleeps for `ms` milliseconds.
    fn pause<D: DelayMs>(&mut self, delay: &mut D, ms: u16)
        ensures
            final(self).trace() == old(self).trace().push(PinEvent::Paused { ms }),
    {
        delay.delay_ms(ms);
        self.record = Ghost(self.record@.push(PinEvent::Paused { ms }));
    }
}

impl<CS: OutputPin, GPIO0: OutputPin, RESETN: OutputPin, ACK: InputPin> EspControlInterface for EspControlPins<
    CS,
    GPIO0,
    RESETN,
    ACK,
> {
    /// Drives chip-select, boot-mode and reset high, in that order, and
    /// samples the ready line once. The first fault ends the call.
    fn init(&mut self) -> (result: Result<(), IOError>)
        ensures
            extends(old(self).trace(), final(self).trace()),
            carried_out(
                events_since(old(self).trace(), final(self).trace()),
                init_plan(),
                result is Ok,
            ),
    {
        let ghost before = self.trace();
        proof {
            lemma_extends_self(before);
        }
        if let Err(e) = self.drive(Line::ChipSelect, true) {
            proof {
                lemma_extends_push(before, before, self.trace().last());
            }
            return Err(e);
        }
        let ghost first = self.trace();
        if let Err(e) = self.drive(Line::BootMode, true) {
            proof {
                lemma_extends_push(before, before, first.last());
                lemma_extends_push(before, first, self.trace().last());
            }
            return Err(e);
        }
        let ghost second = self.trace();
        if let Err(e) = self.drive(Line::Reset, true) {
            proof {
                lemma_extends_push(before, before, first.last());
                lemma_extends_push(before, first, second.last());
                lemma_extends_push(before, second, self.trace().last());
            }
            return Err(e);
        }
        let ghost third = self.trace();
        let sampled = self.get_esp_ready();
        proof {
            lemma_extends_push(before, before, first.last());
            lemma_extends_push(before, first, second.last());
            lemma_extends_push(before, second, third.last());
            lemma_extends_push(before, third, self.trace().last());
        }
        match sampled {
            Ok(_) => Ok(()),
            Err(e) => Err(e),
        }
    }

    /// Pulses the reset line: boot-mode high, chip-select high, reset low,
    /// a pause of [`RESET_HOLD_MS`], reset high, a pause of
    /// [`RESET_SETTLE_MS`]. The first fault ends the call.
    fn reset<D: DelayMs>(&mut self, delay: &mut D) -> (result: Result<(), IOError>)
        ensures
            extends(old(self).trace(), final(self).trace()),
            carried_out(
                events_since(old(self).trace(), final(self).trace()),
                reset_plan(),
                result is Ok,
            ),
    {
        let ghost before = self.trace();
        proof {
            lemma_extends_self(before);
        }
        if let Err(e) = self.drive(Line::BootMode, true) {
            proof {
                lemma_extends_push(before, before, self.trace().last());
            }
            return Err(e);
        }
        let ghost first = self.trace();
        if let Err(e) = self.drive(Line::ChipSelect, true) {
            proof {
                lemma_extends_push(before, before, first.last());
                lemma_extends_push(before, first, self.trace().last());
            }
            return Err(e);
        }
        let ghost second = self.trace();
        if let Err(e) = self.drive(Line::Reset, false) {
            proof {
                lemma_extends_push(before, before, first.last());
                lemma_extends_push(before, first, second.last());
                lemma_extends_push(before, second, self.trace().last());
            }
            return Err(e);
        }
        let ghost third = self.trace();
        self.pause(delay, RESET_HOLD_MS);
        let ghost fourth = self.trace();
        let lifted = self.drive(Line::Reset, true);
        let ghost fifth = self.trace();
        proof {
            lemma_extends_push(before, before, first.last());
            lemma_extends_push(before, first, second.last());
            lemma_extends_push(before, second, third.last());
            lemma_extends_push(before, third, fourth.last());
            lemma_extends_push(before, fourth, fifth.last());
        }
        if let Err(e) = lifted {
            return Err(e);
        }
        self.pause(delay, RESET_SETTLE_MS);
        proof {
            lemma_extends_push(before, fifth, self.trace().last());
        }
        Ok(())
    }

    /// Drives chip-select low.
    fn esp_select(&mut self) -> (result: Result<(), IOError>)
        ensures
            final(self).trace() == old(self).trace().push(
                PinEvent::Drove { line: Line::ChipSelect, high: false, ok: result is Ok },
            ),
    {
        self.drive(Line::ChipSelect, false)
    }

    /// Drives chip-select high.
    fn esp_deselect(&mut self) -> (result: Result<(), IOError>)
        ensures
            final(self).trace() == old(self).trace().push(
                PinEvent::Drove { line: Line::ChipSelect, high: true, ok: result is Ok },
            ),
    {
        self.drive(Line::ChipSelect, true)
    }

    /// Asks whether the ready line is low: the peer is ready when it is.
    fn get_esp_ready(&mut self) -> (result: Result<bool, IOError>)
        ensures
            final(self).trace() == old(self).trace().push(
                PinEvent::Sampled { high: false, answer: result },
            ),
    {
        let answer = self.ack.is_low();
        self.record = Ghost(self.record@.push(PinEvent::Sampled { high: false, answer }));
        answer
    }

    /// Asks whether the ready line is high: the peer has acknowledged when
    /// it is.
    fn get_esp_ack(&mut self) -> (result: Result<bool, IOError>)
        ensures
            final(self).trace() == old(self).trace().push(
                PinEvent::Sampled { high: true, answer: result },
            ),
    {
        let answer = self.ack.is_high();
        self.record = Ghost(self.record@.push(PinEvent::Sampled { high: true, answer }));
        answer
    }

    /// Blocks until the ready line is low.
    fn wait_for_esp_ready(&mut self) -> (result: Result<(), IOError>)
        ensures
            final(self).trace() == old(self).trace().push(
                PinEvent::Awaited { high: false, ok: result is Ok },
            ),
    {
        self.await_level(false)
    }

    /// Blocks until the ready line is high.
    fn wait_for_esp_ack(&mut self) -> (result: Result<(), IOError>)
        ensures
            final(self).trace() == old(self).trace().push(
                PinEvent::Awaited { high: true, ok: result is Ok },
            ),
    {
        self.await_level(true)
    }

    /// Acquires the peer: waits until the ready line is low, drives
    /// chip-select low, and waits until the ready line is high. The first
    /// fault ends the call.
    fn wait_for_esp_select(&mut self) -> (result: Result<(), IOError>)
        ensures
            extends(old(self).trace(), final(self).trace()),
            carried_out(
                events_since(old(self).trace(), final(self).trace()),
                acquire_plan(),
                result is Ok,
            ),
    {
        let ghost before = self.trace();
        proof {
            lemma_extends_self(before);
        }
        if let Err(e) = self.wait_for_esp_ready() {
            proof {
                lemma_extends_push(before, before, self.trace().last());
            }
            return Err(e);
        }
        let ghost first = self.trace();
        if let Err(e) = self.esp_select() {
            proof {
                lemma_extends_push(before, before, first.last());
                lemma_extends_push(before, first, self.trace().last());
            }
            return Err(e);
        }
        let ghost second = self.trace();
        let acknowledged = self.wait_for_esp_ack();
        proof {
            lemma_extends_push(before, before, first.last());
            lemma_extends_push(before, first, second.last());
            lemma_extends_push(before, second, self.trace().last());
        }
        acknowledged
    }
}

} // verus!
