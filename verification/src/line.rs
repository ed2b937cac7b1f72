//! The data line as the bus master sees it.
//!
//! What the driver needs of the hardware are two capabilities, for the user
//! of the driver to supply: a [`Pin`], the open-drain output whose level can
//! be sensed, and a [`Delay`] that lets microseconds pass. A [`Line`] puts
//! the two together and keeps a record of everything that is done with them.
//! The driver touches pin and delay through the line and in no other way, so
//! that the record is what the timing of every reset and of every time slot
//! is stated over.

use vstd::prelude::*;

verus! {

/// One thing that happened on the line.
#[derive(Clone, Copy, Debug, PartialEq, Eq, Structural)]
pub enum LineEvent {
    /// The master started to pull the line low.
    Low,
    /// The master let go of the line; the pull-up, or a device, now decides
    /// its level.
    Released,
    /// The master let this many microseconds pass.
    Delay(u32),
    /// The master sensed the line and found it high (`true`) or low.
    Sample(bool),
    /// The pin refused an operation.
    Fault,
}

/// What a [`Pin`] answers when it fails.
#[derive(Clone, Copy, Debug, PartialEq, Eq, Structural)]
pub struct Fault;

/// The pin behind the data line: an open-drain output whose level can be
/// sensed, and which may refuse an operation.
///
/// Nothing is taken for granted of an implementation: whatever it answers,
/// the driver deals with it.
pub trait Pin {
    /// Pulls the line low.
    fn set_low(&mut self) -> Result<(), Fault>;

    /// Lets go of the line.
    fn release(&mut self) -> Result<(), Fault>;

    /// Senses the line: `true` when it is high.
    fn is_high(&mut self) -> Result<bool, Fault>;
}

/// A clock to time the line by.
pub trait Delay {
    /// Blocks for `micros` microseconds.
    fn delay_us(&mut self, micros: u32);
}

/// A pin and a delay, and the record of what was done with them.
///
/// Every operation does one thing to the pin or the delay and adds one
/// entry to the record: its own event when it went through,
/// [`LineEvent::Fault`] when the pin refused.
pub struct Line<P: Pin, D: Delay> {
    pin: P,
    delay: D,
    history: Ghost<Seq<LineEvent>>,
}

impl<P: Pin, D: Delay> Line<P, D> {
    /// Everything done on this line so far, oldest first.
    pub closed spec fn history(&self) -> Seq<LineEvent> {
        self.history@
    }

    /// The pin and the delay the line is made of.
    pub closed spec fn parts(&self) -> (P, D) {
        (self.pin, self.delay)
    }

    /// Makes a line of a pin and a delay; nothing has been done on it yet.
    pub fn new(pin: P, delay: D) -> (line: Self)
        ensures
            line.parts() == (pin, delay),
            line.history() == Seq::<LineEvent>::empty(),
    {
        Line { pin, delay, history: Ghost(Seq::empty()) }
    }

    /// The pin, to look at.
    pub fn pin(&self) -> (pin: &P)
        ensures
            *pin == self.parts().0,
    {
        &self.pin
    }

    /// The delay, to look at.
    pub fn delay(&self) -> (delay: &D)
        ensures
            *delay == self.parts().1,
    {
        &self.delay
    }

    /// Takes the line apart again.
    pub fn free(self) -> (parts: (P, D))
        ensures
            parts == self.parts(),
    {
        (self.pin, self.delay)
    }

    /// Pulls the line low.
    pub fn pull_low(&mut self) -> (result: Result<(), Fault>)
        ensures
            final(self).history() == old(self).history().push(
                if result is Ok {
                    LineEvent::Low
                } else {
                    LineEvent::Fault
                },
            ),
    {
        let result = self.pin.set_low();
        self.history = Ghost(
            self.history@.push(
                if result is Ok {
                    LineEvent::Low
                } else {
                    LineEvent::Fault
                },
            ),
        );
        result
    }

    /// Lets go of the line.
    pub fn let_go(&mut self) -> (result: Result<(), Fault>)
        ensures
            final(self).history() == old(self).history().push(
                if result is Ok {
                    LineEvent::Released
                } else {
                    LineEvent::Fault
                },
            ),
    {
        let result = self.pin.release();
        self.history = Ghost(
            self.history@.push(
                if result is Ok {
                    LineEvent::Released
                } else {
                    LineEvent::Fault
                },
            ),
        );
        result
    }

    /// Senses the line: `true` when it is high.
    pub fn sample(&mut self) -> (result: Result<bool, Fault>)
        ensures
            final(self).history() == old(self).history().push(
                match result {
                    Ok(level) => LineEvent::Sample(level),
                    Err(_) => LineEvent::Fault,
                },
            ),
    {
        let result = self.pin.is_high();
        self.history = Ghost(
            self.history@.push(
                match result {
                    Ok(level) => LineEvent::Sample(level),
                    Err(_) => LineEvent::Fault,
                },
            ),
        );
        result
    }

    /// Lets `micros` microseconds pass, leaving the line as it is.
    pub fn pause(&mut self, micros: u32)
        ensures
            final(self).history() == old(self).history().push(LineEvent::Delay(micros)),
    {
        self.delay.delay_us(micros);
        self.history = Ghost(self.history@.push(LineEvent::Delay(micros)));
    }
}

} // verus!
