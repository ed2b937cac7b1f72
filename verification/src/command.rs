//! The uniform contract of everything that can be done on the bus.

use crate::driver::{BusEvent, OneWireDriver};
use crate::line::{Delay, Pin};
use vstd::prelude::*;

verus! {

/// A protocol operation: a value that is executed against the transport and
/// yields a typed result.
///
/// A command holds no bus state of its own. While it runs it has the
/// transport to itself, so a composite command can run others through the
/// same transport without any of them interleaving.
pub trait Command {
    /// What the command yields.
    type Output;

    /// What executing the command does: how the record of transport
    /// operations after it relates to the record before it, and which
    /// output goes with that.
    spec fn effect(
        &self,
        before: Seq<BusEvent>,
        after: Seq<BusEvent>,
        output: Self::Output,
    ) -> bool;

    /// Carries the command out on the bus.
    ///
    /// Whatever the command does, it does through the transport: what was
    /// done on the line slot by slot before is so after.
    fn execute<P: Pin, D: Delay>(&self, driver: &mut OneWireDriver<P, D>) -> (output:
        Self::Output)
        ensures
            self.effect(old(driver).log(), final(driver).log(), output),
            old(driver).in_slots() ==> final(driver).in_slots(),
    ;
}

/// Something that accepts a command and carries it out.
pub trait Commander {
    /// Every transport operation performed so far, oldest first.
    spec fn performed(&self) -> Seq<BusEvent>;

    /// Whether everything done on the line so far was done slot by slot.
    spec fn orderly(&self) -> bool;

    /// Runs `command` and hands back what it yields.
    fn run<C: Command>(&mut self, command: C) -> (output: C::Output)
        ensures
            command.effect(old(self).performed(), final(self).performed(), output),
            old(self).orderly() ==> final(self).orderly(),
    ;
}

impl<P: Pin, D: Delay> Commander for OneWireDriver<P, D> {
    open spec fn performed(&self) -> Seq<BusEvent> {
        self.log()
    }

    open spec fn orderly(&self) -> bool {
        self.in_slots()
    }

    fn run<C: Command>(&mut self, command: C) -> (output: C::Output) {
        command.execute(self)
    }
}

} // verus!
