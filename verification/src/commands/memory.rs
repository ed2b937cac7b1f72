//! Commands that act on the memory of the addressed devices.

use crate::bits::{bits_of, bits_of_bytes};
use crate::command::{Command, Commander};
use crate::commands::rom::{RomMatch, RomSkip, COMMAND_ROM_MATCH, COMMAND_ROM_SKIP};
use crate::driver::{
    broken_off, lemma_broken_off, lemma_broken_off_within, reads, writes, BusEvent,
    OneWireDriver, SLOT_DURATION_MICROS,
};
use crate::error::Error;
use crate::line::{Delay, Pin};
use crate::rom::Rom;
use crate::scratchpad::Scratchpad;
use vstd::prelude::*;

verus! {

/// The opcode that starts a temperature conversion.
pub const COMMAND_MEMORY_CONVERT: u8 = 0x44;

/// The opcode that recalls triggers and configuration from nonvolatile
/// memory.
pub const COMMAND_MEMORY_RECALL: u8 = 0xB8;

/// The opcode that asks devices how they are powered.
pub const COMMAND_MEMORY_POWER_SUPPLY_READ: u8 = 0xB4;

/// The opcode that copies triggers and configuration to nonvolatile memory.
pub const COMMAND_MEMORY_SCRATCHPAD_COPY: u8 = 0x48;

/// The opcode that makes the device addressed send its scratchpad.
pub const COMMAND_MEMORY_SCRATCHPAD_READ: u8 = 0xBE;

/// The opcode that is followed by the bytes to write to the scratchpad.
pub const COMMAND_MEMORY_SCRATCHPAD_WRITE: u8 = 0x4E;

/// The longest a device takes to recall its configuration or to copy its
/// scratchpad.
pub const COMPLETION_MICROS: u32 = 10000;

/// How many read slots a recall is polled for at most: as many as fit into
/// the completion time, and one more.
pub const RECALL_RETRIES: u32 = COMPLETION_MICROS / SLOT_DURATION_MICROS + 1;

/// The transport operations that address devices: a reset with the presence
/// it found, then either the match opcode and an identifier or the skip
/// opcode.
pub open spec fn addressed(rom: Option<Rom>, presence: bool) -> Seq<BusEvent> {
    seq![BusEvent::Reset { presence }] + match rom {
        Some(rom) => writes(bits_of(COMMAND_ROM_MATCH)) + writes(bits_of_bytes(rom@)),
        None => writes(bits_of(COMMAND_ROM_SKIP)),
    }
}

/// Whether the operation at `position` is a reset that found a device.
pub open spec fn presence_at(events: Seq<BusEvent>, position: int) -> bool {
    events[position] == (BusEvent::Reset { presence: true })
}

/// The transport operations with which a command for the memory starts:
/// devices are addressed, then the opcode goes out. The presence is the one
/// that the reset in `after` found.
pub open spec fn opened(
    rom: Option<Rom>,
    opcode: u8,
    before: Seq<BusEvent>,
    after: Seq<BusEvent>,
) -> Seq<BusEvent> {
    addressed(rom, presence_at(after, before.len() as int)) + writes(bits_of(opcode))
}

/// `count` read slots that each found the line low.
pub open spec fn polls(count: nat) -> Seq<BusEvent> {
    Seq::new(count, |i: int| BusEvent::Read(false))
}

/// Resets the bus, addresses one device or all, and sends `opcode`.
fn begin<P: Pin, D: Delay>(
    rom: Option<Rom>,
    opcode: u8,
    driver: &mut OneWireDriver<P, D>,
) -> (result: Result<(), Error>)
    ensures
        match result {
            Ok(()) => final(driver).log() == old(driver).log() + opened(
                rom,
                opcode,
                old(driver).log(),
                final(driver).log(),
            ),
            Err(e) => e == Error::Pin && broken_off(
                old(driver).log(),
                final(driver).log(),
                opened(rom, opcode, old(driver).log(), final(driver).log()),
            ),
        },
        old(driver).in_slots() ==> final(driver).in_slots(),
{
    let ghost before = driver.log();
    let presence = match driver.reset() {
        Ok(presence) => presence,
        Err(e) => {
            proof {
                let after = driver.log();
                let whole = opened(rom, opcode, before, after);
                assert(whole.take(0) =~= Seq::empty());
                lemma_broken_off(before, Seq::empty(), whole);
                assert(after =~= (before + Seq::empty()).push(BusEvent::Fault));
            }
            return Err(e);
        },
    };
    let ghost reset = seq![BusEvent::Reset { presence }];
    assert(driver.log() =~= before + reset);
    let selected = match rom {
        Some(rom) => driver.run(RomMatch { rom }),
        None => driver.run(RomSkip),
    };
    let ghost selection = addressed(rom, presence);
    let ghost address = selection.skip(1);
    match selected {
        Ok(()) => {},
        Err(e) => {
            proof {
                let after = driver.log();
                assert(address =~= match rom {
                    Some(rom) => writes(bits_of(COMMAND_ROM_MATCH)) + writes(bits_of_bytes(rom@)),
                    None => writes(bits_of(COMMAND_ROM_SKIP)),
                });
                lemma_same_reset(before, reset, after, address);
                let whole = opened(rom, opcode, before, after);
                assert(whole.take((reset.len() + address.len()) as int) =~= reset + address);
                lemma_broken_off_within(before, reset, after, address, whole);
            }
            return Err(e);
        },
    }
    assert(driver.log() =~= before + selection);
    match driver.write_byte(opcode) {
        Ok(()) => {},
        Err(e) => {
            proof {
                let after = driver.log();
                let sent = writes(bits_of(opcode));
                lemma_same_reset(before, selection, after, sent);
                let whole = opened(rom, opcode, before, after);
                assert(whole.take((selection.len() + sent.len()) as int) =~= selection + sent);
                lemma_broken_off_within(before, selection, after, sent, whole);
            }
            return Err(e);
        },
    }
    proof {
        let after = driver.log();
        assert(after =~= before + (selection + writes(bits_of(opcode))));
        assert(after[before.len() as int] == reset[0]);
        assert(presence_at(after, before.len() as int) == presence);
    }
    Ok(())
}

/// A record broken off after the reset went through still has the reset
/// where it was.
proof fn lemma_same_reset(
    before: Seq<BusEvent>,
    first: Seq<BusEvent>,
    after: Seq<BusEvent>,
    planned: Seq<BusEvent>,
)
    requires
        first.len() > 0,
        broken_off(before + first, after, planned),
    ensures
        after[before.len() as int] == first[0],
{
    let done = choose|done: int|
        0 <= done < planned.len() && after == (before + first + #[trigger] planned.take(done)).push(
            BusEvent::Fault,
        );
    assert((before + first)[before.len() as int] == first[0]);
}

/// Starts a temperature conversion, on one device or on all.
///
/// The measurement takes time that depends on the resolution; it has to be
/// waited for before the result is read.
#[derive(Clone, Copy, Debug)]
pub struct MemoryConvert {
    pub rom: Option<Rom>,
}

impl Default for MemoryConvert {
    fn default() -> (command: MemoryConvert)
        ensures
            command.rom is None,
    {
        MemoryConvert { rom: None }
    }
}

impl Command for MemoryConvert {
    type Output = Result<(), Error>;

    /// Devices are addressed and the opcode goes out; nothing is read. A
    /// fault of the pin breaks that off.
    open spec fn effect(
        &self,
        before: Seq<BusEvent>,
        after: Seq<BusEvent>,
        output: Result<(), Error>,
    ) -> bool {
        let run = opened(self.rom, COMMAND_MEMORY_CONVERT, before, after);
        match output {
            Ok(()) => after == before + run,
            Err(e) => e == Error::Pin && broken_off(before, after, run),
        }
    }

    fn execute<P: Pin, D: Delay>(&self, driver: &mut OneWireDriver<P, D>) -> (output: Result<
        (),
        Error,
    >) {
        begin(self.rom, COMMAND_MEMORY_CONVERT, driver)
    }
}

/// Signals the mode of the devices' power supply to the master.
#[derive(Clone, Copy, Debug)]
pub enum MemoryPowerSupplyRead {
    /// Signals the mode of the devices' power supply to the master.
    Read,
}

/// Recalls the triggers and the configuration from nonvolatile memory into
/// the scratchpad, on one device or on all.
#[derive(Clone, Copy, Debug)]
pub struct MemoryRecall {
    pub rom: Option<Rom>,
}

impl Default for MemoryRecall {
    fn default() -> (command: MemoryRecall)
        ensures
            command.rom is None,
    {
        MemoryRecall { rom: None }
    }
}

impl Command for MemoryRecall {
    type Output = Result<(), Error>;

    /// After the opcode the line is polled, one read slot at a time, until a
    /// slot finds it high. The command succeeds with the first such slot,
    /// which is at the latest the last of the retries, and times out after
    /// exactly that many slots that all found the line low. A fault of the
    /// pin breaks the polling off, or what comes before it.
    open spec fn effect(
        &self,
        before: Seq<BusEvent>,
        after: Seq<BusEvent>,
        output: Result<(), Error>,
    ) -> bool {
        let asked = opened(self.rom, COMMAND_MEMORY_RECALL, before, after);
        match output {
            Ok(()) => {
                let busy = after.len() - before.len() - asked.len() - 1;
                &&& 0 <= busy < RECALL_RETRIES
                &&& after == before + asked + polls(busy as nat).push(BusEvent::Read(true))
            },
            Err(Error::Timeout) => after == before + asked + polls(RECALL_RETRIES as nat),
            Err(e) => e == Error::Pin && broken_off(
                before,
                after,
                asked + polls(RECALL_RETRIES as nat),
            ),
        }
    }

    fn execute<P: Pin, D: Delay>(&self, driver: &mut OneWireDriver<P, D>) -> (output: Result<
        (),
        Error,
    >) {
        let ghost before = driver.log();
        match begin(self.rom, COMMAND_MEMORY_RECALL, driver) {
            Ok(()) => {},
            Err(e) => {
                proof {
                    let after = driver.log();
                    let asked = opened(self.rom, COMMAND_MEMORY_RECALL, before, after);
                    let whole = asked + polls(RECALL_RETRIES as nat);
                    assert(before + Seq::empty() =~= before);
                    assert(Seq::<BusEvent>::empty() + asked =~= asked);
                    assert(whole.take(asked.len() as int) =~= asked);
                    lemma_broken_off_within(before, Seq::empty(), after, asked, whole);
                }
                return Err(e);
            },
        }
        let ghost asked = opened(self.rom, COMMAND_MEMORY_RECALL, before, driver.log());
        let ghost start = before + asked;
        let mut tries: u32 = 0;
        assert(driver.log() =~= start + polls(0));
        while tries < RECALL_RETRIES
            invariant
                tries <= RECALL_RETRIES,
                RECALL_RETRIES == 143,
                before == old(driver).log(),
                old(driver).in_slots() ==> driver.in_slots(),
                start == before + asked,
                asked.len() > 0,
                asked == opened(self.rom, COMMAND_MEMORY_RECALL, before, start),
                driver.log() == start + polls(tries as nat),
            decreases RECALL_RETRIES - tries,
        {
            match driver.read_bit() {
                Ok(true) => {
                    proof {
                        let after = driver.log();
                        assert(after =~= start + polls(tries as nat).push(BusEvent::Read(true)));
                        assert(after[before.len() as int] == start[before.len() as int]);
                    }
                    return Ok(());
                },
                Ok(false) => {
                    assert(driver.log() =~= start + polls((tries + 1) as nat));
                },
                Err(e) => {
                    proof {
                        let after = driver.log();
                        let polled = asked + polls(tries as nat);
                        let whole = asked + polls(RECALL_RETRIES as nat);
                        assert(whole.take(polled.len() as int) =~= polled);
                        lemma_broken_off(before, polled, whole);
                        assert(after =~= (before + polled).push(BusEvent::Fault));
                        assert(after[before.len() as int] == start[before.len() as int]);
                    }
                    return Err(e);
                },
            }
            tries += 1;
        }
        proof {
            let after = driver.log();
            assert(after[before.len() as int] == start[before.len() as int]);
        }
        Err(Error::Timeout)
    }
}

/// Copies the triggers and the configuration from the scratchpad into
/// nonvolatile memory, on one device or on all.
#[derive(Clone, Copy, Debug)]
pub struct MemoryScratchpadCopy {
    pub rom: Option<Rom>,
}

impl Default for MemoryScratchpadCopy {
    fn default() -> (command: MemoryScratchpadCopy)
        ensures
            command.rom is None,
    {
        MemoryScratchpadCopy { rom: None }
    }
}

impl Command for MemoryScratchpadCopy {
    type Output = Result<(), Error>;

    /// After the opcode the bus is left alone for the time the copy takes.
    /// A fault of the pin breaks off what comes before the wait.
    open spec fn effect(
        &self,
        before: Seq<BusEvent>,
        after: Seq<BusEvent>,
        output: Result<(), Error>,
    ) -> bool {
        let asked = opened(self.rom, COMMAND_MEMORY_SCRATCHPAD_COPY, before, after);
        match output {
            Ok(()) => after == (before + asked).push(BusEvent::Wait(COMPLETION_MICROS)),
            Err(e) => e == Error::Pin && broken_off(before, after, asked),
        }
    }

    fn execute<P: Pin, D: Delay>(&self, driver: &mut OneWireDriver<P, D>) -> (output: Result<
        (),
        Error,
    >) {
        let ghost before = driver.log();
        match begin(self.rom, COMMAND_MEMORY_SCRATCHPAD_COPY, driver) {
            Ok(()) => {},
            Err(e) => {
                return Err(e);
            },
        }
        let ghost sent = driver.log();
        driver.wait(COMPLETION_MICROS);
        proof {
            let after = driver.log();
            assert(after[before.len() as int] == sent[before.len() as int]);
        }
        Ok(())
    }
}

/// Reads the scratchpad of one device, with its CRC.
#[derive(Clone, Copy, Debug)]
pub struct MemoryScratchpadRead {
    pub rom: Rom,
}

impl Command for MemoryScratchpadRead {
    type Output = Result<Scratchpad, Error>;

    /// Nine bytes are read after the opcode, and what is yielded is what
    /// they decode to: bytes that fail the CRC are rejected with the
    /// mismatch and never decoded. A fault of the pin breaks the reading
    /// off, or what comes before it.
    open spec fn effect(
        &self,
        before: Seq<BusEvent>,
        after: Seq<BusEvent>,
        output: Result<Scratchpad, Error>,
    ) -> bool {
        let asked = opened(Some(self.rom), COMMAND_MEMORY_SCRATCHPAD_READ, before, after);
        exists|bytes: Seq<u8>|
            {
                &&& bytes.len() == 9
                &&& if output == Err::<Scratchpad, Error>(Error::Pin) {
                    broken_off(before, after, asked + #[trigger] reads(bits_of_bytes(bytes)))
                } else {
                    &&& after == before + asked + reads(bits_of_bytes(bytes))
                    &&& output == Scratchpad::parse(bytes)
                }
            }
    }

    fn execute<P: Pin, D: Delay>(&self, driver: &mut OneWireDriver<P, D>) -> (output: Result<
        Scratchpad,
        Error,
    >) {
        let ghost before = driver.log();
        let ghost nothing = Seq::new(9, |i: int| 0u8);
        match begin(Some(self.rom), COMMAND_MEMORY_SCRATCHPAD_READ, driver) {
            Ok(()) => {},
            Err(e) => {
                proof {
                    let after = driver.log();
                    let asked = opened(
                        Some(self.rom),
                        COMMAND_MEMORY_SCRATCHPAD_READ,
                        before,
                        after,
                    );
                    let whole = asked + reads(bits_of_bytes(nothing));
                    assert(before + Seq::empty() =~= before);
                    assert(Seq::<BusEvent>::empty() + asked =~= asked);
                    assert(whole.take(asked.len() as int) =~= asked);
                    lemma_broken_off_within(before, Seq::empty(), after, asked, whole);
                }
                return Err(e);
            },
        }
        let ghost sent = driver.log();
        let ghost asked = opened(Some(self.rom), COMMAND_MEMORY_SCRATCHPAD_READ, before, sent);
        let mut bytes = [0u8, 0u8, 0u8, 0u8, 0u8, 0u8, 0u8, 0u8, 0u8];
        match driver.read_bytes(&mut bytes) {
            Ok(()) => {},
            Err(e) => {
                proof {
                    let after = driver.log();
                    let missed = choose|missed: Seq<u8>|
                        missed.len() == 9 && broken_off(
                            before + asked,
                            after,
                            #[trigger] reads(bits_of_bytes(missed)),
                        );
                    let read = reads(bits_of_bytes(missed));
                    lemma_same_reset(before, asked, after, read);
                    assert(after[before.len() as int] == sent[before.len() as int]);
                    let whole = asked + read;
                    assert(whole.take(whole.len() as int) =~= whole);
                    lemma_broken_off_within(before, asked, after, read, whole);
                }
                return Err(e);
            },
        }
        let decoded = Scratchpad::from_bytes(bytes);
        proof {
            let after = driver.log();
            assert(after[before.len() as int] == sent[before.len() as int]);
            assert(after =~= before + asked + reads(bits_of_bytes(bytes@)));
            assert(decoded != Err::<Scratchpad, Error>(Error::Pin));
        }
        decoded
    }
}

/// Writes the triggers and the configuration into the scratchpad, on one
/// device or on all.
#[derive(Clone, Copy, Debug)]
pub struct MemoryScratchpadWrite {
    pub rom: Option<Rom>,
    pub scratchpad: Scratchpad,
}

impl Default for MemoryScratchpadWrite {
    fn default() -> (command: MemoryScratchpadWrite)
        ensures
            command.rom is None,
            command.scratchpad == (Scratchpad {
                triggers: crate::scratchpad::Triggers { high: 0, low: 0 },
                configuration: crate::scratchpad::Configuration {
                    resolution: crate::scratchpad::Resolution::Bits12,
                },
            }),
    {
        MemoryScratchpadWrite { rom: None, scratchpad: Scratchpad::default() }
    }
}

impl Command for MemoryScratchpadWrite {
    type Output = Result<(), Error>;

    /// Three bytes follow the opcode: high trigger, low trigger,
    /// configuration register. A fault of the pin breaks that off.
    open spec fn effect(
        &self,
        before: Seq<BusEvent>,
        after: Seq<BusEvent>,
        output: Result<(), Error>,
    ) -> bool {
        let run = opened(self.rom, COMMAND_MEMORY_SCRATCHPAD_WRITE, before, after) + writes(
            bits_of_bytes(self.scratchpad.written()),
        );
        match output {
            Ok(()) => after == before + run,
            Err(e) => e == Error::Pin && broken_off(before, after, run),
        }
    }

    fn execute<P: Pin, D: Delay>(&self, driver: &mut OneWireDriver<P, D>) -> (output: Result<
        (),
        Error,
    >) {
        let ghost before = driver.log();
        let ghost data = writes(bits_of_bytes(self.scratchpad.written()));
        match begin(self.rom, COMMAND_MEMORY_SCRATCHPAD_WRITE, driver) {
            Ok(()) => {},
            Err(e) => {
                proof {
                    let after = driver.log();
                    let asked = opened(self.rom, COMMAND_MEMORY_SCRATCHPAD_WRITE, before, after);
                    let whole = asked + data;
                    assert(before + Seq::empty() =~= before);
                    assert(Seq::<BusEvent>::empty() + asked =~= asked);
                    assert(whole.take(asked.len() as int) =~= asked);
                    lemma_broken_off_within(before, Seq::empty(), after, asked, whole);
                }
                return Err(e);
            },
        }
        let ghost sent = driver.log();
        let ghost asked = opened(self.rom, COMMAND_MEMORY_SCRATCHPAD_WRITE, before, sent);
        let bytes = self.scratchpad.to_bytes();
        match driver.write_bytes(&bytes) {
            Ok(()) => {},
            Err(e) => {
                proof {
                    let after = driver.log();
                    lemma_same_reset(before, asked, after, data);
                    assert(after[before.len() as int] == sent[before.len() as int]);
                    let whole = asked + data;
                    assert(whole.take(whole.len() as int) =~= whole);
                    lemma_broken_off_within(before, asked, after, data, whole);
                }
                return Err(e);
            },
        }
        proof {
            let after = driver.log();
            assert(after[before.len() as int] == sent[before.len() as int]);
            assert(after =~= before + (asked + data));
        }
        Ok(())
    }
}

/// Two commands, to be carried out one after the other.
#[derive(Clone, Copy, Debug, Default)]
pub struct And<T, U>(pub T, pub U);

} // verus!
