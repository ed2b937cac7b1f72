//! Commands that address devices by their identifier.

use crate::bits::{bits_of, bits_of_bytes, lemma_bits_determine_bytes};
use crate::command::Command;
use crate::crc8::checked;
use crate::driver::{
    broken_off, lemma_broken_off, lemma_broken_off_ends, lemma_broken_off_within, reads, writes,
    BusEvent, OneWireDriver,
};
use crate::error::Error;
use crate::line::{Delay, Pin};
use crate::rom::Rom;
use crate::search::{
    called, complete, direction, enumerated, exchange, found, lemma_later_pairs,
    lemma_later_rounds, passed, reachable, resolve, running, step, survey, surveyed,
    Observation, Progress, Survey, POSITIONS,
};
use vstd::prelude::*;

verus! {

/// The opcode of the search that only devices with an alarm answer.
pub const COMMAND_ALARM_SEARCH: u8 = 0xEC;

/// The opcode that makes the one device on the bus send its identifier.
pub const COMMAND_ROM_READ: u8 = 0x33;

/// The opcode that is followed by the identifier of the device addressed.
pub const COMMAND_ROM_MATCH: u8 = 0x55;

/// The opcode that addresses every device.
pub const COMMAND_ROM_SKIP: u8 = 0xCC;

/// The opcode of the search.
pub const COMMAND_ROM_SEARCH: u8 = 0xF0;

/// Read ROM command.
///
/// Resets the bus and reads the identifier of the one device on it: family
/// code, serial number and CRC. It is of use only with a single device; with
/// more, all of them answer at once.
#[derive(Clone, Copy, Debug)]
pub struct RomRead;

/// The transport operations of a reset that was answered, an opcode, and
/// `bytes` read back.
pub open spec fn answered_read(opcode: u8, bytes: Seq<u8>) -> Seq<BusEvent> {
    seq![BusEvent::Reset { presence: true }] + writes(bits_of(opcode)) + reads(
        bits_of_bytes(bytes),
    )
}

impl Command for RomRead {
    type Output = Result<Rom, Error>;

    /// The identifier is exactly the eight bytes that were read, and it is
    /// yielded if and only if a device answered the reset and the bytes
    /// check out. When the pin fails, what was done up to then is the start
    /// of what the command does when it comes through.
    open spec fn effect(
        &self,
        before: Seq<BusEvent>,
        after: Seq<BusEvent>,
        output: Result<Rom, Error>,
    ) -> bool {
        match output {
            Ok(rom) => rom.valid() && after == before + answered_read(COMMAND_ROM_READ, rom@),
            Err(Error::Pin) => exists|bytes: Seq<u8>|
                bytes.len() == 8 && broken_off(
                    before,
                    after,
                    #[trigger] answered_read(COMMAND_ROM_READ, bytes),
                ),
            Err(Error::NoAttachedDevices) => after == before.push(
                BusEvent::Reset { presence: false },
            ),
            Err(e) => exists|bytes: Seq<u8>|
                {
                    &&& bytes.len() == 8
                    &&& after == before + #[trigger] answered_read(COMMAND_ROM_READ, bytes)
                    &&& checked(bytes) == Err::<(), Error>(e)
                },
        }
    }

    fn execute<P: Pin, D: Delay>(&self, driver: &mut OneWireDriver<P, D>) -> (output: Result<
        Rom,
        Error,
    >) {
        let ghost before = driver.log();
        let ghost nothing = Seq::new(8, |i: int| 0u8);
        match driver.reset() {
            Ok(true) => {},
            Ok(false) => {
                return Err(Error::NoAttachedDevices);
            },
            Err(e) => {
                proof {
                    let whole = answered_read(COMMAND_ROM_READ, nothing);
                    assert(whole.take(0) =~= Seq::empty());
                    lemma_broken_off(before, Seq::empty(), whole);
                    assert(driver.log() =~= (before + Seq::empty()).push(BusEvent::Fault));
                }
                return Err(e);
            },
        }
        let ghost reset = seq![BusEvent::Reset { presence: true }];
        assert(driver.log() =~= before + reset);
        match driver.write_byte(COMMAND_ROM_READ) {
            Ok(()) => {},
            Err(e) => {
                proof {
                    let sent = writes(bits_of(COMMAND_ROM_READ));
                    let whole = answered_read(COMMAND_ROM_READ, nothing);
                    assert(whole.take((reset.len() + sent.len()) as int) =~= reset + sent);
                    lemma_broken_off_within(before, reset, driver.log(), sent, whole);
                }
                return Err(e);
            },
        }
        let ghost asked = reset + writes(bits_of(COMMAND_ROM_READ));
        assert(driver.log() =~= before + asked);
        let mut bytes = [0u8, 0u8, 0u8, 0u8, 0u8, 0u8, 0u8, 0u8];
        match driver.read_bytes(&mut bytes) {
            Ok(()) => {},
            Err(e) => {
                proof {
                    let missed = choose|missed: Seq<u8>|
                        missed.len() == 8 && broken_off(
                            before + asked,
                            driver.log(),
                            #[trigger] reads(bits_of_bytes(missed)),
                        );
                    let read = reads(bits_of_bytes(missed));
                    let whole = answered_read(COMMAND_ROM_READ, missed);
                    assert(whole.take((asked.len() + read.len()) as int) =~= asked + read);
                    lemma_broken_off_within(before, asked, driver.log(), read, whole);
                }
                return Err(e);
            },
        }
        assert(driver.log() =~= before + answered_read(COMMAND_ROM_READ, bytes@));
        match Rom::from_bytes(bytes) {
            Ok(rom) => Ok(rom),
            Err(e) => Err(e),
        }
    }
}

/// What was read back after an opcode determines the bytes that were read.
proof fn lemma_answers_determine(opcode: u8, first: Seq<u8>, second: Seq<u8>)
    requires
        first.len() == second.len(),
        answered_read(opcode, first) == answered_read(opcode, second),
    ensures
        first == second,
{
    let head = seq![BusEvent::Reset { presence: true }] + writes(bits_of(opcode));
    let a = reads(bits_of_bytes(first));
    let b = reads(bits_of_bytes(second));
    assert(a =~= answered_read(opcode, first).skip(head.len() as int));
    assert(b =~= answered_read(opcode, second).skip(head.len() as int));
    assert forall|i: int| 0 <= i < a.len() implies bits_of_bytes(first)[i] == bits_of_bytes(
        second,
    )[i] by {
        assert(a[i] == BusEvent::Read(bits_of_bytes(first)[i]));
        assert(b[i] == BusEvent::Read(bits_of_bytes(second)[i]));
    }
    assert(bits_of_bytes(first) =~= bits_of_bytes(second));
    lemma_bits_determine_bytes(first, second);
}

/// Read ROM returns the identifier exactly. When a device answered the
/// reset and eight bytes were read back, what the command yields is decided
/// by these bytes alone: the identifier made of exactly these bytes if they
/// check out, and the CRC mismatch if they do not.
pub proof fn lemma_rom_read_exact(
    before: Seq<BusEvent>,
    after: Seq<BusEvent>,
    output: Result<Rom, Error>,
    bytes: Seq<u8>,
)
    requires
        RomRead.effect(before, after, output),
        bytes.len() == 8,
        after == before + answered_read(COMMAND_ROM_READ, bytes),
    ensures
        match checked(bytes) {
            Ok(()) => output is Ok && output->Ok_0@ == bytes,
            Err(e) => output == Err::<Rom, Error>(e),
        },
{
    let answer = answered_read(COMMAND_ROM_READ, bytes);
    assert(answer.len() == 73);
    assert(after.last() == answer.last());
    assert(answer.last() is Read);
    match output {
        Ok(rom) => {
            let other = answered_read(COMMAND_ROM_READ, rom@);
            assert(other =~= after.skip(before.len() as int));
            assert(answer =~= after.skip(before.len() as int));
            lemma_answers_determine(COMMAND_ROM_READ, rom@, bytes);
        },
        Err(Error::Pin) => {
            let missed = choose|missed: Seq<u8>|
                missed.len() == 8 && broken_off(
                    before,
                    after,
                    #[trigger] answered_read(COMMAND_ROM_READ, missed),
                );
            lemma_broken_off_ends(before, after, answered_read(COMMAND_ROM_READ, missed));
        },
        Err(Error::NoAttachedDevices) => {},
        Err(e) => {
            let read = choose|read: Seq<u8>|
                {
                    &&& read.len() == 8
                    &&& after == before + #[trigger] answered_read(COMMAND_ROM_READ, read)
                    &&& checked(read) == Err::<(), Error>(e)
                };
            assert(answered_read(COMMAND_ROM_READ, read) =~= after.skip(before.len() as int));
            assert(answer =~= after.skip(before.len() as int));
            lemma_answers_determine(COMMAND_ROM_READ, read, bytes);
        },
    }
}

/// Without a device, Read ROM reports that none is attached: when the reset
/// found no presence and nothing was done after it, that error is what the
/// command yields.
pub proof fn lemma_rom_read_absent(
    before: Seq<BusEvent>,
    after: Seq<BusEvent>,
    output: Result<Rom, Error>,
)
    requires
        RomRead.effect(before, after, output),
        after == before.push(BusEvent::Reset { presence: false }),
    ensures
        output == Err::<Rom, Error>(Error::NoAttachedDevices),
{
    assert(after.len() == before.len() + 1);
    assert(after.last() == BusEvent::Reset { presence: false });
    match output {
        Ok(rom) => {
            assert(rom@.len() == 8);
            assert(answered_read(COMMAND_ROM_READ, rom@).len() == 73);
            assert(after.len() == before.len() + 73);
        },
        Err(Error::Pin) => {
            let missed = choose|missed: Seq<u8>|
                missed.len() == 8 && broken_off(
                    before,
                    after,
                    #[trigger] answered_read(COMMAND_ROM_READ, missed),
                );
            lemma_broken_off_ends(before, after, answered_read(COMMAND_ROM_READ, missed));
        },
        Err(Error::NoAttachedDevices) => {},
        Err(e) => {
            let read = choose|read: Seq<u8>|
                {
                    &&& read.len() == 8
                    &&& after == before + #[trigger] answered_read(COMMAND_ROM_READ, read)
                    &&& checked(read) == Err::<(), Error>(e)
                };
            assert(answered_read(COMMAND_ROM_READ, read).len() == 73);
            assert(after.len() == before.len() + 73);
        },
    }
}

/// Match ROM command.
///
/// Followed by the 64-bit identifier, it addresses one device on a bus with
/// several: only the device whose identifier matches bit for bit answers what
/// comes next, all others wait for a reset.
#[derive(Clone, Copy, Debug)]
pub struct RomMatch {
    pub rom: Rom,
}

impl Command for RomMatch {
    type Output = Result<(), Error>;

    /// The opcode goes out, then the eight identifier bytes in wire order;
    /// a fault of the pin breaks that off.
    open spec fn effect(
        &self,
        before: Seq<BusEvent>,
        after: Seq<BusEvent>,
        output: Result<(), Error>,
    ) -> bool {
        let run = writes(bits_of(COMMAND_ROM_MATCH)) + writes(bits_of_bytes(self.rom@));
        match output {
            Ok(()) => after == before + run,
            Err(e) => e == Error::Pin && broken_off(before, after, run),
        }
    }

    fn execute<P: Pin, D: Delay>(&self, driver: &mut OneWireDriver<P, D>) -> (output: Result<
        (),
        Error,
    >) {
        let ghost before = driver.log();
        let ghost opcode = writes(bits_of(COMMAND_ROM_MATCH));
        let ghost address = writes(bits_of_bytes(self.rom@));
        match driver.write_byte(COMMAND_ROM_MATCH) {
            Ok(()) => {},
            Err(e) => {
                proof {
                    assert(before + Seq::empty() =~= before);
                    assert((opcode + address).take(opcode.len() as int) =~= opcode);
                    assert(Seq::<BusEvent>::empty() + opcode =~= opcode);
                    lemma_broken_off_within(
                        before,
                        Seq::empty(),
                        driver.log(),
                        opcode,
                        opcode + address,
                    );
                }
                return Err(e);
            },
        }
        let bytes = self.rom.to_bytes();
        match driver.write_bytes(&bytes) {
            Ok(()) => {
                assert(driver.log() =~= before + (opcode + address));
                Ok(())
            },
            Err(e) => {
                proof {
                    let whole = opcode + address;
                    assert(whole.take(whole.len() as int) =~= whole);
                    lemma_broken_off_within(before, opcode, driver.log(), address, whole);
                }
                Err(e)
            },
        }
    }
}

/// Skip ROM command.
///
/// Addresses every device on the bus at once, without sending an identifier.
#[derive(Clone, Copy, Debug, Default)]
pub struct RomSkip;

impl Command for RomSkip {
    type Output = Result<(), Error>;

    /// The opcode goes out, and nothing else; a fault of the pin breaks
    /// that off.
    open spec fn effect(
        &self,
        before: Seq<BusEvent>,
        after: Seq<BusEvent>,
        output: Result<(), Error>,
    ) -> bool {
        match output {
            Ok(()) => after == before + writes(bits_of(COMMAND_ROM_SKIP)),
            Err(e) => e == Error::Pin && broken_off(
                before,
                after,
                writes(bits_of(COMMAND_ROM_SKIP)),
            ),
        }
    }

    fn execute<P: Pin, D: Delay>(&self, driver: &mut OneWireDriver<P, D>) -> (output: Result<
        (),
        Error,
    >) {
        driver.write_byte(COMMAND_ROM_SKIP)
    }
}

/// What a pass yields, given what it found: the identifier, if the pass
/// came through and the 64 bits it put together check out; otherwise the
/// error of the pass, or the CRC mismatch of the bits.
pub open spec fn identified(found: Result<Progress, Error>, output: Result<Rom, Error>) -> bool {
    match found {
        Err(e) => output == Err::<Rom, Error>(e),
        Ok(progress) => match Rom::parse(progress.code) {
            Ok(code) => output is Ok && output->Ok_0.code() == code && output->Ok_0.valid(),
            Err(e) => output == Err::<Rom, Error>(e),
        },
    }
}

/// Runs one pass over the 64 bit positions, steered by `pending` and opened
/// with `opcode`.
fn pass<P: Pin, D: Delay>(
    pending: u64,
    opcode: u8,
    driver: &mut OneWireDriver<P, D>,
) -> (result: Result<Progress, Error>)
    ensures
        exists|seen: Observation| #[trigger]
            passed(pending, opcode, old(driver).log(), final(driver).log(), seen) && result
                == found(pending, seen),
        old(driver).in_slots() ==> final(driver).in_slots(),
{
    let ghost before = driver.log();
    match driver.reset() {
        Ok(true) => {},
        Ok(false) => {
            assert(passed(pending, opcode, before, driver.log(), Observation::Absent));
            return Err(Error::NoAttachedDevices);
        },
        Err(e) => {
            proof {
                let first = seq![(true, false)];
                let whole = called(opcode) + exchange(pending, first, 1);
                assert(whole.take(0) =~= Seq::empty());
                lemma_broken_off(before, Seq::empty(), whole);
                assert(driver.log() =~= (before + Seq::empty()).push(BusEvent::Fault));
                assert(reachable(pending, first));
                assert(passed(pending, opcode, before, driver.log(), Observation::Faulted));
            }
            return Err(e);
        },
    }
    let ghost reset = seq![BusEvent::Reset { presence: true }];
    assert(driver.log() =~= before + reset);
    match driver.write_byte(opcode) {
        Ok(()) => {},
        Err(e) => {
            proof {
                let first = seq![(true, false)];
                let sent = writes(bits_of(opcode));
                let whole = called(opcode) + exchange(pending, first, 1);
                assert(whole.take((reset.len() + sent.len()) as int) =~= reset + sent);
                lemma_broken_off_within(before, reset, driver.log(), sent, whole);
                assert(reachable(pending, first));
                assert(passed(pending, opcode, before, driver.log(), Observation::Faulted));
            }
            return Err(e);
        },
    }
    let ghost mut pairs: Seq<(bool, bool)> = Seq::empty();
    let mut progress = Progress { code: 0, pending: 0 };
    let mut index: u32 = 0;
    assert(driver.log() =~= before + called(opcode) + exchange(pending, pairs, 0));
    while index < POSITIONS
        invariant
            index <= 64,
            POSITIONS == 64,
            before == old(driver).log(),
            old(driver).in_slots() ==> driver.in_slots(),
            pairs.len() == index,
            resolve(pending, pairs, index as nat) == Some(progress),
            driver.log() == before + called(opcode) + exchange(pending, pairs, index as nat),
        decreases 64 - index,
    {
        let ghost so_far = called(opcode) + exchange(pending, pairs, index as nat);
        assert(driver.log() =~= before + so_far);
        let value = match driver.read_bit() {
            Ok(value) => value,
            Err(e) => {
                proof {
                    lemma_broken_pass(pending, opcode, before, pairs, (true, false), 0);
                    let reads = seq![BusEvent::Read(true), BusEvent::Read(false)];
                    assert(so_far + reads.take(0) =~= so_far);
                    assert(driver.log() =~= (before + (so_far + reads.take(0))).push(
                        BusEvent::Fault,
                    ));
                    assert(passed(pending, opcode, before, driver.log(), Observation::Faulted));
                }
                return Err(e);
            },
        };
        let complement = match driver.read_bit() {
            Ok(complement) => complement,
            Err(e) => {
                proof {
                    lemma_broken_pass(pending, opcode, before, pairs, (value, !value), 1);
                    let reads = seq![BusEvent::Read(value), BusEvent::Read(!value)];
                    assert(so_far + reads.take(1) =~= so_far.push(BusEvent::Read(value)));
                    assert(driver.log() =~= (before + (so_far + reads.take(1))).push(
                        BusEvent::Fault,
                    ));
                    assert(passed(pending, opcode, before, driver.log(), Observation::Faulted));
                }
                return Err(e);
            },
        };
        let ghost pair = (value, complement);
        let ghost heard = so_far + seq![BusEvent::Read(value), BusEvent::Read(complement)];
        assert(driver.log() =~= before + heard);
        proof {
            lemma_later_pairs(pending, pairs, pair, index as nat);
            assert(pairs.push(pair)[index as int] == pair);
        }
        match step(pending, progress, index, value, complement) {
            None => {
                proof {
                    let all = pairs.push(pair);
                    assert(exchange(pending, all, (index + 1) as nat) =~= exchange(
                        pending,
                        pairs,
                        index as nat,
                    ) + seq![BusEvent::Read(value), BusEvent::Read(complement)]);
                    assert(driver.log() =~= before + called(opcode) + exchange(
                        pending,
                        all,
                        all.len(),
                    ));
                    assert(resolve(pending, all, (index + 1) as nat) is None);
                    assert(complete(pending, all));
                    assert(passed(pending, opcode, before, driver.log(), Observation::Pairs(all)));
                }
                return Err(Error::NoAttachedDevices);
            },
            Some((taken, next)) => {
                match driver.write_bit(taken) {
                    Ok(()) => {},
                    Err(e) => {
                        proof {
                            lemma_broken_pass(pending, opcode, before, pairs, pair, 2);
                            let reads = seq![BusEvent::Read(value), BusEvent::Read(complement)];
                            assert(reads.take(2) =~= reads);
                            assert(driver.log() =~= (before + (so_far + reads.take(2))).push(
                                BusEvent::Fault,
                            ));
                            assert(passed(
                                pending,
                                opcode,
                                before,
                                driver.log(),
                                Observation::Faulted,
                            ));
                        }
                        return Err(e);
                    },
                }
                proof {
                    let all = pairs.push(pair);
                    assert(exchange(pending, all, (index + 1) as nat) =~= heard.skip(
                        called(opcode).len() as int,
                    ).push(BusEvent::Write(taken)));
                    assert(driver.log() =~= before + called(opcode) + exchange(
                        pending,
                        all,
                        (index + 1) as nat,
                    ));
                    pairs = all;
                }
                progress = next;
            },
        }
        index += 1;
    }
    proof {
        assert(resolve(pending, pairs, 63) is Some);
        assert(complete(pending, pairs));
        assert(passed(pending, opcode, before, driver.log(), Observation::Pairs(pairs)));
    }
    Ok(progress)
}

/// A fault in the middle of a position is a pass broken off. After `pairs`
/// were read and answered, `heard` operations of the next position went
/// through: none, the read of the bit, or the reads of the bit and of its
/// complement, as `pair` has them; the fault came in place of the next.
proof fn lemma_broken_pass(
    pending: u64,
    opcode: u8,
    before: Seq<BusEvent>,
    pairs: Seq<(bool, bool)>,
    pair: (bool, bool),
    heard: int,
)
    requires
        pairs.len() < 64,
        resolve(pending, pairs, pairs.len()) is Some,
        direction(pending, pairs.len() as u32, pair) is Some,
        0 <= heard <= 2,
    ensures
        reachable(pending, pairs.push(pair)),
        broken_off(
            before,
            (before + (called(opcode) + exchange(pending, pairs, pairs.len()) + seq![
                BusEvent::Read(pair.0),
                BusEvent::Read(pair.1),
            ].take(heard))).push(BusEvent::Fault),
            called(opcode) + exchange(pending, pairs.push(pair), pairs.len() + 1),
        ),
{
    let all = pairs.push(pair);
    let count = pairs.len();
    lemma_later_pairs(pending, pairs, pair, count);
    assert(all[count as int] == pair);
    let so_far = called(opcode) + exchange(pending, pairs, count);
    let reads = seq![BusEvent::Read(pair.0), BusEvent::Read(pair.1)];
    let taken = direction(pending, count as u32, pair)->Some_0;
    let whole = called(opcode) + exchange(pending, all, count + 1);
    assert(whole =~= so_far + reads.push(BusEvent::Write(taken)));
    let first = so_far + reads.take(heard);
    assert(whole.take(first.len() as int) =~= first);
    lemma_broken_off(before, first, whole);
}

/// Search ROM command, and the cursor of an enumeration.
///
/// A pass of the search finds the identifier of one device among any number
/// on the bus. The cursor holds what steers the next pass: one bit per
/// position, set where the last pass met devices that disagreed and went on
/// with those that have a zero there. Every pass is a transaction of its own,
/// from reset to the last bit, and the whole enumeration can be started over
/// with a new cursor at any time.
///
/// Executed as a command, the cursor steers the pass and stays as it is;
/// [`RomSearch::search`] also moves it on.
#[derive(Clone, Copy, Debug)]
pub struct RomSearch {
    conflicts: u64,
    exhausted: bool,
}

impl Default for RomSearch {
    fn default() -> (cursor: RomSearch)
        ensures
            cursor.pending() == 0,
            !cursor.exhausted(),
    {
        RomSearch { conflicts: 0, exhausted: false }
    }
}

impl Command for RomSearch {
    type Output = Result<Rom, Error>;

    /// One pass is run with the search opcode, steered by what the cursor
    /// holds as pending, and what it finds is yielded as an identifier.
    open spec fn effect(
        &self,
        before: Seq<BusEvent>,
        after: Seq<BusEvent>,
        output: Result<Rom, Error>,
    ) -> bool {
        exists|seen: Observation| #[trigger]
            passed(self.pending(), COMMAND_ROM_SEARCH, before, after, seen) && identified(
                found(self.pending(), seen),
                output,
            )
    }

    fn execute<P: Pin, D: Delay>(&self, driver: &mut OneWireDriver<P, D>) -> (output: Result<
        Rom,
        Error,
    >) {
        match pass(self.conflicts, COMMAND_ROM_SEARCH, driver) {
            Ok(progress) => Rom::from_u64(progress.code),
            Err(e) => Err(e),
        }
    }
}

impl RomSearch {
    /// The positions at which the last pass left a branch to explore.
    pub closed spec fn pending(&self) -> u64 {
        self.conflicts
    }

    /// Whether the last pass left no branch to explore: every device has
    /// been found.
    pub closed spec fn exhausted(&self) -> bool {
        self.exhausted
    }

    /// How a pass moves the cursor on: when it yields an identifier, the
    /// cursor holds what that pass left pending, and is exhausted when that
    /// is nothing; when it fails, the cursor stays where it was.
    pub open spec fn moved(
        before: RomSearch,
        after: RomSearch,
        found: Result<Progress, Error>,
        output: Result<Rom, Error>,
    ) -> bool {
        match output {
            Ok(_) => {
                &&& found is Ok
                &&& after.pending() == found->Ok_0.pending
                &&& after.exhausted() == (found->Ok_0.pending == 0)
            },
            Err(_) => after == before,
        }
    }

    /// What [`RomSearch::search`] does when the bus is observed to do
    /// `seen`: the pass of the command, and the cursor moved on by it.
    pub open spec fn observed(
        cursor: RomSearch,
        next: RomSearch,
        before: Seq<BusEvent>,
        after: Seq<BusEvent>,
        output: Result<Rom, Error>,
        seen: Observation,
    ) -> bool {
        &&& passed(cursor.pending(), COMMAND_ROM_SEARCH, before, after, seen)
        &&& identified(found(cursor.pending(), seen), output)
        &&& RomSearch::moved(cursor, next, found(cursor.pending(), seen), output)
    }

    /// What [`RomSearch::search`] does, whatever the bus does.
    pub open spec fn searched(
        cursor: RomSearch,
        next: RomSearch,
        before: Seq<BusEvent>,
        after: Seq<BusEvent>,
        output: Result<Rom, Error>,
    ) -> bool {
        exists|seen: Observation| #[trigger]
            RomSearch::observed(cursor, next, before, after, output, seen)
    }

    /// A cursor at the start of an enumeration: nothing is pending.
    pub fn new() -> (cursor: RomSearch)
        ensures
            cursor.pending() == 0,
            !cursor.exhausted(),
    {
        RomSearch { conflicts: 0, exhausted: false }
    }

    /// Whether the enumeration has found every device.
    pub fn is_exhausted(&self) -> (exhausted: bool)
        ensures
            exhausted == self.exhausted(),
    {
        self.exhausted
    }

    /// Runs the next pass of the enumeration and yields the identifier it
    /// finds.
    ///
    /// On a cursor that is exhausted the pass starts the enumeration over.
    pub fn search<P: Pin, D: Delay>(
        &mut self,
        driver: &mut OneWireDriver<P, D>,
    ) -> (output: Result<Rom, Error>)
        ensures
            RomSearch::searched(
                *old(self),
                *final(self),
                old(driver).log(),
                final(driver).log(),
                output,
            ),
            old(driver).in_slots() ==> final(driver).in_slots(),
    {
        let ghost before = driver.log();
        let ghost cursor = *self;
        let passed_as = pass(self.conflicts, COMMAND_ROM_SEARCH, driver);
        let ghost seen = choose|seen: Observation| #[trigger]
            passed(cursor.pending(), COMMAND_ROM_SEARCH, before, driver.log(), seen) && passed_as
                == found(cursor.pending(), seen);
        let progress = match passed_as {
            Ok(progress) => progress,
            Err(e) => {
                assert(RomSearch::observed(cursor, *self, before, driver.log(), Err(e), seen));
                return Err(e);
            },
        };
        match Rom::from_u64(progress.code) {
            Ok(rom) => {
                self.conflicts = progress.pending;
                self.exhausted = progress.pending == 0;
                assert(RomSearch::observed(cursor, *self, before, driver.log(), Ok(rom), seen));
                Ok(rom)
            },
            Err(e) => {
                assert(RomSearch::observed(cursor, *self, before, driver.log(), Err(e), seen));
                Err(e)
            },
        }
    }

    /// The next identifier of the enumeration, or `None`, with the bus left
    /// alone, when every device has been found.
    pub fn next<P: Pin, D: Delay>(
        &mut self,
        driver: &mut OneWireDriver<P, D>,
    ) -> (output: Option<Result<Rom, Error>>)
        ensures
            match output {
                None => {
                    &&& old(self).exhausted()
                    &&& *final(self) == *old(self)
                    &&& final(driver).log() == old(driver).log()
                },
                Some(found) => {
                    &&& !old(self).exhausted()
                    &&& RomSearch::searched(
                        *old(self),
                        *final(self),
                        old(driver).log(),
                        final(driver).log(),
                        found,
                    )
                },
            },
            old(driver).in_slots() ==> final(driver).in_slots(),
    {
        if self.exhausted {
            None
        } else {
            Some(self.search(driver))
        }
    }

    /// Enumerates the devices on the bus: runs pass after pass from a new
    /// cursor until every device has been found or `limit` identifiers are
    /// there, and yields them in the order they were found.
    ///
    /// The first pass that fails ends the enumeration with its error.
    pub fn enumerate<P: Pin, D: Delay>(
        driver: &mut OneWireDriver<P, D>,
        limit: usize,
    ) -> (output: Result<Vec<Rom>, Error>)
        ensures
            enumerated(
                limit as nat,
                old(driver).log(),
                final(driver).log(),
                match output {
                    Ok(roms) => Ok(codes(roms@)),
                    Err(e) => Err(e),
                },
            ),
            old(driver).in_slots() ==> final(driver).in_slots(),
    {
        let ghost before = driver.log();
        let ghost mut rounds: Seq<Observation> = Seq::empty();
        let ghost mut marks: Seq<Seq<BusEvent>> = seq![before];
        let mut cursor = RomSearch::new();
        let mut roms: Vec<Rom> = Vec::new();
        assert(codes(roms@) =~= Seq::<u64>::empty());
        while roms.len() < limit && !cursor.is_exhausted()
            invariant
                before == old(driver).log(),
                old(driver).in_slots() ==> driver.in_slots(),
                rounds.len() == roms.len() <= limit,
                marks.len() == rounds.len() + 1,
                marks[0] == before,
                marks.last() == driver.log(),
                survey(rounds, rounds.len()) == (Survey {
                    pending: cursor.pending(),
                    exhausted: cursor.exhausted(),
                    codes: codes(roms@),
                    failure: None,
                }),
                forall|k: int|
                    0 <= k < rounds.len() ==> {
                        &&& running(#[trigger] survey(rounds, k as nat))
                        &&& passed(
                            survey(rounds, k as nat).pending,
                            COMMAND_ROM_SEARCH,
                            marks[k],
                            marks[k + 1],
                            rounds[k],
                        )
                    },
            decreases limit - roms.len(),
        {
            let ghost start = driver.log();
            let ghost steered = cursor;
            let ghost listed = roms@;
            let result = cursor.search(driver);
            let ghost seen = choose|seen: Observation| #[trigger]
                RomSearch::observed(steered, cursor, start, driver.log(), result, seen);
            proof {
                let all = rounds.push(seen);
                let lines = marks.push(driver.log());
                assert forall|k: int| 0 <= k < all.len() implies {
                    &&& running(#[trigger] survey(all, k as nat))
                    &&& passed(
                        survey(all, k as nat).pending,
                        COMMAND_ROM_SEARCH,
                        lines[k],
                        lines[k + 1],
                        all[k],
                    )
                } by {
                    lemma_later_rounds(rounds, seen, k as nat);
                }
                lemma_later_rounds(rounds, seen, rounds.len());
                rounds = all;
                marks = lines;
            }
            match result {
                Ok(rom) => {
                    roms.push(rom);
                    assert(codes(roms@) =~= codes(listed).push(rom.code()));
                },
                Err(e) => {
                    proof {
                        assert(survey(rounds, rounds.len()).failure == Some(e));
                        assert(surveyed(rounds, marks, limit as nat, before, driver.log()));
                    }
                    return Err(e);
                },
            }
        }
        proof {
            assert(surveyed(rounds, marks, limit as nat, before, driver.log()));
        }
        Ok(roms)
    }
}

/// The identifiers of a list as 64-bit values.
pub open spec fn codes(roms: Seq<Rom>) -> Seq<u64> {
    Seq::new(roms.len(), |i: int| roms[i].code())
}

/// Alarm search command: the search, answered only by the devices whose
/// alarm is set.
///
/// Executed as a command it runs the first pass of an enumeration among
/// those devices.
#[derive(Clone, Copy, Debug)]
pub struct AlarmSearch;

impl Command for AlarmSearch {
    type Output = Result<Rom, Error>;

    /// One pass is run with the alarm search opcode, with nothing pending,
    /// and what it finds is yielded as an identifier.
    open spec fn effect(
        &self,
        before: Seq<BusEvent>,
        after: Seq<BusEvent>,
        output: Result<Rom, Error>,
    ) -> bool {
        exists|seen: Observation| #[trigger]
            passed(0, COMMAND_ALARM_SEARCH, before, after, seen) && identified(
                found(0, seen),
                output,
            )
    }

    fn execute<P: Pin, D: Delay>(&self, driver: &mut OneWireDriver<P, D>) -> (output: Result<
        Rom,
        Error,
    >) {
        match pass(0, COMMAND_ALARM_SEARCH, driver) {
            Ok(progress) => Rom::from_u64(progress.code),
            Err(e) => Err(e),
        }
    }
}

} // verus!
