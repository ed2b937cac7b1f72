//! The bit and byte transport: the only part of the driver that touches real
//! time and the physical line.

use crate::bits::{
    bit_of, bits_of, bits_of_bytes, lemma_bits_of_bytes_push, lemma_bits_of_bytes_take,
    lemma_set_bit,
};
use crate::error::Error;
use crate::line::{Delay, Line, LineEvent, Pin};
use vstd::prelude::*;

verus! {

/// How long the line is held low to reset the bus.
pub const RESET_LOW_MICROS: u32 = 480;

/// How long after the release of a reset pulse the presence of devices is
/// sampled.
pub const PRESENCE_SAMPLE_MICROS: u32 = 70;

/// How long the master waits after sampling presence before the first slot.
pub const RESET_RECOVERY_MICROS: u32 = 410;

/// The low pulse that opens a read slot or a slot that writes a one.
pub const SLOT_START_MICROS: u32 = 6;

/// The rest of a slot that writes a one, line released.
pub const WRITE_ONE_REST_MICROS: u32 = 64;

/// How long the line is held low to write a zero.
pub const WRITE_ZERO_LOW_MICROS: u32 = 60;

/// The recovery time after a zero was written.
pub const WRITE_ZERO_RECOVERY_MICROS: u32 = 10;

/// How long after the opening pulse of a read slot the line is sampled.
pub const READ_SAMPLE_MICROS: u32 = 9;

/// The rest of a read slot after the line was sampled.
pub const READ_REST_MICROS: u32 = 55;

/// The length of every time slot, whatever it transfers.
pub const SLOT_DURATION_MICROS: u32 = 70;

/// One operation of the transport.
#[derive(Clone, Copy, Debug, PartialEq, Eq, Structural)]
pub enum BusEvent {
    /// A reset pulse, and whether a device answered it.
    Reset { presence: bool },
    /// A bit sent in a write slot.
    Write(bool),
    /// A bit received in a read slot.
    Read(bool),
    /// A pause of this many microseconds with no bus activity.
    Wait(u32),
    /// An operation given up because the pin failed.
    Fault,
}

/// What a reset does on the line, given the level found in the
/// presence-detect window.
pub open spec fn reset_slot(level: bool) -> Seq<LineEvent> {
    seq![
        LineEvent::Low,
        LineEvent::Delay(RESET_LOW_MICROS),
        LineEvent::Released,
        LineEvent::Delay(PRESENCE_SAMPLE_MICROS),
        LineEvent::Sample(level),
        LineEvent::Delay(RESET_RECOVERY_MICROS),
    ]
}

/// What a write slot does on the line: a short low pulse for a one, a low
/// pulse that fills the slot for a zero.
pub open spec fn write_slot(bit: bool) -> Seq<LineEvent> {
    if bit {
        seq![
            LineEvent::Low,
            LineEvent::Delay(SLOT_START_MICROS),
            LineEvent::Released,
            LineEvent::Delay(WRITE_ONE_REST_MICROS),
        ]
    } else {
        seq![
            LineEvent::Low,
            LineEvent::Delay(WRITE_ZERO_LOW_MICROS),
            LineEvent::Released,
            LineEvent::Delay(WRITE_ZERO_RECOVERY_MICROS),
        ]
    }
}

/// What a read slot does on the line, given the level that was sampled.
pub open spec fn read_slot(level: bool) -> Seq<LineEvent> {
    seq![
        LineEvent::Low,
        LineEvent::Delay(SLOT_START_MICROS),
        LineEvent::Released,
        LineEvent::Delay(READ_SAMPLE_MICROS),
        LineEvent::Sample(level),
        LineEvent::Delay(READ_REST_MICROS),
    ]
}

/// The time a stretch of line activity takes: the sum of its delays.
pub open spec fn duration(events: Seq<LineEvent>) -> nat
    decreases events.len(),
{
    if events.len() == 0 {
        0
    } else {
        duration(events.drop_last()) + match events.last() {
            LineEvent::Delay(micros) => micros as nat,
            _ => 0,
        }
    }
}

/// Every time slot takes the same time, whatever it transfers, and a reset
/// takes its 960 microseconds.
pub proof fn lemma_slot_durations(bit: bool)
    ensures
        duration(write_slot(bit)) == SLOT_DURATION_MICROS,
        duration(read_slot(bit)) == SLOT_DURATION_MICROS,
        duration(reset_slot(bit)) == 960,
{
    reveal_with_fuel(duration, 7);
    let written = write_slot(bit);
    assert(written.drop_last().drop_last().drop_last().drop_last() =~= Seq::empty());
    let read = read_slot(bit);
    assert(read.drop_last().drop_last().drop_last().drop_last().drop_last().drop_last()
        =~= Seq::empty());
    let reset = reset_slot(bit);
    assert(reset.drop_last().drop_last().drop_last().drop_last().drop_last().drop_last()
        =~= Seq::empty());
}

/// What a transport operation does on the line.
pub open spec fn wire(event: BusEvent) -> Seq<LineEvent> {
    match event {
        BusEvent::Reset { presence } => reset_slot(!presence),
        BusEvent::Write(bit) => write_slot(bit),
        BusEvent::Read(bit) => read_slot(bit),
        BusEvent::Wait(micros) => seq![LineEvent::Delay(micros)],
        BusEvent::Fault => seq![LineEvent::Fault],
    }
}

/// What a run of transport operations does on the line: what each of them
/// does, one after the other, with nothing between.
pub open spec fn wired(events: Seq<BusEvent>) -> Seq<LineEvent>
    decreases events.len(),
{
    if events.len() == 0 {
        Seq::empty()
    } else {
        wired(events.drop_last()) + wire(events.last())
    }
}

/// One more transport operation adds what it does on the line.
pub proof fn lemma_wired_push(events: Seq<BusEvent>, event: BusEvent)
    ensures
        wired(events.push(event)) == wired(events) + wire(event),
{
    assert(events.push(event).drop_last() =~= events);
}

/// What two runs of transport operations do on the line, one after the
/// other, is what the first does followed by what the second does.
pub proof fn lemma_wired_joined(first: Seq<BusEvent>, second: Seq<BusEvent>)
    ensures
        wired(first + second) == wired(first) + wired(second),
    decreases second.len(),
{
    if second.len() == 0 {
        assert(first + second =~= first);
        assert(wired(first) + wired(second) =~= wired(first));
    } else {
        lemma_wired_joined(first, second.drop_last());
        assert((first + second).drop_last() =~= first + second.drop_last());
        assert(wired(first + second) =~= wired(first) + wired(second));
    }
}

/// The bits of `bits`, each sent in a write slot.
pub open spec fn writes(bits: Seq<bool>) -> Seq<BusEvent> {
    Seq::new(bits.len(), |i: int| BusEvent::Write(bits[i]))
}

/// The bits of `bits`, each received in a read slot.
pub open spec fn reads(bits: Seq<bool>) -> Seq<BusEvent> {
    Seq::new(bits.len(), |i: int| BusEvent::Read(bits[i]))
}

/// What comes back on the line when every bit sent is played back in a read
/// slot.
pub open spec fn played_back(sent: Seq<BusEvent>) -> Seq<BusEvent> {
    Seq::new(sent.len(), |i: int| BusEvent::Read(sent[i] == BusEvent::Write(true)))
}

/// A byte that is written and played back is read as the byte it was, bit
/// for bit, least significant bit first.
pub proof fn lemma_loopback(sent: u8, received: u8)
    requires
        reads(bits_of(received)) == played_back(writes(bits_of(sent))),
    ensures
        received == sent,
{
    assert forall|i: int| 0 <= i < 8 implies bits_of(received)[i] == bits_of(sent)[i] by {
        assert(reads(bits_of(received))[i] == BusEvent::Read(bits_of(received)[i]));
        assert(writes(bits_of(sent))[i] == BusEvent::Write(bits_of(sent)[i]));
        assert(played_back(writes(bits_of(sent)))[i] == BusEvent::Read(bits_of(sent)[i]));
    }
    assert(bits_of(received) =~= bits_of(sent));
    crate::bits::lemma_bits_determine_byte(received, sent);
}

/// The record `after` a run of transport operations that the pin broke off:
/// of the operations `planned`, the first few were performed, and in place
/// of the next stands the fault. Nothing was done after it.
pub open spec fn broken_off(
    before: Seq<BusEvent>,
    after: Seq<BusEvent>,
    planned: Seq<BusEvent>,
) -> bool {
    exists|done: int|
        0 <= done < planned.len() && after == (before + #[trigger] planned.take(done)).push(
            BusEvent::Fault,
        )
}

/// The line record `after` a slot that the pin broke off: of what the slot
/// does on the line, everything up to an operation of the pin was done, and
/// that operation failed.
pub open spec fn interrupted(
    before: Seq<LineEvent>,
    after: Seq<LineEvent>,
    slot: Seq<LineEvent>,
) -> bool {
    exists|done: int|
        0 <= done < slot.len() && !(slot[done] is Delay) && after == (before + #[trigger] slot.take(
            done,
        )).push(LineEvent::Fault)
}

/// A record broken off is longer than it was, starts as it did, and ends
/// with the fault.
pub proof fn lemma_broken_off_ends(
    before: Seq<BusEvent>,
    after: Seq<BusEvent>,
    planned: Seq<BusEvent>,
)
    requires
        broken_off(before, after, planned),
    ensures
        before.len() < after.len() <= before.len() + planned.len(),
        after.take(before.len() as int) == before,
        after.last() == BusEvent::Fault,
{
    let done = choose|done: int|
        0 <= done < planned.len() && after == (before + #[trigger] planned.take(done)).push(
            BusEvent::Fault,
        );
    assert(after.take(before.len() as int) =~= before);
}

/// A fault after the operations `first`, with more planned, is a run broken
/// off.
pub proof fn lemma_broken_off(before: Seq<BusEvent>, first: Seq<BusEvent>, whole: Seq<BusEvent>)
    requires
        first.len() < whole.len(),
        whole.take(first.len() as int) == first,
    ensures
        broken_off(before, (before + first).push(BusEvent::Fault), whole),
{
}

/// A run broken off in the middle of a longer run is the longer run broken
/// off: `first` was performed, then `planned` was broken off, and the two
/// are how `whole` starts.
pub proof fn lemma_broken_off_within(
    before: Seq<BusEvent>,
    first: Seq<BusEvent>,
    after: Seq<BusEvent>,
    planned: Seq<BusEvent>,
    whole: Seq<BusEvent>,
)
    requires
        broken_off(before + first, after, planned),
        first.len() + planned.len() <= whole.len(),
        whole.take((first.len() + planned.len()) as int) == first + planned,
    ensures
        broken_off(before, after, whole),
{
    let done = choose|done: int|
        0 <= done < planned.len() && after == (before + first + #[trigger] planned.take(done)).push(
            BusEvent::Fault,
        );
    let through = first.len() + done;
    assert(whole.take(through) =~= whole.take((first.len() + planned.len()) as int).take(through));
    assert((first + planned).take(through) =~= first + planned.take(done));
    assert(before + whole.take(through) =~= before + first + planned.take(done));
}

/// Whether `piece` is what the transport operation `event` did on the line:
/// its slot, or, for an operation that the pin broke off, a reset or a time
/// slot interrupted by the fault.
pub open spec fn performs(event: BusEvent, piece: Seq<LineEvent>) -> bool {
    match event {
        BusEvent::Fault => {
            ||| interrupted(Seq::empty(), piece, reset_slot(true))
            ||| interrupted(Seq::empty(), piece, read_slot(true))
            ||| interrupted(Seq::empty(), piece, write_slot(true))
            ||| interrupted(Seq::empty(), piece, write_slot(false))
        },
        _ => piece == wire(event),
    }
}

/// Pieces of line activity put one after the other.
pub open spec fn joined(pieces: Seq<Seq<LineEvent>>) -> Seq<LineEvent>
    decreases pieces.len(),
{
    if pieces.len() == 0 {
        Seq::empty()
    } else {
        joined(pieces.drop_last()) + pieces.last()
    }
}

/// The line record `signals` is the transport record `log` carried out slot
/// by slot: it falls into `pieces`, one for each transport operation and
/// each what that operation does on the line, with nothing before, between
/// or after them.
pub open spec fn slotted(
    log: Seq<BusEvent>,
    pieces: Seq<Seq<LineEvent>>,
    signals: Seq<LineEvent>,
) -> bool {
    &&& pieces.len() == log.len()
    &&& signals == joined(pieces)
    &&& forall|i: int| 0 <= i < log.len() ==> performs(#[trigger] log[i], pieces[i])
}

/// One more transport operation, carried out as one more piece of line
/// activity, keeps the line record in slots.
pub proof fn lemma_slotted_push(
    log: Seq<BusEvent>,
    pieces: Seq<Seq<LineEvent>>,
    signals: Seq<LineEvent>,
    event: BusEvent,
    piece: Seq<LineEvent>,
)
    requires
        slotted(log, pieces, signals),
        performs(event, piece),
    ensures
        slotted(log.push(event), pieces.push(piece), signals + piece),
{
    assert(pieces.push(piece).drop_last() =~= pieces);
}

/// The bus master's end of the wire.
///
/// It owns pin and delay for as long as it lives, so that no two operations
/// can ever interleave, and keeps a record of every transport operation it
/// performed.
pub struct OneWireDriver<P: Pin, D: Delay> {
    line: Line<P, D>,
    log: Ghost<Seq<BusEvent>>,
    pieces: Ghost<Seq<Seq<LineEvent>>>,
}

impl<P: Pin, D: Delay> OneWireDriver<P, D> {
    /// Every transport operation performed so far, oldest first.
    pub closed spec fn log(&self) -> Seq<BusEvent> {
        self.log@
    }

    /// Everything done on the line so far, oldest first.
    pub closed spec fn signals(&self) -> Seq<LineEvent> {
        self.line.history()
    }

    /// The line record in pieces, one for each transport operation.
    pub closed spec fn pieces(&self) -> Seq<Seq<LineEvent>> {
        self.pieces@
    }

    /// Everything that was ever done on the line was done slot by slot: the
    /// line record is nothing but the resets, the time slots and the waits
    /// of the transport record, each complete and with its standard timing,
    /// or broken off by a fault of the pin.
    pub open spec fn in_slots(&self) -> bool {
        slotted(self.log(), self.pieces(), self.signals())
    }

    /// The pin and the delay the driver owns.
    pub closed spec fn parts(&self) -> (P, D) {
        self.line.parts()
    }

    /// Takes pin and delay into exclusive ownership; nothing has been done
    /// with them yet.
    pub fn new(pin: P, delay: D) -> (driver: Self)
        ensures
            driver.parts() == (pin, delay),
            driver.log() == Seq::<BusEvent>::empty(),
            driver.signals() == Seq::<LineEvent>::empty(),
            driver.in_slots(),
    {
        OneWireDriver {
            line: Line::new(pin, delay),
            log: Ghost(Seq::empty()),
            pieces: Ghost(Seq::empty()),
        }
    }

    /// The pin, to look at.
    pub fn pin(&self) -> (pin: &P)
        ensures
            *pin == self.parts().0,
    {
        self.line.pin()
    }

    /// The delay, to look at.
    pub fn delay(&self) -> (delay: &D)
        ensures
            *delay == self.parts().1,
    {
        self.line.delay()
    }

    /// Gives pin and delay back.
    pub fn free(self) -> (parts: (P, D))
        ensures
            parts == self.parts(),
    {
        self.line.free()
    }

    /// Gives up the transport operation under way after a fault of the pin:
    /// `slot` is what the operation set out to do on the line, `started`
    /// the line record when it began.
    fn abandon<T>(
        &mut self,
        Ghost(started): Ghost<Seq<LineEvent>>,
        Ghost(slot): Ghost<Seq<LineEvent>>,
    ) -> (result: Result<T, Error>)
        requires
            interrupted(started, old(self).signals(), slot),
            slot == reset_slot(true) || slot == read_slot(true) || slot == write_slot(true) || slot
                == write_slot(false),
        ensures
            result == Err::<T, Error>(Error::Pin),
            final(self).log() == old(self).log().push(BusEvent::Fault),
            final(self).signals() == old(self).signals(),
            slotted(old(self).log(), old(self).pieces(), started) ==> final(self).in_slots(),
    {
        let ghost piece = self.signals().skip(started.len() as int);
        proof {
            let done = choose|done: int|
                0 <= done < slot.len() && !(slot[done] is Delay) && self.signals() == (started
                    + #[trigger] slot.take(done)).push(LineEvent::Fault);
            assert(piece =~= (Seq::empty() + slot.take(done)).push(LineEvent::Fault));
            assert(interrupted(Seq::empty(), piece, slot));
            assert(self.signals() =~= started + piece);
            if slotted(self.log(), self.pieces(), started) {
                lemma_slotted_push(self.log(), self.pieces(), started, BusEvent::Fault, piece);
            }
        }
        self.log = Ghost(self.log@.push(BusEvent::Fault));
        self.pieces = Ghost(self.pieces@.push(piece));
        Err(Error::Pin)
    }

    /// Records the transport operation `event`, which went through and did
    /// on the line what there is in the line record since `started`.
    fn finish(&mut self, Ghost(event): Ghost<BusEvent>, Ghost(started): Ghost<Seq<LineEvent>>)
        requires
            event !is Fault,
            old(self).signals() == started + wire(event),
        ensures
            final(self).log() == old(self).log().push(event),
            final(self).signals() == old(self).signals(),
            slotted(old(self).log(), old(self).pieces(), started) ==> final(self).in_slots(),
    {
        proof {
            if slotted(self.log(), self.pieces(), started) {
                lemma_slotted_push(self.log(), self.pieces(), started, event, wire(event));
            }
        }
        self.log = Ghost(self.log@.push(event));
        self.pieces = Ghost(self.pieces@.push(wire(event)));
    }

    /// Resets the bus: holds the line low for the reset time, lets go, and
    /// samples it in the presence-detect window.
    ///
    /// Answers whether at least one device pulled the line low to show that
    /// it is there.
    pub fn reset(&mut self) -> (result: Result<bool, Error>)
        ensures
            match result {
                Ok(presence) => {
                    &&& final(self).log() == old(self).log().push(BusEvent::Reset { presence })
                    &&& final(self).signals() == old(self).signals() + reset_slot(!presence)
                },
                Err(e) => {
                    &&& e == Error::Pin
                    &&& final(self).log() == old(self).log().push(BusEvent::Fault)
                    &&& interrupted(old(self).signals(), final(self).signals(), reset_slot(true))
                },
            },
            old(self).in_slots() ==> final(self).in_slots(),
    {
        let ghost before = self.signals();
        match self.line.pull_low() {
            Ok(()) => {},
            Err(_) => {
                proof {
                    let slot = reset_slot(true);
                    assert(self.signals() =~= (before + slot.take(0)).push(LineEvent::Fault));
                    assert(interrupted(before, self.signals(), slot));
                }
                return self.abandon(Ghost(before), Ghost(reset_slot(true)));
            },
        }
        self.line.pause(RESET_LOW_MICROS);
        match self.line.let_go() {
            Ok(()) => {},
            Err(_) => {
                proof {
                    let slot = reset_slot(true);
                    assert(self.signals() =~= (before + slot.take(2)).push(LineEvent::Fault));
                    assert(interrupted(before, self.signals(), slot));
                }
                return self.abandon(Ghost(before), Ghost(reset_slot(true)));
            },
        }
        self.line.pause(PRESENCE_SAMPLE_MICROS);
        let level = match self.line.sample() {
            Ok(level) => level,
            Err(_) => {
                proof {
                    let slot = reset_slot(true);
                    assert(self.signals() =~= (before + slot.take(4)).push(LineEvent::Fault));
                    assert(interrupted(before, self.signals(), slot));
                }
                return self.abandon(Ghost(before), Ghost(reset_slot(true)));
            },
        };
        self.line.pause(RESET_RECOVERY_MICROS);
        assert(self.signals() =~= before + reset_slot(level));
        self.finish(Ghost(BusEvent::Reset { presence: !level }), Ghost(before));
        Ok(!level)
    }

    /// Receives one bit: opens a read slot with a short low pulse and samples
    /// the line inside the slot.
    pub fn read_bit(&mut self) -> (result: Result<bool, Error>)
        ensures
            match result {
                Ok(bit) => {
                    &&& final(self).log() == old(self).log().push(BusEvent::Read(bit))
                    &&& final(self).signals() == old(self).signals() + read_slot(bit)
                },
                Err(e) => {
                    &&& e == Error::Pin
                    &&& final(self).log() == old(self).log().push(BusEvent::Fault)
                    &&& interrupted(old(self).signals(), final(self).signals(), read_slot(true))
                },
            },
            old(self).in_slots() ==> final(self).in_slots(),
    {
        let ghost before = self.signals();
        match self.line.pull_low() {
            Ok(()) => {},
            Err(_) => {
                proof {
                    let slot = read_slot(true);
                    assert(self.signals() =~= (before + slot.take(0)).push(LineEvent::Fault));
                    assert(interrupted(before, self.signals(), slot));
                }
                return self.abandon(Ghost(before), Ghost(read_slot(true)));
            },
        }
        self.line.pause(SLOT_START_MICROS);
        match self.line.let_go() {
            Ok(()) => {},
            Err(_) => {
                proof {
                    let slot = read_slot(true);
                    assert(self.signals() =~= (before + slot.take(2)).push(LineEvent::Fault));
                    assert(interrupted(before, self.signals(), slot));
                }
                return self.abandon(Ghost(before), Ghost(read_slot(true)));
            },
        }
        self.line.pause(READ_SAMPLE_MICROS);
        let level = match self.line.sample() {
            Ok(level) => level,
            Err(_) => {
                proof {
                    let slot = read_slot(true);
                    assert(self.signals() =~= (before + slot.take(4)).push(LineEvent::Fault));
                    assert(interrupted(before, self.signals(), slot));
                }
                return self.abandon(Ghost(before), Ghost(read_slot(true)));
            },
        };
        self.line.pause(READ_REST_MICROS);
        assert(self.signals() =~= before + read_slot(level));
        self.finish(Ghost(BusEvent::Read(level)), Ghost(before));
        Ok(level)
    }

    /// Sends one bit: a short low pulse for a one, a low pulse that fills the
    /// slot for a zero. Either way the slot takes its full time.
    pub fn write_bit(&mut self, bit: bool) -> (result: Result<(), Error>)
        ensures
            match result {
                Ok(()) => {
                    &&& final(self).log() == old(self).log().push(BusEvent::Write(bit))
                    &&& final(self).signals() == old(self).signals() + write_slot(bit)
                },
                Err(e) => {
                    &&& e == Error::Pin
                    &&& final(self).log() == old(self).log().push(BusEvent::Fault)
                    &&& interrupted(old(self).signals(), final(self).signals(), write_slot(bit))
                },
            },
            old(self).in_slots() ==> final(self).in_slots(),
    {
        let ghost before = self.signals();
        match self.line.pull_low() {
            Ok(()) => {},
            Err(_) => {
                proof {
                    let slot = write_slot(bit);
                    assert(self.signals() =~= (before + slot.take(0)).push(LineEvent::Fault));
                    assert(interrupted(before, self.signals(), slot));
                }
                return self.abandon(Ghost(before), Ghost(write_slot(bit)));
            },
        }
        self.line.pause(if bit { SLOT_START_MICROS } else { WRITE_ZERO_LOW_MICROS });
        match self.line.let_go() {
            Ok(()) => {},
            Err(_) => {
                proof {
                    let slot = write_slot(bit);
                    assert(self.signals() =~= (before + slot.take(2)).push(LineEvent::Fault));
                    assert(interrupted(before, self.signals(), slot));
                }
                return self.abandon(Ghost(before), Ghost(write_slot(bit)));
            },
        }
        self.line.pause(if bit { WRITE_ONE_REST_MICROS } else { WRITE_ZERO_RECOVERY_MICROS });
        assert(self.signals() =~= before + write_slot(bit));
        self.finish(Ghost(BusEvent::Write(bit)), Ghost(before));
        Ok(())
    }

    /// Blocks for `micros` microseconds with no activity on the bus.
    pub fn wait(&mut self, micros: u32)
        ensures
            final(self).log() == old(self).log().push(BusEvent::Wait(micros)),
            final(self).signals() == old(self).signals().push(LineEvent::Delay(micros)),
            old(self).in_slots() ==> final(self).in_slots(),
    {
        let ghost before = self.signals();
        self.line.pause(micros);
        assert(self.signals() =~= before + wire(BusEvent::Wait(micros)));
        self.finish(Ghost(BusEvent::Wait(micros)), Ghost(before));
    }

    /// Sends a byte, least significant bit first.
    pub fn write_byte(&mut self, byte: u8) -> (result: Result<(), Error>)
        ensures
            match result {
                Ok(()) => {
                    &&& final(self).log() == old(self).log() + writes(bits_of(byte))
                    &&& final(self).signals() == old(self).signals() + wired(
                        writes(bits_of(byte)),
                    )
                },
                Err(e) => e == Error::Pin && broken_off(
                    old(self).log(),
                    final(self).log(),
                    writes(bits_of(byte)),
                ),
            },
            old(self).in_slots() ==> final(self).in_slots(),
    {
        let ghost start = self.log();
        let ghost quiet = self.signals();
        let mut index: u32 = 0;
        assert(self.signals() =~= quiet + wired(writes(bits_of(byte).take(0))));
        while index < 8
            invariant
                index <= 8,
                old(self).in_slots() ==> self.in_slots(),
                start == old(self).log(),
                quiet == old(self).signals(),
                self.log() == start + writes(bits_of(byte).take(index as int)),
                self.signals() == quiet + wired(writes(bits_of(byte).take(index as int))),
            decreases 8 - index,
        {
            let bit = (byte >> index) & 1 == 1;
            let ghost sent = writes(bits_of(byte).take(index as int));
            match self.write_bit(bit) {
                Ok(()) => {},
                Err(e) => {
                    proof {
                        let planned = writes(bits_of(byte));
                        assert(planned.take(index as int) =~= sent);
                        lemma_broken_off(start, sent, planned);
                    }
                    return Err(e);
                },
            }
            proof {
                let all = writes(bits_of(byte).take(index + 1));
                assert(all =~= sent.push(BusEvent::Write(bit)));
                lemma_wired_push(sent, BusEvent::Write(bit));
                assert(self.log() =~= start + all);
                assert(self.signals() =~= quiet + wired(all));
            }
            index += 1;
        }
        assert(bits_of(byte).take(8) =~= bits_of(byte));
        Ok(())
    }

    /// Sends a run of bytes in order, each least significant bit first.
    pub fn write_bytes(&mut self, bytes: &[u8]) -> (result: Result<(), Error>)
        ensures
            match result {
                Ok(()) => {
                    &&& final(self).log() == old(self).log() + writes(bits_of_bytes(bytes@))
                    &&& final(self).signals() == old(self).signals() + wired(
                        writes(bits_of_bytes(bytes@)),
                    )
                },
                Err(e) => e == Error::Pin && broken_off(
                    old(self).log(),
                    final(self).log(),
                    writes(bits_of_bytes(bytes@)),
                ),
            },
            old(self).in_slots() ==> final(self).in_slots(),
    {
        let ghost start = self.log();
        let ghost quiet = self.signals();
        let mut index: usize = 0;
        proof {
            lemma_bits_of_bytes_push(Seq::empty(), 0);
            assert(bytes@.take(0) =~= Seq::<u8>::empty());
            assert(self.log() =~= start + writes(bits_of_bytes(bytes@.take(0))));
            assert(self.signals() =~= quiet + wired(writes(bits_of_bytes(bytes@.take(0)))));
        }
        while index < bytes.len()
            invariant
                index <= bytes.len(),
                old(self).in_slots() ==> self.in_slots(),
                start == old(self).log(),
                quiet == old(self).signals(),
                self.log() == start + writes(bits_of_bytes(bytes@.take(index as int))),
                self.signals() == quiet + wired(
                    writes(bits_of_bytes(bytes@.take(index as int))),
                ),
            decreases bytes.len() - index,
        {
            let ghost sent = writes(bits_of_bytes(bytes@.take(index as int)));
            match self.write_byte(bytes[index]) {
                Ok(()) => {},
                Err(e) => {
                    proof {
                        let byte = bytes@[index as int];
                        let whole = writes(bits_of_bytes(bytes@));
                        lemma_bits_of_bytes_push(bytes@.take(index as int), byte);
                        assert(bytes@.take(index + 1) =~= bytes@.take(index as int).push(byte));
                        lemma_bits_of_bytes_take(bytes@, index + 1);
                        assert(whole.take(8 * (index + 1)) =~= sent + writes(bits_of(byte)));
                        lemma_broken_off_within(
                            start,
                            sent,
                            self.log(),
                            writes(bits_of(byte)),
                            whole,
                        );
                    }
                    return Err(e);
                },
            }
            proof {
                let done = bytes@.take(index as int);
                let byte = bytes@[index as int];
                lemma_bits_of_bytes_push(done, byte);
                assert(bytes@.take(index + 1) =~= done.push(byte));
                let all = writes(bits_of_bytes(bytes@.take(index + 1)));
                assert(all =~= sent + writes(bits_of(byte)));
                lemma_wired_joined(sent, writes(bits_of(byte)));
                assert(self.log() =~= start + all);
                assert(self.signals() =~= quiet + wired(all));
            }
            index += 1;
        }
        assert(bytes@.take(bytes.len() as int) =~= bytes@);
        Ok(())
    }

    /// Receives a byte, least significant bit first.
    pub fn read_byte(&mut self) -> (result: Result<u8, Error>)
        ensures
            match result {
                Ok(byte) => {
                    &&& final(self).log() == old(self).log() + reads(bits_of(byte))
                    &&& final(self).signals() == old(self).signals() + wired(
                        reads(bits_of(byte)),
                    )
                },
                Err(e) => e == Error::Pin && exists|missed: u8|
                    broken_off(
                        old(self).log(),
                        final(self).log(),
                        #[trigger] reads(bits_of(missed)),
                    ),
            },
            old(self).in_slots() ==> final(self).in_slots(),
    {
        let ghost start = self.log();
        let ghost quiet = self.signals();
        let ghost mut bits: Seq<bool> = Seq::empty();
        let mut byte: u8 = 0;
        let mut index: u32 = 0;
        proof {
            assert forall|j: u32| j < 8 implies !bit_of(byte, j) by {
                lemma_set_bit(0, 0, j);
            }
            assert(self.log() =~= start + reads(bits));
            assert(self.signals() =~= quiet + wired(reads(bits)));
        }
        while index < 8
            invariant
                index <= 8,
                bits.len() == index,
                old(self).in_slots() ==> self.in_slots(),
                start == old(self).log(),
                quiet == old(self).signals(),
                self.log() == start + reads(bits),
                self.signals() == quiet + wired(reads(bits)),
                forall|j: u32| j < index ==> bit_of(byte, j) == bits[j as int],
                forall|j: u32| index <= j < 8 ==> !bit_of(byte, j),
            decreases 8 - index,
        {
            let ghost received = reads(bits);
            let ghost previous = byte;
            let bit = match self.read_bit() {
                Ok(bit) => bit,
                Err(e) => {
                    proof {
                        let planned = reads(bits_of(byte));
                        assert(planned.take(index as int) =~= received);
                        lemma_broken_off(start, received, planned);
                    }
                    return Err(e);
                },
            };
            if bit {
                byte = byte | (1u8 << index);
            }
            proof {
                bits = bits.push(bit);
                assert forall|j: u32| j < 8 implies bit_of(byte, j) == if j == index {
                    bit
                } else {
                    bit_of(previous, j)
                } by {
                    lemma_set_bit(previous, index, j);
                }
                assert(reads(bits) =~= received.push(BusEvent::Read(bit)));
                lemma_wired_push(received, BusEvent::Read(bit));
                assert(self.log() =~= start + reads(bits));
                assert(self.signals() =~= quiet + wired(reads(bits)));
            }
            index += 1;
        }
        assert(bits =~= bits_of(byte));
        Ok(byte)
    }

    /// Receives as many bytes as `buffer` holds, each least significant bit
    /// first, and stores them in order.
    pub fn read_bytes(&mut self, buffer: &mut [u8]) -> (result: Result<(), Error>)
        ensures
            final(buffer)@.len() == old(buffer)@.len(),
            match result {
                Ok(()) => {
                    &&& final(self).log() == old(self).log() + reads(bits_of_bytes(final(buffer)@))
                    &&& final(self).signals() == old(self).signals() + wired(
                        reads(bits_of_bytes(final(buffer)@)),
                    )
                },
                Err(e) => e == Error::Pin && exists|missed: Seq<u8>|
                    missed.len() == old(buffer)@.len() && broken_off(
                        old(self).log(),
                        final(self).log(),
                        #[trigger] reads(bits_of_bytes(missed)),
                    ),
            },
            old(self).in_slots() ==> final(self).in_slots(),
    {
        let ghost start = self.log();
        let ghost quiet = self.signals();
        let mut index: usize = 0;
        proof {
            lemma_bits_of_bytes_push(Seq::empty(), 0);
            assert(buffer@.take(0) =~= Seq::<u8>::empty());
            assert(self.log() =~= start + reads(bits_of_bytes(buffer@.take(0))));
            assert(self.signals() =~= quiet + wired(reads(bits_of_bytes(buffer@.take(0)))));
        }
        while index < buffer.len()
            invariant
                index <= buffer.len(),
                buffer@.len() == old(buffer)@.len(),
                old(self).in_slots() ==> self.in_slots(),
                start == old(self).log(),
                quiet == old(self).signals(),
                self.log() == start + reads(bits_of_bytes(buffer@.take(index as int))),
                self.signals() == quiet + wired(
                    reads(bits_of_bytes(buffer@.take(index as int))),
                ),
            decreases buffer.len() - index,
        {
            let ghost received = reads(bits_of_bytes(buffer@.take(index as int)));
            let ghost stored = buffer@.take(index as int);
            let byte = match self.read_byte() {
                Ok(byte) => byte,
                Err(e) => {
                    proof {
                        let byte = choose|missed: u8|
                            broken_off(
                                start + received,
                                self.log(),
                                #[trigger] reads(bits_of(missed)),
                            );
                        let missed = buffer@.update(index as int, byte);
                        let whole = reads(bits_of_bytes(missed));
                        lemma_bits_of_bytes_push(stored, byte);
                        assert(missed.take(index + 1) =~= stored.push(byte));
                        lemma_bits_of_bytes_take(missed, index + 1);
                        assert(whole.take(8 * (index + 1)) =~= received + reads(bits_of(byte)));
                        lemma_broken_off_within(
                            start,
                            received,
                            self.log(),
                            reads(bits_of(byte)),
                            whole,
                        );
                    }
                    return Err(e);
                },
            };
            buffer[index] = byte;
            proof {
                lemma_bits_of_bytes_push(stored, byte);
                assert(buffer@.take(index + 1) =~= stored.push(byte));
                let all = reads(bits_of_bytes(buffer@.take(index + 1)));
                assert(all =~= received + reads(bits_of(byte)));
                lemma_wired_joined(received, reads(bits_of(byte)));
                assert(self.log() =~= start + all);
                assert(self.signals() =~= quiet + wired(all));
            }
            index += 1;
        }
        assert(buffer@.take(buffer.len() as int) =~= buffer@);
        Ok(())
    }
}

} // verus!
