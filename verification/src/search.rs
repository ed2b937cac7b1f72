//! The decisions of the enumeration: which way to go at each of the 64 bit
//! positions of a pass, and what a pass has found when it is through.
//!
//! At every position the devices still taking part send their bit and then
//! its complement. The line being a wired AND, the master reads `(1, 0)` when
//! all of them have a one there, `(0, 1)` when all have a zero, `(0, 0)` when
//! they disagree, and `(1, 1)` when nobody is left. The master answers with
//! the bit it goes on with, and only the devices that have that bit stay in.
//!
//! Where the devices disagree the master has a choice. It takes the zero
//! branch first and remembers the position as pending; the next pass repeats
//! the choices up to the last pending position, takes the one branch there,
//! and zero branches after it. The pending positions are all the state there
//! is: one bit per position in a 64-bit mask.

use crate::bits::bits_of;
use crate::commands::rom::COMMAND_ROM_SEARCH;
use crate::driver::{broken_off, writes, BusEvent};
use crate::error::Error;
use vstd::prelude::*;

verus! {

/// The number of bit positions of an identifier.
pub const POSITIONS: u32 = 64;

/// Bit `index` of `code`, bit 0 being the first on the wire.
pub open spec fn bit(code: u64, index: u32) -> bool {
    (code >> index) & 1 == 1
}

/// `code` with bit `index` set if `set`, and as it is otherwise.
pub open spec fn with_bit(code: u64, index: u32, set: bool) -> u64 {
    if set {
        code | (1u64 << index)
    } else {
        code
    }
}

/// The branch to take where the devices disagree at `index`, given the
/// positions left pending by the pass before.
///
/// While a pending position lies further on, the earlier choice is repeated:
/// zero where this position is itself pending, one where it is not, for then
/// its zero branch is done with. At the last pending position the one branch
/// is due. Beyond it, and in a first pass, the zero branch is taken.
pub open spec fn branch(pending: u64, index: u32) -> bool {
    if (pending >> index) >> 1u32 != 0 {
        !bit(pending, index)
    } else {
        bit(pending, index)
    }
}

/// The bit the master goes on with at `index` after reading `pair`, the bit
/// and its complement; `None` when nobody answered.
pub open spec fn direction(pending: u64, index: u32, pair: (bool, bool)) -> Option<bool> {
    if pair.0 && pair.1 {
        None
    } else if !pair.0 && !pair.1 {
        Some(branch(pending, index))
    } else {
        Some(pair.0)
    }
}

/// What a pass has put together so far: the bits of the identifier, and the
/// positions at which it met a disagreement and took the zero branch.
#[derive(Clone, Copy, Debug, PartialEq, Eq, Structural)]
pub struct Progress {
    pub code: u64,
    pub pending: u64,
}

/// The progress after position `index`, where `pair` was read; `None` when
/// nobody answered.
pub open spec fn advance(
    pending: u64,
    progress: Progress,
    index: u32,
    pair: (bool, bool),
) -> Option<Progress> {
    match direction(pending, index, pair) {
        None => None,
        Some(taken) => Some(
            Progress {
                code: with_bit(progress.code, index, taken),
                pending: with_bit(progress.pending, index, !pair.0 && !pair.1 && !taken),
            },
        ),
    }
}

/// The progress of a pass after the first `count` positions, where `pairs`
/// were read; `None` when at one of them nobody answered.
pub open spec fn resolve(pending: u64, pairs: Seq<(bool, bool)>, count: nat) -> Option<Progress>
    decreases count,
{
    if count == 0 {
        Some(Progress { code: 0, pending: 0 })
    } else {
        match resolve(pending, pairs, (count - 1) as nat) {
            None => None,
            Some(progress) => advance(pending, progress, (count - 1) as u32, pairs[count - 1]),
        }
    }
}

/// The transport operations of the first `count` positions of a pass: at
/// each, two bits are read and the direction, if there is one, is written.
pub open spec fn exchange(pending: u64, pairs: Seq<(bool, bool)>, count: nat) -> Seq<BusEvent>
    decreases count,
{
    if count == 0 {
        Seq::empty()
    } else {
        let pair = pairs[count - 1];
        let heard = exchange(pending, pairs, (count - 1) as nat) + seq![
            BusEvent::Read(pair.0),
            BusEvent::Read(pair.1),
        ];
        match direction(pending, (count - 1) as u32, pair) {
            Some(taken) => heard.push(BusEvent::Write(taken)),
            None => heard,
        }
    }
}

/// `pairs` is what a pass may come to read: at most one pair for each
/// position, and every pair but the last was answered.
pub open spec fn reachable(pending: u64, pairs: Seq<(bool, bool)>) -> bool {
    &&& 1 <= pairs.len() <= 64
    &&& resolve(pending, pairs, (pairs.len() - 1) as nat) is Some
}

/// `pairs` is all that a pass reads: the pass goes on while somebody answers
/// and stops after position 63 or with the first pair that nobody answered.
pub open spec fn complete(pending: u64, pairs: Seq<(bool, bool)>) -> bool {
    &&& reachable(pending, pairs)
    &&& pairs.len() == 64 || resolve(pending, pairs, pairs.len()) is None
}

/// What the bus did during one pass, as far as the master can tell.
pub enum Observation {
    /// The pin failed.
    Faulted,
    /// No device answered the reset.
    Absent,
    /// The reset was answered, and these pairs were read.
    Pairs(Seq<(bool, bool)>),
}

/// The transport operations that open a pass whose reset was answered.
pub open spec fn called(opcode: u8) -> Seq<BusEvent> {
    seq![BusEvent::Reset { presence: true }] + writes(bits_of(opcode))
}

/// The record of transport operations `after` a pass, steered by `pending`
/// and opened with `opcode`, during which `seen` was observed.
///
/// A pass that the pin broke off is a pass that might have gone on: what
/// was done is the start of what some pairs would have made it do.
pub open spec fn passed(
    pending: u64,
    opcode: u8,
    before: Seq<BusEvent>,
    after: Seq<BusEvent>,
    seen: Observation,
) -> bool {
    match seen {
        Observation::Faulted => exists|pairs: Seq<(bool, bool)>|
            reachable(pending, pairs) && broken_off(
                before,
                after,
                called(opcode) + #[trigger] exchange(pending, pairs, pairs.len()),
            ),
        Observation::Absent => after == before.push(BusEvent::Reset { presence: false }),
        Observation::Pairs(pairs) => {
            &&& complete(pending, pairs)
            &&& after == before + called(opcode) + exchange(pending, pairs, pairs.len())
        },
    }
}

/// What a pass steered by `pending` comes to when `seen` was observed: the
/// identifier with the positions newly pending, the no-devices error when the
/// reset or one of the pairs was not answered, the pin error after a fault.
pub open spec fn found(pending: u64, seen: Observation) -> Result<Progress, Error> {
    match seen {
        Observation::Faulted => Err(Error::Pin),
        Observation::Absent => Err(Error::NoAttachedDevices),
        Observation::Pairs(pairs) => match resolve(pending, pairs, pairs.len()) {
            Some(progress) => Ok(progress),
            None => Err(Error::NoAttachedDevices),
        },
    }
}

/// Where an enumeration stands after a number of passes.
pub struct Survey {
    /// The positions left pending by the last pass.
    pub pending: u64,
    /// Whether the last pass left nothing pending.
    pub exhausted: bool,
    /// The identifiers found, in the order they were found.
    pub codes: Seq<u64>,
    /// The error that ended the enumeration, if one did.
    pub failure: Option<Error>,
}

/// Whether an enumeration goes on: nothing failed, and there are branches
/// left to explore.
pub open spec fn running(state: Survey) -> bool {
    state.failure is None && !state.exhausted
}

/// Where an enumeration stands after the first `count` of its passes, given
/// what each of them observed.
///
/// It starts with nothing pending. Every pass is steered by what the one
/// before left pending; its identifier is kept if the 64 bits check out. The
/// first pass that fails, or whose bits do not check out, ends the
/// enumeration with that error; a pass that leaves nothing pending ends it
/// for good.
pub open spec fn survey(rounds: Seq<Observation>, count: nat) -> Survey
    decreases count,
{
    if count == 0 {
        Survey { pending: 0, exhausted: false, codes: Seq::empty(), failure: None }
    } else {
        let state = survey(rounds, (count - 1) as nat);
        if !running(state) {
            state
        } else {
            match found(state.pending, rounds[count - 1]) {
                Err(e) => Survey { failure: Some(e), ..state },
                Ok(progress) => match crate::rom::Rom::parse(progress.code) {
                    Err(e) => Survey { failure: Some(e), ..state },
                    Ok(code) => Survey {
                        pending: progress.pending,
                        exhausted: progress.pending == 0,
                        codes: state.codes.push(code),
                        failure: None,
                    },
                },
            }
        }
    }
}

/// What an enumeration yields in the end: the error that ended it, or the
/// identifiers it found.
pub open spec fn concluded(state: Survey) -> Result<Seq<u64>, Error> {
    match state.failure {
        Some(e) => Err(e),
        None => Ok(state.codes),
    }
}

/// The record of an enumeration of at most `limit` identifiers: `rounds` is
/// what its passes observed, and `marks` the record of transport operations
/// before the first pass and after each.
///
/// Every pass starts while the enumeration is running and is steered by what
/// is pending then; after the last, the limit is reached or the enumeration
/// has come to its end.
pub open spec fn surveyed(
    rounds: Seq<Observation>,
    marks: Seq<Seq<BusEvent>>,
    limit: nat,
    before: Seq<BusEvent>,
    after: Seq<BusEvent>,
) -> bool {
    &&& rounds.len() <= limit
    &&& marks.len() == rounds.len() + 1
    &&& marks[0] == before
    &&& marks.last() == after
    &&& forall|k: int|
        0 <= k < rounds.len() ==> {
            &&& running(#[trigger] survey(rounds, k as nat))
            &&& passed(
                survey(rounds, k as nat).pending,
                COMMAND_ROM_SEARCH,
                marks[k],
                marks[k + 1],
                rounds[k],
            )
        }
    &&& rounds.len() == limit || !running(survey(rounds, rounds.len()))
}

/// What an enumeration of at most `limit` identifiers does: it runs passes
/// as [`surveyed`] says and yields what they conclude.
pub open spec fn enumerated(
    limit: nat,
    before: Seq<BusEvent>,
    after: Seq<BusEvent>,
    output: Result<Seq<u64>, Error>,
) -> bool {
    exists|rounds: Seq<Observation>, marks: Seq<Seq<BusEvent>>| #[trigger]
        surveyed(rounds, marks, limit, before, after) && output == concluded(
            survey(rounds, rounds.len()),
        )
}

/// What later passes observe does not matter to where the enumeration stood
/// before them.
pub proof fn lemma_later_rounds(rounds: Seq<Observation>, seen: Observation, count: nat)
    requires
        count <= rounds.len(),
    ensures
        survey(rounds.push(seen), count) == survey(rounds, count),
    decreases count,
{
    if count > 0 {
        lemma_later_rounds(rounds, seen, (count - 1) as nat);
        assert(rounds.push(seen)[count - 1] == rounds[count - 1]);
    }
}

/// What was read at positions not yet reached does not matter to what was
/// resolved and exchanged so far.
pub proof fn lemma_later_pairs(
    pending: u64,
    pairs: Seq<(bool, bool)>,
    pair: (bool, bool),
    count: nat,
)
    requires
        count <= pairs.len(),
    ensures
        resolve(pending, pairs.push(pair), count) == resolve(pending, pairs, count),
        exchange(pending, pairs.push(pair), count) == exchange(pending, pairs, count),
    decreases count,
{
    if count > 0 {
        lemma_later_pairs(pending, pairs, pair, (count - 1) as nat);
        assert(pairs.push(pair)[count - 1] == pairs[count - 1]);
    }
}

/// The first pair that nobody answers ends the pass with the no-devices
/// error, whatever was read before it and whatever the pass is steered by.
pub proof fn lemma_unanswered_pair(pending: u64, pairs: Seq<(bool, bool)>, position: nat)
    requires
        position < pairs.len() <= 64,
        pairs[position as int] == (true, true),
    ensures
        found(pending, Observation::Pairs(pairs)) == Err::<Progress, Error>(
            Error::NoAttachedDevices,
        ),
{
    lemma_unanswered_from(pending, pairs, position, pairs.len());
}

/// Once a pair was not answered, nothing is resolved from there on.
proof fn lemma_unanswered_from(pending: u64, pairs: Seq<(bool, bool)>, position: nat, count: nat)
    requires
        position < count <= pairs.len(),
        pairs[position as int] == (true, true),
    ensures
        resolve(pending, pairs, count) is None,
    decreases count,
{
    if count - 1 > position {
        lemma_unanswered_from(pending, pairs, position, (count - 1) as nat);
    }
}

/// An enumeration that has come to its end stays where it is, whatever is
/// observed after.
pub proof fn lemma_ended(rounds: Seq<Observation>, count: nat, later: nat)
    requires
        count <= later,
        !running(survey(rounds, count)),
    ensures
        survey(rounds, later) == survey(rounds, count),
    decreases later,
{
    if count < later {
        lemma_ended(rounds, count, (later - 1) as nat);
    }
}

/// A pair that nobody answers ends the enumeration at once, with the
/// no-devices error and no identifier for that pass: the same error is what
/// the enumeration yields however many passes are counted after.
pub proof fn lemma_enumeration_unanswered(
    rounds: Seq<Observation>,
    pass: nat,
    pairs: Seq<(bool, bool)>,
    position: nat,
    later: nat,
)
    requires
        pass < later,
        running(survey(rounds, pass)),
        rounds[pass as int] == Observation::Pairs(pairs),
        position < pairs.len() <= 64,
        pairs[position as int] == (true, true),
    ensures
        concluded(survey(rounds, later)) == Err::<Seq<u64>, Error>(Error::NoAttachedDevices),
        survey(rounds, later).codes == survey(rounds, pass).codes,
{
    lemma_unanswered_pair(survey(rounds, pass).pending, pairs, position);
    lemma_ended(rounds, pass + 1, later);
}

/// Setting a bit of a 64-bit value changes that bit and no other.
pub proof fn lemma_with_bit(code: u64, index: u32, set: bool, other: u32)
    requires
        index < 64,
        other < 64,
    ensures
        bit(with_bit(code, index, set), other) == if other == index {
            set || bit(code, other)
        } else {
            bit(code, other)
        },
{
    assert(bit(code | (1u64 << index), other) == (other == index || bit(code, other)))
        by (bit_vector)
        requires
            index < 64,
            other < 64,
    ;
}

/// Decides which way to go at `index` after reading a bit and its
/// complement; `None` when nobody answered.
pub fn decide(pending: u64, index: u32, value: bool, complement: bool) -> (taken: Option<bool>)
    requires
        index < 64,
    ensures
        taken == direction(pending, index, (value, complement)),
{
    if value && complement {
        None
    } else if !value && !complement {
        let here = (pending >> index) & 1 == 1;
        if (pending >> index) >> 1u32 != 0 {
            Some(!here)
        } else {
            Some(here)
        }
    } else {
        Some(value)
    }
}

/// Takes the step at `index`: decides the direction, and records it and
/// whether the position is now pending. Answers the direction and the
/// progress made, or `None` when nobody answered.
pub fn step(pending: u64, progress: Progress, index: u32, value: bool, complement: bool) -> (next:
    Option<(bool, Progress)>)
    requires
        index < 64,
    ensures
        match next {
            None => direction(pending, index, (value, complement)) is None,
            Some((taken, made)) => {
                &&& direction(pending, index, (value, complement)) == Some(taken)
                &&& advance(pending, progress, index, (value, complement)) == Some(made)
            },
        },
{
    match decide(pending, index, value, complement) {
        None => None,
        Some(taken) => {
            let code = if taken {
                progress.code | (1u64 << index)
            } else {
                progress.code
            };
            let left = if !value && !complement && !taken {
                progress.pending | (1u64 << index)
            } else {
                progress.pending
            };
            Some((taken, Progress { code, pending: left }))
        },
    }
}

} // verus!
