//! Why the enumeration finds every device once: the search, held against a
//! set of devices that answer on a wired AND.

use crate::driver::BusEvent;
use crate::rom::Rom;
use crate::search::{
    advance, bit, branch, complete, concluded, direction, found, lemma_with_bit, resolve,
    running, survey, surveyed, with_bit, Observation, Progress, Survey,
};
use vstd::prelude::*;
use vstd::set_lib::{lemma_len_subset, lemma_subset_equality};

verus! {

/// `a` and `b` have the same bits at the first `count` positions.
pub open spec fn agree(a: u64, b: u64, count: u32) -> bool {
    forall|j: u32|
        #![trigger bit(a, j)]
        #![trigger bit(b, j)]
        j < count && j < 64 ==> bit(a, j) == bit(b, j)
}

/// `b` leaves the path of `a` at `index`, and towards the one: up to there
/// the two have the same bits, and there `a` has a zero and `b` a one.
pub open spec fn branches_at(a: u64, b: u64, index: u32) -> bool {
    index < 64 && agree(a, b, index) && !bit(a, index) && bit(b, index)
}

/// The order in which the search finds identifiers: `a` comes before `b`
/// when, at the first position where they differ, `a` has the zero.
pub open spec fn precedes(a: u64, b: u64) -> bool {
    exists|index: u32| #[trigger] branches_at(a, b, index)
}

/// The bits of `x` below position `count`.
spec fn low(x: u64, count: u32) -> u64 {
    if count >= 64 {
        x
    } else {
        x & !(0xffff_ffff_ffff_ffffu64 << count)
    }
}

/// Values that agree in their low bits and in the next bit agree in one
/// more low bit.
proof fn lemma_low_step(a: u64, b: u64, count: u32, next: u32)
    by (bit_vector)
    requires
        count < 64,
        next == count + 1,
        low(a, count) == low(b, count),
        bit(a, count) == bit(b, count),
    ensures
        low(a, next) == low(b, next),
{
}

/// No value has any bits below position zero.
proof fn lemma_low_none(a: u64)
    by (bit_vector)
    ensures
        low(a, 0) == 0,
{
}

/// Values that agree at the first `count` positions have the same bits
/// below `count`.
proof fn lemma_low(a: u64, b: u64, count: u32)
    requires
        count <= 64,
        agree(a, b, count),
    ensures
        low(a, count) == low(b, count),
    decreases count,
{
    if count == 0 {
        lemma_low_none(a);
        lemma_low_none(b);
    } else {
        let before = (count - 1) as u32;
        lemma_low(a, b, before);
        assert(bit(a, before) == bit(b, before));
        lemma_low_step(a, b, before, count);
    }
}

/// Two identifiers with the same 64 bits are the same identifier.
pub proof fn lemma_same_bits(a: u64, b: u64)
    requires
        agree(a, b, 64),
    ensures
        a == b,
{
    lemma_low(a, b, 64);
}

/// Finds the first position from `count` on at which `a` and `b` differ.
proof fn first_difference(a: u64, b: u64, count: u32) -> (index: u32)
    requires
        a != b,
        count <= 64,
        agree(a, b, count),
    ensures
        count <= index < 64,
        agree(a, b, index),
        bit(a, index) != bit(b, index),
    decreases 64 - count,
{
    if count == 64 {
        lemma_same_bits(a, b);
        0
    } else if bit(a, count) != bit(b, count) {
        count
    } else {
        first_difference(a, b, (count + 1) as u32)
    }
}

/// Agreeing is symmetric.
pub proof fn lemma_agree_symmetric(a: u64, b: u64, count: u32)
    requires
        agree(a, b, count),
    ensures
        agree(b, a, count),
{
}

/// Agreeing carries over from two pairs to the third, for as far as both
/// reach.
pub proof fn lemma_agree_transitive(a: u64, b: u64, c: u64, count: u32)
    requires
        agree(a, b, count),
        agree(b, c, count),
    ensures
        agree(a, c, count),
{
    assert forall|j: u32| j < count && j < 64 implies bit(a, j) == bit(c, j) by {
        assert(bit(a, j) == bit(b, j));
        assert(bit(b, j) == bit(c, j));
    }
}

/// What agrees up to a position agrees up to every position before it.
pub proof fn lemma_agree_shorter(a: u64, b: u64, count: u32, shorter: u32)
    requires
        agree(a, b, count),
        shorter <= count,
    ensures
        agree(a, b, shorter),
{
}

/// Of two different identifiers, one comes before the other.
pub proof fn lemma_precedes_total(a: u64, b: u64)
    requires
        a != b,
    ensures
        precedes(a, b) || precedes(b, a),
{
    let index = first_difference(a, b, 0);
    if bit(b, index) {
        assert(branches_at(a, b, index));
    } else {
        lemma_agree_symmetric(a, b, index);
        assert(branches_at(b, a, index));
    }
}

/// Where one identifier comes before another, the other does not come
/// before it; so none comes before itself.
pub proof fn lemma_precedes_asymmetric(a: u64, b: u64)
    requires
        precedes(a, b),
    ensures
        !precedes(b, a),
        a != b,
{
    let i = choose|i: u32| #[trigger] branches_at(a, b, i);
    if precedes(b, a) {
        let j = choose|j: u32| #[trigger] branches_at(b, a, j);
        if j < i {
            assert(bit(a, j) == bit(b, j));
        } else if i < j {
            assert(bit(b, i) == bit(a, i));
        }
    }
}

/// The order of the search is transitive.
pub proof fn lemma_precedes_transitive(a: u64, b: u64, c: u64)
    requires
        precedes(a, b),
        precedes(b, c),
    ensures
        precedes(a, c),
{
    let i = choose|i: u32| #[trigger] branches_at(a, b, i);
    let j = choose|j: u32| #[trigger] branches_at(b, c, j);
    if i <= j {
        // Up to `i` all three agree; there `a` has the zero, `b` the one,
        // and `c` what `b` has, or it is where `c` leaves `b` for the one.
        lemma_agree_shorter(b, c, j, i);
        lemma_agree_transitive(a, b, c, i);
        if i < j {
            assert(bit(b, i) == bit(c, i));
        }
        assert(branches_at(a, c, i));
    } else {
        lemma_agree_shorter(a, b, i, j);
        lemma_agree_transitive(a, b, c, j);
        assert(bit(a, j) == bit(b, j));
        assert(branches_at(a, c, j));
    }
}

/// A position beyond `index` is pending in `mask` exactly when the test of
/// the search for it comes out.
pub proof fn lemma_pending_beyond(mask: u64, index: u32)
    requires
        index < 64,
    ensures
        ((mask >> index) >> 1u32 != 0) <==> exists|j: u32|
            index < j < 64 && #[trigger] bit(mask, j),
{
    if exists|j: u32| index < j < 64 && #[trigger] bit(mask, j) {
        let j = choose|j: u32| index < j < 64 && #[trigger] bit(mask, j);
        assert((mask >> index) >> 1u32 != 0) by (bit_vector)
            requires
                index < j < 64,
                bit(mask, j),
        ;
    } else {
        lemma_none_from(mask, (index + 1) as u32);
        assert((mask >> index) >> 1u32 == 0) by (bit_vector)
            requires
                index < 64,
                index == 63 || mask >> ((index + 1) as u32) == 0,
        ;
    }
}

/// A mask with no bit set from `from` on is zero from there on.
proof fn lemma_none_from(mask: u64, from: u32)
    requires
        from <= 64,
        forall|j: u32| from <= j < 64 ==> !#[trigger] bit(mask, j),
    ensures
        from == 64 || mask >> from == 0,
    decreases 64 - from,
{
    if from < 64 {
        let next = (from + 1) as u32;
        lemma_none_from(mask, next);
        assert(!bit(mask, from));
        assert(mask >> from == 0) by (bit_vector)
            requires
                from < 64,
                next == from + 1,
                next == 64 || mask >> next == 0,
                !bit(mask, from),
        ;
    }
}

/// A mask with no bit set is zero, and zero has no bit set.
pub proof fn lemma_zero_mask(mask: u64)
    ensures
        mask == 0 <==> forall|j: u32| j < 64 ==> !#[trigger] bit(mask, j),
{
    if mask == 0 {
        assert forall|j: u32| j < 64 implies !#[trigger] bit(mask, j) by {
            assert(!bit(0u64, j)) by (bit_vector);
        }
    }
    if forall|j: u32| j < 64 ==> !#[trigger] bit(mask, j) {
        lemma_none_from(mask, 0);
        assert(mask >> 0u32 == 0 ==> mask == 0) by (bit_vector);
    }
}

/// `device` is one of `devices` and still takes part at `index` when the
/// master has gone along `code` so far: it has the bits of `code` at every
/// position before.
pub open spec fn remaining(devices: Set<u64>, code: u64, index: u32, device: u64) -> bool {
    devices.contains(device) && agree(device, code, index)
}

/// The pair the master reads at `index` from `devices` on a wired AND, when
/// it has gone along `code` so far: the bit reads as one when no device that
/// still takes part has a zero there, and the complement reads as one when
/// none has a one.
pub open spec fn answer(devices: Set<u64>, code: u64, index: u32) -> (bool, bool) {
    (
        forall|d: u64| #[trigger] remaining(devices, code, index, d) ==> bit(d, index),
        forall|d: u64| #[trigger] remaining(devices, code, index, d) ==> !bit(d, index),
    )
}

/// `pairs` is what `devices` present in a pass steered by `pending`: at
/// every position the pair is their answer to the path the pass has taken
/// up to there.
pub open spec fn presented(devices: Set<u64>, pending: u64, pairs: Seq<(bool, bool)>) -> bool {
    forall|i: int|
        0 <= i < pairs.len() && i < 64 ==> match #[trigger] resolve(pending, pairs, i as nat) {
            Some(progress) => pairs[i] == answer(devices, progress.code, i as u32),
            None => true,
        }
}

/// `index` is a branching point left open on the path of `code`: `code` has
/// a zero there, and a device that shares its bits before has a one.
pub open spec fn disputed(devices: Set<u64>, code: u64, index: u32) -> bool {
    !bit(code, index) && exists|d: u64|
        #[trigger] remaining(devices, code, index, d) && bit(d, index)
}

/// `mask` holds exactly the branching points left open on the path of
/// `code`.
pub open spec fn frontier(devices: Set<u64>, code: u64, mask: u64) -> bool {
    forall|i: u32| i < 64 ==> #[trigger] bit(mask, i) == disputed(devices, code, i)
}

/// What steers a pass: nothing in a first pass, and otherwise the branching
/// points left open on the path of the identifier `origin` found before.
pub open spec fn steered(devices: Set<u64>, pending: u64, origin: Option<u64>) -> bool {
    match origin {
        None => pending == 0,
        Some(from) => devices.contains(from) && frontier(devices, from, pending) && pending != 0,
    }
}

/// Every device that shares the first `turn` bits of `code` has gone along
/// with `code` up to `count`, or has left its path for the one branch
/// somewhere between.
spec fn least_from(devices: Set<u64>, code: u64, turn: u32, count: u32) -> bool {
    forall|d: u64| #[trigger]
        remaining(devices, code, turn, d) ==> agree(d, code, count) || exists|i: u32|
            turn <= i < count && #[trigger] branches_at(code, d, i)
}

/// The pass has turned: it took the one branch at the last pending
/// position, which is the one before `turn`, and zero branches since.
spec fn settled(
    devices: Set<u64>,
    pending: u64,
    origin: Option<u64>,
    code: u64,
    turn: u32,
    count: u32,
) -> bool {
    &&& turn <= count
    &&& forall|j: u32| turn <= j < 64 ==> !#[trigger] bit(pending, j)
    &&& least_from(devices, code, turn, count)
    &&& match origin {
        None => turn == 0,
        Some(from) => turn >= 1 && branches_at(from, code, (turn - 1) as u32) && bit(
            pending,
            (turn - 1) as u32,
        ),
    }
}

/// The pass still repeats the path of the identifier found before: a
/// pending position lies ahead.
spec fn following(pending: u64, origin: Option<u64>, code: u64, count: u32) -> bool {
    &&& origin is Some
    &&& agree(code, origin->Some_0, count)
    &&& exists|j: u32| count <= j < 64 && #[trigger] bit(pending, j)
}

/// What holds of the progress of a pass after `count` positions.
spec fn on_course(
    devices: Set<u64>,
    pending: u64,
    origin: Option<u64>,
    progress: Progress,
    count: u32,
) -> bool {
    &&& exists|w: u64| #[trigger] remaining(devices, progress.code, count, w)
    &&& forall|j: u32| count <= j < 64 ==> !#[trigger] bit(progress.code, j)
    &&& forall|j: u32| count <= j < 64 ==> !#[trigger] bit(progress.pending, j)
    &&& forall|j: u32|
        j < count && j < 64 ==> #[trigger] bit(progress.pending, j) == disputed(
            devices,
            progress.code,
            j,
        )
    &&& following(pending, origin, progress.code, count) || exists|turn: u32| #[trigger]
        settled(devices, pending, origin, progress.code, turn, count)
}

/// Whether a device takes part at a position depends on the path only as
/// far as the position.
proof fn lemma_remaining_same(devices: Set<u64>, code: u64, other: u64, index: u32, d: u64)
    requires
        agree(code, other, index),
    ensures
        remaining(devices, code, index, d) == remaining(devices, other, index, d),
{
    if agree(d, code, index) {
        lemma_agree_transitive(d, code, other, index);
    }
    if agree(d, other, index) {
        lemma_agree_symmetric(code, other, index);
        lemma_agree_transitive(d, other, code, index);
    }
}

/// Whether a position is a branching point left open depends on the path
/// only up to and including the position.
proof fn lemma_disputed_same(devices: Set<u64>, code: u64, other: u64, index: u32)
    requires
        index < 64,
        agree(code, other, (index + 1) as u32),
    ensures
        disputed(devices, code, index) == disputed(devices, other, index),
{
    lemma_agree_shorter(code, other, (index + 1) as u32, index);
    assert(bit(code, index) == bit(other, index));
    if disputed(devices, code, index) {
        let d = choose|d: u64| #[trigger] remaining(devices, code, index, d) && bit(d, index);
        lemma_remaining_same(devices, code, other, index, d);
    }
    if disputed(devices, other, index) {
        let d = choose|d: u64| #[trigger] remaining(devices, other, index, d) && bit(d, index);
        lemma_remaining_same(devices, code, other, index, d);
    }
}

/// The bits of the progress after the step at `count`: the direction at
/// `count`, and what was there before everywhere else.
proof fn lemma_advanced_bits(
    progress: Progress,
    next: Progress,
    count: u32,
    taken: bool,
    kept: bool,
)
    requires
        count < 64,
        !bit(progress.code, count),
        !bit(progress.pending, count),
        next.code == with_bit(progress.code, count, taken),
        next.pending == with_bit(progress.pending, count, kept),
    ensures
        forall|j: u32|
            j < 64 ==> #[trigger] bit(next.code, j) == if j == count {
                taken
            } else {
                bit(progress.code, j)
            },
        forall|j: u32|
            j < 64 ==> #[trigger] bit(next.pending, j) == if j == count {
                kept
            } else {
                bit(progress.pending, j)
            },
        agree(next.code, progress.code, count),
        agree(progress.code, next.code, count),
{
    assert forall|j: u32| j < 64 implies #[trigger] bit(next.code, j) == if j == count {
        taken
    } else {
        bit(progress.code, j)
    } by {
        lemma_with_bit(progress.code, count, taken, j);
    }
    assert forall|j: u32| j < 64 implies #[trigger] bit(next.pending, j) == if j == count {
        kept
    } else {
        bit(progress.pending, j)
    } by {
        lemma_with_bit(progress.pending, count, kept, j);
    }
}

/// One position of a pass: when the devices answer, somebody does, the pass
/// goes on, and what held of its progress holds again.
proof fn lemma_step(
    devices: Set<u64>,
    pending: u64,
    origin: Option<u64>,
    progress: Progress,
    count: u32,
    pair: (bool, bool),
)
    requires
        count < 64,
        steered(devices, pending, origin),
        on_course(devices, pending, origin, progress, count),
        pair == answer(devices, progress.code, count),
    ensures
        advance(pending, progress, count, pair) is Some,
        on_course(
            devices,
            pending,
            origin,
            advance(pending, progress, count, pair)->Some_0,
            (count + 1) as u32,
        ),
{
    let code = progress.code;
    let after = (count + 1) as u32;
    let w = choose|w: u64| #[trigger] remaining(devices, code, count, w);
    // Somebody answers: the witness has a bit there.
    assert(!(pair.0 && pair.1)) by {
        if bit(w, count) {
            assert(!pair.1);
        } else {
            assert(!pair.0);
        }
    }
    let conflict = !pair.0 && !pair.1;
    let taken = direction(pending, count, pair)->Some_0;
    let next = advance(pending, progress, count, pair)->Some_0;
    lemma_advanced_bits(progress, next, count, taken, conflict && !taken);
    // A device that takes part and has not the bit the pass goes on with
    // shows that the devices disagree, and then the branch decides.
    assert forall|d: u64|
        remaining(devices, code, count, d) && bit(d, count) != taken implies conflict && taken
        == branch(pending, count) by {
        if !conflict {
            if pair.0 {
                assert(bit(d, count));
            } else {
                assert(!bit(d, count));
            }
        }
    }
    // Somebody goes along with the direction taken.
    let along = if conflict {
        if taken {
            choose|d: u64| #[trigger] remaining(devices, code, count, d) && bit(d, count)
        } else {
            choose|d: u64| #[trigger] remaining(devices, code, count, d) && !bit(d, count)
        }
    } else {
        w
    };
    assert(remaining(devices, code, count, along) && bit(along, count) == taken) by {
        if !conflict {
            if pair.0 {
                assert(bit(w, count));
            } else {
                assert(!bit(w, count));
            }
        }
    }
    assert(remaining(devices, next.code, after, along)) by {
        lemma_agree_transitive(along, code, next.code, count);
        assert(agree(along, next.code, after));
    }
    // The pending positions are the branching points left open.
    assert forall|j: u32| j < after && j < 64 implies #[trigger] bit(next.pending, j) == disputed(
        devices,
        next.code,
        j,
    ) by {
        if j < count {
            lemma_agree_shorter(code, next.code, count, (j + 1) as u32);
            lemma_disputed_same(devices, code, next.code, j);
        } else {
            if conflict && !taken {
                let one = choose|d: u64| #[trigger]
                    remaining(devices, code, count, d) && bit(d, count);
                lemma_remaining_same(devices, code, next.code, count, one);
                assert(disputed(devices, next.code, count));
            } else if disputed(devices, next.code, count) {
                let one = choose|d: u64| #[trigger]
                    remaining(devices, next.code, count, d) && bit(d, count);
                lemma_remaining_same(devices, code, next.code, count, one);
                assert(remaining(devices, code, count, one) && bit(one, count) != taken);
            }
        }
    }
    // The course.
    lemma_pending_beyond(pending, count);
    if following(pending, origin, code, count) {
        let from = origin->Some_0;
        lemma_agree_symmetric(code, from, count);
        assert(remaining(devices, code, count, from));
        if (pending >> count) >> 1u32 != 0 {
            assert(taken == bit(from, count)) by {
                if bit(from, count) != taken {
                    // The devices disagree, so the choice of the last pass
                    // is repeated; and the last pass was on this path.
                    let one = choose|d: u64| #[trigger]
                        remaining(devices, code, count, d) && bit(d, count);
                    lemma_remaining_same(devices, code, from, count, one);
                    assert(disputed(devices, from, count) == !bit(from, count));
                    assert(bit(pending, count) == disputed(devices, from, count));
                }
            }
            lemma_agree_transitive(next.code, code, from, count);
            assert(agree(next.code, from, after));
            let ahead = choose|j: u32| count < j < 64 && #[trigger] bit(pending, j);
            assert(after <= ahead < 64 && bit(pending, ahead));
            assert(following(pending, origin, next.code, after));
        } else {
            let ahead = choose|j: u32| count <= j < 64 && #[trigger] bit(pending, j);
            assert(ahead == count);
            assert(disputed(devices, from, count));
            let one = choose|d: u64| #[trigger] remaining(devices, from, count, d) && bit(d, count);
            lemma_agree_symmetric(code, from, count);
            lemma_remaining_same(devices, from, code, count, one);
            assert(remaining(devices, code, count, one));
            assert(!pair.1);
            assert(!pair.0) by {
                assert(!bit(from, count));
            }
            assert(taken);
            lemma_agree_transitive(from, code, next.code, count);
            assert(branches_at(from, next.code, count));
            assert(settled(devices, pending, origin, next.code, after, after));
        }
    } else {
        let turn = choose|turn: u32| #[trigger]
            settled(devices, pending, origin, code, turn, count);
        assert(least_from(devices, next.code, turn, after)) by {
            assert forall|d: u64| #[trigger] remaining(devices, next.code, turn, d) implies agree(
                d,
                next.code,
                after,
            ) || exists|i: u32| turn <= i < after && #[trigger] branches_at(next.code, d, i) by {
                lemma_agree_shorter(code, next.code, count, turn);
                lemma_remaining_same(devices, code, next.code, turn, d);
                assert(remaining(devices, code, turn, d));
                if agree(d, code, count) {
                    lemma_agree_transitive(d, code, next.code, count);
                    if bit(d, count) == taken {
                        assert(agree(d, next.code, after));
                    } else {
                        assert(remaining(devices, code, count, d));
                        assert(!bit(pending, count));
                        assert(!taken);
                        lemma_agree_symmetric(d, next.code, count);
                        assert(branches_at(next.code, d, count));
                    }
                } else {
                    let i = choose|i: u32| turn <= i < count && #[trigger] branches_at(code, d, i);
                    lemma_agree_shorter(next.code, code, count, i);
                    lemma_agree_transitive(next.code, code, d, i);
                    assert(branches_at(next.code, d, i));
                }
            }
        }
        if origin is Some {
            let from = origin->Some_0;
            let last = (turn - 1) as u32;
            lemma_agree_shorter(code, next.code, count, last);
            lemma_agree_transitive(from, code, next.code, last);
            assert(branches_at(from, next.code, last));
        }
        assert(settled(devices, pending, origin, next.code, turn, after));
    }
}

/// What held of the progress of a pass at its start holds after every
/// position, as long as the devices answer as they do.
proof fn lemma_course(
    devices: Set<u64>,
    pending: u64,
    origin: Option<u64>,
    pairs: Seq<(bool, bool)>,
    count: u32,
)
    requires
        count <= pairs.len() <= 64,
        exists|d: u64| devices.contains(d),
        steered(devices, pending, origin),
        presented(devices, pending, pairs),
    ensures
        resolve(pending, pairs, count as nat) is Some,
        on_course(devices, pending, origin, resolve(pending, pairs, count as nat)->Some_0, count),
    decreases count,
{
    if count == 0 {
        let start = Progress { code: 0, pending: 0 };
        let any = choose|d: u64| devices.contains(d);
        assert(remaining(devices, start.code, 0, any));
        lemma_zero_mask(0);
        lemma_zero_mask(pending);
        match origin {
            None => {
                assert(settled(devices, pending, origin, start.code, 0, 0));
            },
            Some(from) => {
                let ahead = choose|j: u32| j < 64 && #[trigger] bit(pending, j);
                assert(0 <= ahead < 64 && bit(pending, ahead));
                assert(following(pending, origin, start.code, 0));
            },
        }
    } else {
        let before = (count - 1) as u32;
        lemma_course(devices, pending, origin, pairs, before);
        let progress = resolve(pending, pairs, before as nat)->Some_0;
        assert(pairs[before as int] == answer(devices, progress.code, before));
        lemma_step(devices, pending, origin, progress, before, pairs[before as int]);
    }
}

/// `code` is the first of `devices` in the order of the search.
pub open spec fn first(devices: Set<u64>, code: u64) -> bool {
    &&& devices.contains(code)
    &&& forall|d: u64| devices.contains(d) ==> d == code || #[trigger] precedes(code, d)
}

/// `code` is the one of `devices` that comes next after `from` in the order
/// of the search: it comes after `from`, and no device comes between them.
pub open spec fn successor(devices: Set<u64>, from: u64, code: u64) -> bool {
    &&& devices.contains(code)
    &&& precedes(from, code)
    &&& forall|d: u64|
        devices.contains(d) && #[trigger] precedes(from, d) ==> d == code || precedes(code, d)
}

/// `code` is the last of `devices` in the order of the search.
pub open spec fn last(devices: Set<u64>, code: u64) -> bool {
    &&& devices.contains(code)
    &&& forall|d: u64| devices.contains(d) ==> !#[trigger] precedes(code, d)
}

/// Every pass makes progress. Against devices that answer on a wired AND, a
/// pass comes through all 64 positions and finds one of the devices: the
/// first in the order of the search when nothing steers it, and otherwise
/// the one that comes next after the one found before. What it leaves
/// pending are the branching points left open on the path of the device it
/// found.
pub proof fn lemma_pass(
    devices: Set<u64>,
    pending: u64,
    origin: Option<u64>,
    pairs: Seq<(bool, bool)>,
)
    requires
        exists|d: u64| devices.contains(d),
        steered(devices, pending, origin),
        presented(devices, pending, pairs),
        complete(pending, pairs),
    ensures
        pairs.len() == 64,
        found(pending, Observation::Pairs(pairs)) is Ok,
        frontier(
            devices,
            found(pending, Observation::Pairs(pairs))->Ok_0.code,
            found(pending, Observation::Pairs(pairs))->Ok_0.pending,
        ),
        match origin {
            None => first(devices, found(pending, Observation::Pairs(pairs))->Ok_0.code),
            Some(from) => successor(
                devices,
                from,
                found(pending, Observation::Pairs(pairs))->Ok_0.code,
            ),
        },
{
    let count = pairs.len() as u32;
    lemma_course(devices, pending, origin, pairs, count);
    assert(count == 64);
    let progress = resolve(pending, pairs, 64)->Some_0;
    let code = progress.code;
    let w = choose|w: u64| #[trigger] remaining(devices, code, 64, w);
    lemma_same_bits(w, code);
    assert(!following(pending, origin, code, 64));
    let turn = choose|turn: u32| #[trigger] settled(devices, pending, origin, code, turn, 64);
    // Every device that shares the bits of the one found up to the turn is
    // the one found or comes after it.
    assert forall|d: u64| #[trigger] remaining(devices, code, turn, d) implies d == code
        || precedes(code, d) by {
        if agree(d, code, 64) {
            lemma_same_bits(d, code);
        } else {
            let i = choose|i: u32| turn <= i < 64 && #[trigger] branches_at(code, d, i);
            assert(branches_at(code, d, i));
        }
    }
    match origin {
        None => {
            assert forall|d: u64| devices.contains(d) implies d == code || #[trigger] precedes(
                code,
                d,
            ) by {
                assert(remaining(devices, code, 0, d));
            }
        },
        Some(from) => {
            let k = (turn - 1) as u32;
            assert(branches_at(from, code, k));
            assert forall|d: u64| devices.contains(d) && #[trigger] precedes(from, d) implies d
                == code || precedes(code, d) by {
                let i = choose|i: u32| #[trigger] branches_at(from, d, i);
                lemma_agree_symmetric(from, d, i);
                assert(remaining(devices, from, i, d));
                assert(disputed(devices, from, i));
                assert(bit(pending, i));
                assert(i <= k);
                lemma_agree_symmetric(from, code, k);
                lemma_agree_shorter(code, from, k, i);
                lemma_agree_transitive(code, from, d, i);
                if i < k {
                    assert(bit(code, i) == bit(from, i));
                    assert(branches_at(code, d, i));
                } else {
                    lemma_agree_symmetric(code, d, k);
                    assert(agree(d, code, turn));
                    assert(remaining(devices, code, turn, d));
                }
            }
        },
    }
}

/// The enumeration is over exactly when the last device has been found: a
/// path leaves no branching point open if and only if no device comes after
/// it.
pub proof fn lemma_exhausted(devices: Set<u64>, code: u64, pending: u64)
    requires
        devices.contains(code),
        frontier(devices, code, pending),
    ensures
        pending == 0 <==> last(devices, code),
{
    lemma_zero_mask(pending);
    if pending == 0 {
        assert forall|d: u64| devices.contains(d) implies !#[trigger] precedes(code, d) by {
            if precedes(code, d) {
                let i = choose|i: u32| #[trigger] branches_at(code, d, i);
                lemma_agree_symmetric(code, d, i);
                assert(remaining(devices, code, i, d));
                assert(disputed(devices, code, i));
                assert(bit(pending, i));
            }
        }
    } else {
        let i = choose|i: u32| i < 64 && #[trigger] bit(pending, i);
        assert(disputed(devices, code, i));
        let d = choose|d: u64| #[trigger] remaining(devices, code, i, d) && bit(d, i);
        lemma_agree_symmetric(d, code, i);
        assert(branches_at(code, d, i));
        assert(precedes(code, d));
    }
}

/// The bus behaves as `devices` do in every pass of an enumeration: the
/// reset is answered, the pin works, and the pairs read are those that the
/// devices present.
pub open spec fn answered(devices: Set<u64>, rounds: Seq<Observation>) -> bool {
    forall|k: int|
        0 <= k < rounds.len() ==> match #[trigger] rounds[k] {
            Observation::Pairs(pairs) => presented(
                devices,
                survey(rounds, k as nat).pending,
                pairs,
            ),
            _ => false,
        }
}

/// What holds of an enumeration after `count` passes: it has found `count`
/// of the devices, in the order of the search, and none was left out on the
/// way.
spec fn in_order(devices: Set<u64>, state: Survey, count: nat) -> bool {
    &&& state.failure is None
    &&& state.codes.len() == count
    &&& forall|i: int| 0 <= i < count ==> devices.contains(#[trigger] state.codes[i])
    &&& forall|i: int, j: int|
        0 <= i < j < count ==> precedes(#[trigger] state.codes[i], #[trigger] state.codes[j])
    &&& count == 0 ==> state.pending == 0 && !state.exhausted
    &&& count > 0 ==> {
        &&& frontier(devices, state.codes[count - 1], state.pending)
        &&& state.exhausted == (state.pending == 0)
        &&& forall|d: u64|
            devices.contains(d) && (d == state.codes[count - 1] || #[trigger] precedes(
                d,
                state.codes[count - 1],
            )) ==> state.codes.contains(d)
    }
}

/// An enumeration against devices that answer is in order after every
/// pass.
proof fn lemma_in_order(
    devices: Set<u64>,
    rounds: Seq<Observation>,
    marks: Seq<Seq<BusEvent>>,
    limit: nat,
    before: Seq<BusEvent>,
    after: Seq<BusEvent>,
    count: nat,
)
    requires
        exists|d: u64| devices.contains(d),
        forall|d: u64| devices.contains(d) ==> Rom::parse(d) is Ok,
        answered(devices, rounds),
        surveyed(rounds, marks, limit, before, after),
        count <= rounds.len(),
    ensures
        in_order(devices, survey(rounds, count), count),
    decreases count,
{
    if count > 0 {
        let k = (count - 1) as nat;
        lemma_in_order(devices, rounds, marks, limit, before, after, k);
        let state = survey(rounds, k);
        assert(running(state));
        let pairs = rounds[k as int]->Pairs_0;
        assert(rounds[k as int] is Pairs);
        assert(presented(devices, state.pending, pairs));
        assert(complete(state.pending, pairs));
        let origin = if k == 0 {
            None
        } else {
            Some(state.codes[k - 1])
        };
        lemma_pass(devices, state.pending, origin, pairs);
        let progress = found(state.pending, rounds[k as int])->Ok_0;
        let code = progress.code;
        let next = survey(rounds, count);
        assert(next.codes == state.codes.push(code));
        assert(next.pending == progress.pending);
        assert forall|i: int, j: int| 0 <= i < j < count implies precedes(
            #[trigger] next.codes[i],
            #[trigger] next.codes[j],
        ) by {
            if j == k {
                if i < k - 1 {
                    lemma_precedes_transitive(state.codes[i], state.codes[k - 1], code);
                }
            }
        }
        assert forall|d: u64|
            devices.contains(d) && (d == code || #[trigger] precedes(
                d,
                code,
            )) implies next.codes.contains(d) by {
            if d == code {
                assert(next.codes[k as int] == d);
            } else {
                lemma_precedes_asymmetric(d, code);
                if k == 0 {
                    assert(d == code || precedes(code, d));
                } else {
                    let earlier = state.codes[k - 1];
                    if d != earlier {
                        lemma_precedes_total(d, earlier);
                    }
                    if precedes(earlier, d) {
                        assert(d == code || precedes(code, d));
                    }
                    assert(state.codes.contains(d));
                    let i = choose|i: int| 0 <= i < state.codes.len() && state.codes[i] == d;
                    assert(next.codes[i] == d);
                }
            }
        }
    }
}

/// A full enumeration finds every device exactly once.
///
/// Take any finite set of devices whose identifiers check out, at least one
/// of them, and an enumeration during which the bus behaves as these devices
/// do. Then the enumeration does not fail, and what it yields are devices of
/// the set, each once, in the order of the search: as many as the limit
/// allows, and all of them when the limit is no less than their number.
pub proof fn lemma_enumeration(
    devices: Set<u64>,
    rounds: Seq<Observation>,
    marks: Seq<Seq<BusEvent>>,
    limit: nat,
    before: Seq<BusEvent>,
    after: Seq<BusEvent>,
)
    requires
        devices.finite(),
        devices.len() > 0,
        forall|d: u64| devices.contains(d) ==> Rom::parse(d) is Ok,
        answered(devices, rounds),
        surveyed(rounds, marks, limit, before, after),
    ensures
        concluded(survey(rounds, rounds.len())) is Ok,
        ({
            let codes = concluded(survey(rounds, rounds.len()))->Ok_0;
            &&& codes.no_duplicates()
            &&& forall|i: int| 0 <= i < codes.len() ==> devices.contains(#[trigger] codes[i])
            &&& forall|i: int| 0 <= i < codes.len() ==> Rom::parse(#[trigger] codes[i]) is Ok
            &&& forall|i: int, j: int|
                0 <= i < j < codes.len() ==> precedes(#[trigger] codes[i], #[trigger] codes[j])
            &&& codes.len() == if limit <= devices.len() {
                limit
            } else {
                devices.len()
            }
            &&& limit >= devices.len() ==> codes.to_set() == devices
        }),
{
    let count = rounds.len();
    assert(exists|d: u64| devices.contains(d)) by {
        assert(devices.contains(devices.choose()));
    }
    lemma_in_order(devices, rounds, marks, limit, before, after, count);
    let end = survey(rounds, count);
    let codes = end.codes;
    assert(codes.no_duplicates()) by {
        assert forall|i: int, j: int|
            0 <= i < codes.len() && 0 <= j < codes.len() && i != j implies codes[i] != codes[j] by {
            if i < j {
                lemma_precedes_asymmetric(codes[i], codes[j]);
            } else {
                lemma_precedes_asymmetric(codes[j], codes[i]);
            }
        }
    }
    let listed = codes.to_set();
    assert(listed.subset_of(devices)) by {
        assert forall|d: u64| listed.contains(d) implies devices.contains(d) by {
            let i = choose|i: int| 0 <= i < codes.len() && codes[i] == d;
            assert(devices.contains(codes[i]));
        }
    }
    lemma_len_subset(listed, devices);
    codes.unique_seq_to_set();
    if !running(end) {
        // Nothing is left pending: the device found last is the last of
        // all, and every device up to it has been listed.
        let final_code = codes[count - 1];
        lemma_exhausted(devices, final_code, end.pending);
        assert forall|d: u64| devices.contains(d) implies listed.contains(d) by {
            if d != final_code {
                lemma_precedes_total(d, final_code);
            }
            assert(codes.contains(d));
        }
        assert(listed =~= devices);
    } else if limit >= devices.len() {
        lemma_subset_equality(listed, devices);
    }
}

} // verus!
