//! The Dallas/Maxim CRC-8: polynomial x^8 + x^5 + x^4 + 1, reflected, initial
//! value zero.
//!
//! The checksum is defined the way the devices compute it: a shift register
//! that takes the message one bit at a time, least significant bit of each
//! byte first. The executable code works a byte at a time and is proved to
//! agree with that definition.

use crate::error::Error;
use vstd::prelude::*;

verus! {

/// The reflected polynomial, as the mask the shift register is XOR-ed with.
pub const POLYNOMIAL: u8 = 0x8C;

/// The shift register after taking one message bit.
pub open spec fn shift_bit(register: u8, bit: bool) -> u8 {
    if ((register & 1) == 1) != bit {
        (register >> 1) ^ POLYNOMIAL
    } else {
        register >> 1
    }
}

/// The shift register after taking the eight bits of `byte`, least
/// significant first.
pub open spec fn shift_byte(register: u8, byte: u8) -> u8 {
    let r0 = shift_bit(register, byte & 0x01 != 0);
    let r1 = shift_bit(r0, byte & 0x02 != 0);
    let r2 = shift_bit(r1, byte & 0x04 != 0);
    let r3 = shift_bit(r2, byte & 0x08 != 0);
    let r4 = shift_bit(r3, byte & 0x10 != 0);
    let r5 = shift_bit(r4, byte & 0x20 != 0);
    let r6 = shift_bit(r5, byte & 0x40 != 0);
    shift_bit(r6, byte & 0x80 != 0)
}

/// The CRC-8 of a byte sequence: the register, started at zero, after taking
/// every byte in order.
pub open spec fn checksum(bytes: Seq<u8>) -> u8
    decreases bytes.len(),
{
    if bytes.len() == 0 {
        0
    } else {
        shift_byte(checksum(bytes.drop_last()), bytes.last())
    }
}

/// What [`check`] answers for a byte sequence: accepted when the checksum over
/// all of it, trailing CRC byte included, is zero; otherwise rejected with the
/// residue.
pub open spec fn checked(bytes: Seq<u8>) -> Result<(), Error> {
    if checksum(bytes) == 0 {
        Ok(())
    } else {
        Err(Error::MismatchedCrc { crc8: checksum(bytes) })
    }
}

/// One turn of the register with nothing fed in.
spec fn turn(register: u8) -> u8 {
    if register & 1 == 1 {
        (register >> 1) ^ POLYNOMIAL
    } else {
        register >> 1
    }
}

fn turned(register: u8) -> (next: u8)
    ensures
        next == turn(register),
{
    if register & 1 == 1 {
        (register >> 1) ^ POLYNOMIAL
    } else {
        register >> 1
    }
}

/// Folding a whole byte into the register and turning it eight times is the
/// same as feeding the byte bit by bit.
proof fn lemma_bytewise(register: u8, byte: u8)
    ensures
        turn(turn(turn(turn(turn(turn(turn(turn(register ^ byte)))))))) == shift_byte(
            register,
            byte,
        ),
{
    assert(turn(turn(turn(turn(turn(turn(turn(turn(register ^ byte)))))))) == shift_byte(
        register,
        byte,
    )) by (bit_vector);
}

fn update(register: u8, byte: u8) -> (next: u8)
    ensures
        next == shift_byte(register, byte),
{
    let mut r: u8 = register ^ byte;
    r = turned(r);
    r = turned(r);
    r = turned(r);
    r = turned(r);
    r = turned(r);
    r = turned(r);
    r = turned(r);
    r = turned(r);
    proof {
        lemma_bytewise(register, byte);
    }
    r
}

/// Computes the CRC-8 of `bytes`.
pub fn calculate(bytes: &[u8]) -> (crc: u8)
    ensures
        crc == checksum(bytes@),
{
    let mut crc: u8 = 0;
    let mut i: usize = 0;
    while i < bytes.len()
        invariant
            i <= bytes.len(),
            crc == checksum(bytes@.take(i as int)),
        decreases bytes.len() - i,
    {
        proof {
            let next = bytes@.take(i + 1);
            assert(next.drop_last() =~= bytes@.take(i as int));
            assert(next.last() == bytes@[i as int]);
        }
        crc = update(crc, bytes[i]);
        i += 1;
    }
    proof {
        assert(bytes@.take(bytes.len() as int) =~= bytes@);
    }
    crc
}

/// Validates a byte sequence that ends in its own CRC byte.
///
/// The checksum is run across every byte, the trailing one included, and must
/// come out as zero. A mismatch is reported with the residue that was
/// computed; nothing is corrected.
pub fn check(bytes: &[u8]) -> (result: Result<(), Error>)
    ensures
        result == checked(bytes@),
{
    let crc = calculate(bytes);
    if crc == 0 {
        Ok(())
    } else {
        Err(Error::MismatchedCrc { crc8: crc })
    }
}

/// Feeding the register its own content empties it.
pub proof fn lemma_shift_own_value(register: u8)
    ensures
        shift_byte(register, register) == 0,
{
    assert(shift_byte(register, register) == 0) by (bit_vector);
}

/// The round-trip law of the CRC: a message followed by its checksum has the
/// checksum zero, so [`check`] accepts it.
pub proof fn lemma_round_trip(message: Seq<u8>)
    ensures
        checksum(message.push(checksum(message))) == 0,
        checked(message.push(checksum(message))) == Ok::<(), Error>(()),
{
    let framed = message.push(checksum(message));
    assert(framed.drop_last() =~= message);
    assert(framed.last() == checksum(message));
    lemma_shift_own_value(checksum(message));
}

/// A checksum byte other than the right one is always caught.
pub proof fn lemma_wrong_trailer_rejected(message: Seq<u8>, trailer: u8)
    requires
        trailer != checksum(message),
    ensures
        checksum(message.push(trailer)) != 0,
        checked(message.push(trailer)) is Err,
{
    let framed = message.push(trailer);
    assert(framed.drop_last() =~= message);
    assert(framed.last() == trailer);
    let register = checksum(message);
    assert(register != trailer ==> shift_byte(register, trailer) != 0) by (bit_vector);
}

} // verus!
