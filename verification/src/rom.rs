//! The 64-bit identifier every device carries.

use crate::crc8::{check, checked, checksum};
use crate::error::Error;
use vstd::prelude::*;

verus! {

/// The eight bytes of a 64-bit value, least significant byte first.
pub open spec fn le_bytes(code: u64) -> Seq<u8> {
    seq![
        (code & 0xff) as u8,
        ((code >> 8) & 0xff) as u8,
        ((code >> 16) & 0xff) as u8,
        ((code >> 24) & 0xff) as u8,
        ((code >> 32) & 0xff) as u8,
        ((code >> 40) & 0xff) as u8,
        ((code >> 48) & 0xff) as u8,
        ((code >> 56) & 0xff) as u8,
    ]
}

/// The 64-bit value whose bytes, least significant first, are the first eight
/// of `bytes`.
pub open spec fn from_le_bytes(bytes: Seq<u8>) -> u64
    recommends
        bytes.len() == 8,
{
    (bytes[0] as u64) | (bytes[1] as u64) << 8 | (bytes[2] as u64) << 16 | (bytes[3] as u64) << 24
        | (bytes[4] as u64) << 32 | (bytes[5] as u64) << 40 | (bytes[6] as u64) << 48 | (
    bytes[7] as u64) << 56
}

/// Bytes joined into a value and split again are the same bytes.
proof fn lemma_unpack_pack(b0: u8, b1: u8, b2: u8, b3: u8, b4: u8, b5: u8, b6: u8, b7: u8)
    by (bit_vector)
    ensures
        ({
            let code = (b0 as u64) | (b1 as u64) << 8 | (b2 as u64) << 16 | (b3 as u64) << 24 | (
            b4 as u64) << 32 | (b5 as u64) << 40 | (b6 as u64) << 48 | (b7 as u64) << 56;
            &&& (code & 0xff) as u8 == b0
            &&& ((code >> 8) & 0xff) as u8 == b1
            &&& ((code >> 16) & 0xff) as u8 == b2
            &&& ((code >> 24) & 0xff) as u8 == b3
            &&& ((code >> 32) & 0xff) as u8 == b4
            &&& ((code >> 40) & 0xff) as u8 == b5
            &&& ((code >> 48) & 0xff) as u8 == b6
            &&& ((code >> 56) & 0xff) as u8 == b7
        }),
{
}

/// A value split into bytes and joined again is the same value.
proof fn lemma_pack_unpack(code: u64)
    by (bit_vector)
    ensures
        code == (((code & 0xff) as u8) as u64) | ((((code >> 8) & 0xff) as u8) as u64) << 8 | ((((
        code >> 16) & 0xff) as u8) as u64) << 16 | ((((code >> 24) & 0xff) as u8) as u64) << 24 | (
        (((code >> 32) & 0xff) as u8) as u64) << 32 | ((((code >> 40) & 0xff) as u8) as u64) << 40
            | ((((code >> 48) & 0xff) as u8) as u64) << 48 | ((((code >> 56) & 0xff) as u8) as u64)
            << 56,
{
}

/// Splitting a value into bytes and joining them again gives the value back,
/// and the other way round.
pub proof fn lemma_le_bytes_inverse(code: u64, bytes: Seq<u8>)
    requires
        bytes.len() == 8,
    ensures
        le_bytes(code).len() == 8,
        from_le_bytes(le_bytes(code)) == code,
        le_bytes(from_le_bytes(bytes)) == bytes,
{
    lemma_pack_unpack(code);
    lemma_unpack_pack(
        bytes[0],
        bytes[1],
        bytes[2],
        bytes[3],
        bytes[4],
        bytes[5],
        bytes[6],
        bytes[7],
    );
    assert(le_bytes(from_le_bytes(bytes)) =~= bytes);
}

/// A device identifier: one byte of family code, six bytes of serial number
/// and one byte of CRC-8 over the seven before it.
///
/// A `Rom` exists only for identifiers whose CRC byte is right; it cannot be
/// changed once made, and two are equal exactly when all 64 bits are.
#[derive(Clone, Copy, Debug, PartialEq, Eq, Structural)]
pub struct Rom {
    code: u64,
}

impl View for Rom {
    type V = Seq<u8>;

    /// The identifier as it travels on the wire: family code first, CRC last.
    open spec fn view(&self) -> Seq<u8> {
        le_bytes(self.code())
    }
}

fn split(code: u64) -> (bytes: [u8; 8])
    ensures
        bytes@ == le_bytes(code),
{
    let bytes = [
        (code & 0xff) as u8,
        ((code >> 8) & 0xff) as u8,
        ((code >> 16) & 0xff) as u8,
        ((code >> 24) & 0xff) as u8,
        ((code >> 32) & 0xff) as u8,
        ((code >> 40) & 0xff) as u8,
        ((code >> 48) & 0xff) as u8,
        ((code >> 56) & 0xff) as u8,
    ];
    assert(bytes@ =~= le_bytes(code));
    bytes
}

impl Rom {
    /// The identifier as a 64-bit value, family code in the lowest byte.
    pub closed spec fn code(&self) -> u64 {
        self.code
    }

    /// The invariant of every identifier: the checksum over all eight bytes
    /// is zero.
    pub open spec fn valid(&self) -> bool {
        checksum(self@) == 0
    }

    #[verifier::type_invariant]
    spec fn crc_holds(self) -> bool {
        self.valid()
    }

    /// What [`Rom::from_u64`] answers for `code`.
    pub open spec fn parse(code: u64) -> Result<u64, Error> {
        match checked(le_bytes(code)) {
            Ok(()) => Ok(code),
            Err(e) => Err(e),
        }
    }

    /// Makes an identifier from the 64-bit value accumulated during a search,
    /// bit 0 being the first bit that came off the wire.
    ///
    /// Fails with the CRC mismatch, and yields nothing, unless the top byte
    /// is the CRC-8 of the seven below it.
    pub fn from_u64(code: u64) -> (result: Result<Rom, Error>)
        ensures
            match result {
                Ok(rom) => Rom::parse(code) == Ok::<u64, Error>(rom.code()) && rom.valid(),
                Err(e) => Rom::parse(code) == Err::<u64, Error>(e),
            },
    {
        let bytes = split(code);
        match check(&bytes) {
            Ok(()) => Ok(Rom { code }),
            Err(e) => Err(e),
        }
    }

    /// Makes an identifier from the eight bytes read off the wire, family
    /// code first.
    ///
    /// Fails with the CRC mismatch, and yields nothing, unless the last byte
    /// is the CRC-8 of the seven before it.
    pub fn from_bytes(bytes: [u8; 8]) -> (result: Result<Rom, Error>)
        ensures
            match result {
                Ok(rom) => checked(bytes@) is Ok && rom@ == bytes@ && rom.valid(),
                Err(e) => checked(bytes@) == Err::<(), Error>(e),
            },
    {
        match check(&bytes) {
            Ok(()) => {
                let code = (bytes[0] as u64) | (bytes[1] as u64) << 8 | (bytes[2] as u64) << 16 | (
                bytes[3] as u64) << 24 | (bytes[4] as u64) << 32 | (bytes[5] as u64) << 40 | (
                bytes[6] as u64) << 48 | (bytes[7] as u64) << 56;
                proof {
                    assert(code == from_le_bytes(bytes@));
                    lemma_le_bytes_inverse(code, bytes@);
                }
                Ok(Rom { code })
            },
            Err(e) => Err(e),
        }
    }

    /// The identifier as a 64-bit value, family code in the lowest byte.
    pub fn to_u64(&self) -> (code: u64)
        ensures
            code == self.code(),
            self.valid(),
    {
        proof {
            use_type_invariant(self);
        }
        self.code
    }

    /// The eight bytes in wire order: family code first, CRC last.
    pub fn to_bytes(&self) -> (bytes: [u8; 8])
        ensures
            bytes@ == self@,
            self.valid(),
    {
        proof {
            use_type_invariant(self);
        }
        split(self.code)
    }

    /// The family code: the first byte.
    pub fn family_code(&self) -> (family: u8)
        ensures
            family == self@[0],
    {
        (self.code & 0xff) as u8
    }

    /// The serial number: the six bytes between family code and CRC.
    pub fn serial_number(&self) -> (serial: [u8; 6])
        ensures
            serial@ == self@.subrange(1, 7),
    {
        let bytes = split(self.code);
        let serial = [bytes[1], bytes[2], bytes[3], bytes[4], bytes[5], bytes[6]];
        assert(serial@ =~= self@.subrange(1, 7));
        serial
    }

    /// The CRC byte: the last one.
    pub fn crc(&self) -> (crc: u8)
        ensures
            crc == self@[7],
            crc == checksum(self@.take(7)),
    {
        proof {
            use_type_invariant(self);
            lemma_crc_byte(self@);
        }
        ((self.code >> 56) & 0xff) as u8
    }
}

/// An identifier is its 64 bits: two with the same bits are the same.
pub proof fn lemma_code_determines(a: Rom, b: Rom)
    requires
        a.code() == b.code(),
    ensures
        a == b,
{
}

/// In a sequence that checks out, the last byte is the checksum of the rest.
pub proof fn lemma_crc_byte(bytes: Seq<u8>)
    requires
        bytes.len() > 0,
        checksum(bytes) == 0,
    ensures
        bytes.last() == checksum(bytes.drop_last()),
{
    if bytes.last() != checksum(bytes.drop_last()) {
        crate::crc8::lemma_wrong_trailer_rejected(bytes.drop_last(), bytes.last());
        assert(bytes.drop_last().push(bytes.last()) =~= bytes);
    }
}

} // verus!
