//! Bytes as they travel on the wire: eight bits each, least significant first.

use vstd::prelude::*;

verus! {

/// Bit `index` of `byte`, bit 0 being the least significant.
pub open spec fn bit_of(byte: u8, index: u32) -> bool {
    (byte >> index) & 1 == 1
}

/// The eight bits of `byte` in the order they are sent.
pub open spec fn bits_of(byte: u8) -> Seq<bool> {
    Seq::new(8, |i: int| bit_of(byte, i as u32))
}

/// The bits of a run of bytes in the order they are sent: byte after byte,
/// each least significant bit first.
pub open spec fn bits_of_bytes(bytes: Seq<u8>) -> Seq<bool> {
    Seq::new(8 * bytes.len(), |i: int| bit_of(bytes[i / 8], (i % 8) as u32))
}

/// The byte that eight received bits make up, the first one being the least
/// significant.
pub open spec fn byte_of(bits: Seq<bool>) -> u8
    recommends
        bits.len() == 8,
{
    (if bits[0] { 0x01u8 } else { 0 }) | (if bits[1] { 0x02u8 } else { 0 }) | (if bits[2] {
        0x04u8
    } else {
        0
    }) | (if bits[3] { 0x08u8 } else { 0 }) | (if bits[4] { 0x10u8 } else { 0 }) | (if bits[5] {
        0x20u8
    } else {
        0
    }) | (if bits[6] { 0x40u8 } else { 0 }) | (if bits[7] { 0x80u8 } else { 0 })
}

/// Setting one bit changes that bit and no other.
pub proof fn lemma_set_bit(byte: u8, index: u32, other: u32)
    by (bit_vector)
    requires
        index < 8,
        other < 8,
    ensures
        bit_of(byte | (1u8 << index), other) == (other == index || bit_of(byte, other)),
        !bit_of(0u8, other),
{
}

/// Eight bits joined into a byte are the bits of that byte.
proof fn lemma_join(b0: bool, b1: bool, b2: bool, b3: bool, b4: bool, b5: bool, b6: bool, b7: bool)
    by (bit_vector)
    ensures
        ({
            let byte = (if b0 { 0x01u8 } else { 0 }) | (if b1 { 0x02u8 } else { 0 }) | (if b2 {
                0x04u8
            } else {
                0
            }) | (if b3 { 0x08u8 } else { 0 }) | (if b4 { 0x10u8 } else { 0 }) | (if b5 {
                0x20u8
            } else {
                0
            }) | (if b6 { 0x40u8 } else { 0 }) | (if b7 { 0x80u8 } else { 0 });
            &&& ((byte >> 0u32) & 1 == 1) == b0
            &&& ((byte >> 1u32) & 1 == 1) == b1
            &&& ((byte >> 2u32) & 1 == 1) == b2
            &&& ((byte >> 3u32) & 1 == 1) == b3
            &&& ((byte >> 4u32) & 1 == 1) == b4
            &&& ((byte >> 5u32) & 1 == 1) == b5
            &&& ((byte >> 6u32) & 1 == 1) == b6
            &&& ((byte >> 7u32) & 1 == 1) == b7
        }),
{
}

/// A byte is its eight bits joined.
proof fn lemma_split(byte: u8)
    by (bit_vector)
    ensures
        byte == (if (byte >> 0u32) & 1 == 1 { 0x01u8 } else { 0 }) | (if (byte >> 1u32) & 1 == 1 {
            0x02u8
        } else {
            0
        }) | (if (byte >> 2u32) & 1 == 1 { 0x04u8 } else { 0 }) | (if (byte >> 3u32) & 1 == 1 {
            0x08u8
        } else {
            0
        }) | (if (byte >> 4u32) & 1 == 1 { 0x10u8 } else { 0 }) | (if (byte >> 5u32) & 1 == 1 {
            0x20u8
        } else {
            0
        }) | (if (byte >> 6u32) & 1 == 1 { 0x40u8 } else { 0 }) | (if (byte >> 7u32) & 1 == 1 {
            0x80u8
        } else {
            0
        }),
{
}

/// A byte sent bit by bit and put together again is the same byte: what
/// goes out least significant bit first comes back bit for bit.
pub proof fn lemma_byte_round_trip(byte: u8)
    ensures
        bits_of(byte).len() == 8,
        byte_of(bits_of(byte)) == byte,
{
    lemma_split(byte);
}

/// Eight bits put together into a byte and taken apart again are the same
/// eight bits.
pub proof fn lemma_bits_round_trip(bits: Seq<bool>)
    requires
        bits.len() == 8,
    ensures
        bits_of(byte_of(bits)) == bits,
{
    lemma_join(bits[0], bits[1], bits[2], bits[3], bits[4], bits[5], bits[6], bits[7]);
    assert(bits_of(byte_of(bits)) =~= bits);
}

/// The bits of a run of bytes with one more byte are the bits of the run
/// followed by the bits of that byte.
pub proof fn lemma_bits_of_bytes_push(bytes: Seq<u8>, byte: u8)
    ensures
        bits_of_bytes(bytes.push(byte)) == bits_of_bytes(bytes) + bits_of(byte),
        bits_of_bytes(Seq::<u8>::empty()) == Seq::<bool>::empty(),
{
    let whole = bits_of_bytes(bytes.push(byte));
    let parts = bits_of_bytes(bytes) + bits_of(byte);
    assert(whole.len() == parts.len());
    assert forall|i: int| 0 <= i < whole.len() implies whole[i] == parts[i] by {
        if i < 8 * bytes.len() {
            assert(i / 8 < bytes.len());
        } else {
            let j = i - 8 * bytes.len();
            assert(i / 8 == bytes.len());
            assert(i % 8 == j);
        }
    }
    assert(whole =~= parts);
    assert(bits_of_bytes(Seq::<u8>::empty()) =~= Seq::<bool>::empty());
}

/// The bits of the first bytes of a run are the first bits of the run.
pub proof fn lemma_bits_of_bytes_take(bytes: Seq<u8>, count: int)
    requires
        0 <= count <= bytes.len(),
    ensures
        bits_of_bytes(bytes.take(count)) == bits_of_bytes(bytes).take(8 * count),
{
    let part = bits_of_bytes(bytes.take(count));
    let all = bits_of_bytes(bytes).take(8 * count);
    assert(part.len() == all.len());
    assert forall|i: int| 0 <= i < part.len() implies part[i] == all[i] by {
        assert(i / 8 < count);
        assert(bytes.take(count)[i / 8] == bytes[i / 8]);
    }
    assert(part =~= all);
}

/// Two bytes with the same bits are the same byte.
pub proof fn lemma_bits_determine_byte(a: u8, b: u8)
    requires
        bits_of(a) == bits_of(b),
    ensures
        a == b,
{
    lemma_byte_round_trip(a);
    lemma_byte_round_trip(b);
}

/// Two runs of bytes of the same length with the same bits are the same.
pub proof fn lemma_bits_determine_bytes(a: Seq<u8>, b: Seq<u8>)
    requires
        a.len() == b.len(),
        bits_of_bytes(a) == bits_of_bytes(b),
    ensures
        a == b,
{
    assert forall|k: int| 0 <= k < a.len() implies a[k] == b[k] by {
        assert forall|i: int| 0 <= i < 8 implies bits_of(a[k])[i] == bits_of(b[k])[i] by {
            let position = 8 * k + i;
            assert(position / 8 == k);
            assert(position % 8 == i);
            assert(bits_of_bytes(a)[position] == bit_of(a[k], i as u32));
            assert(bits_of_bytes(b)[position] == bit_of(b[k], i as u32));
        }
        assert(bits_of(a[k]) =~= bits_of(b[k]));
        lemma_bits_determine_byte(a[k], b[k]);
    }
    assert(a =~= b);
}

} // verus!
