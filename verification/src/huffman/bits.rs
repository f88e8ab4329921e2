//! Bits and bytes: how a sequence of bits is packed into bytes, most
//! significant bit first, and read back.

use vstd::prelude::*;

verus! {

/// Bit `i` of `byte`, counted from the most significant bit, which is bit 0.
pub open spec fn bit_at(byte: u8, i: int) -> bool {
    (byte >> ((7 - i) as u8)) & 1 == 1
}

/// The bits of a sequence of bytes, eight per byte, most significant first.
pub open spec fn bits_of(bytes: Seq<u8>) -> Seq<bool> {
    Seq::new(8 * bytes.len(), |k: int| bit_at(bytes[k / 8], k % 8))
}

/// `n` zero bits.
pub open spec fn zeros(n: nat) -> Seq<bool> {
    Seq::new(n, |k: int| false)
}

/// The number of zero bits, 0 to 7, that bring `n` bits up to a whole number
/// of bytes.
pub open spec fn padding_for(n: nat) -> nat {
    if n % 8 == 0 {
        0
    } else {
        (8 - n % 8) as nat
    }
}

/// `weight` where `bit` is set, else 0.
pub open spec fn bit_value(bit: bool, weight: u8) -> u8 {
    if bit {
        weight
    } else {
        0
    }
}

/// The byte whose bits, most significant first, are `b0` to `b7`.
pub open spec fn byte_of_bits(
    b0: bool,
    b1: bool,
    b2: bool,
    b3: bool,
    b4: bool,
    b5: bool,
    b6: bool,
    b7: bool,
) -> u8 {
    (bit_value(b0, 128) + bit_value(b1, 64) + bit_value(b2, 32) + bit_value(b3, 16) + bit_value(
        b4,
        8,
    ) + bit_value(b5, 4) + bit_value(b6, 2) + bit_value(b7, 1)) as u8
}

/// Bit `k` of `bits`, and zero past their end.
pub open spec fn bit_or_zero(bits: Seq<bool>, k: int) -> bool {
    0 <= k < bits.len() && bits[k]
}

/// Byte `m` of the packed form of `bits`.
pub open spec fn packed_byte(bits: Seq<bool>, m: int) -> u8 {
    byte_of_bits(
        bit_or_zero(bits, 8 * m),
        bit_or_zero(bits, 8 * m + 1),
        bit_or_zero(bits, 8 * m + 2),
        bit_or_zero(bits, 8 * m + 3),
        bit_or_zero(bits, 8 * m + 4),
        bit_or_zero(bits, 8 * m + 5),
        bit_or_zero(bits, 8 * m + 6),
        bit_or_zero(bits, 8 * m + 7),
    )
}

/// The packed form of `bits`: eight bits per byte, most significant first, the
/// last byte filled up with zero bits.
pub open spec fn pack(bits: Seq<bool>) -> Seq<u8> {
    Seq::new((bits.len() + 7) / 8, |m: int| packed_byte(bits, m))
}

/// Each bit of `byte_of_bits` is the bit that it was made from.
pub proof fn lemma_byte_of_bits(
    b0: bool,
    b1: bool,
    b2: bool,
    b3: bool,
    b4: bool,
    b5: bool,
    b6: bool,
    b7: bool,
)
    ensures
        bit_at(byte_of_bits(b0, b1, b2, b3, b4, b5, b6, b7), 0) == b0,
        bit_at(byte_of_bits(b0, b1, b2, b3, b4, b5, b6, b7), 1) == b1,
        bit_at(byte_of_bits(b0, b1, b2, b3, b4, b5, b6, b7), 2) == b2,
        bit_at(byte_of_bits(b0, b1, b2, b3, b4, b5, b6, b7), 3) == b3,
        bit_at(byte_of_bits(b0, b1, b2, b3, b4, b5, b6, b7), 4) == b4,
        bit_at(byte_of_bits(b0, b1, b2, b3, b4, b5, b6, b7), 5) == b5,
        bit_at(byte_of_bits(b0, b1, b2, b3, b4, b5, b6, b7), 6) == b6,
        bit_at(byte_of_bits(b0, b1, b2, b3, b4, b5, b6, b7), 7) == b7,
{
    let x = byte_of_bits(b0, b1, b2, b3, b4, b5, b6, b7);
    let v0 = bit_value(b0, 128);
    let v1 = bit_value(b1, 64);
    let v2 = bit_value(b2, 32);
    let v3 = bit_value(b3, 16);
    let v4 = bit_value(b4, 8);
    let v5 = bit_value(b5, 4);
    let v6 = bit_value(b6, 2);
    let v7 = bit_value(b7, 1);
    assert(x == v0 | v1 | v2 | v3 | v4 | v5 | v6 | v7 && ((x >> 7u8) & 1 == 1) == (v0 == 128)
        && ((x >> 6u8) & 1 == 1) == (v1 == 64) && ((x >> 5u8) & 1 == 1) == (v2 == 32) && ((x
        >> 4u8) & 1 == 1) == (v3 == 16) && ((x >> 3u8) & 1 == 1) == (v4 == 8) && ((x >> 2u8) & 1
        == 1) == (v5 == 4) && ((x >> 1u8) & 1 == 1) == (v6 == 2) && ((x >> 0u8) & 1 == 1) == (v7
        == 1)) by (bit_vector)
        requires
            v0 == 0 || v0 == 128,
            v1 == 0 || v1 == 64,
            v2 == 0 || v2 == 32,
            v3 == 0 || v3 == 16,
            v4 == 0 || v4 == 8,
            v5 == 0 || v5 == 4,
            v6 == 0 || v6 == 2,
            v7 == 0 || v7 == 1,
            x == (v0 + v1 + v2 + v3 + v4 + v5 + v6 + v7) as u8,
    ;
}

/// The bits of the packed form are the bits that were packed, followed by the
/// padding.
pub proof fn lemma_pack(bits: Seq<bool>)
    ensures
        8 * pack(bits).len() == bits.len() + padding_for(bits.len()),
        bits_of(pack(bits)) == bits + zeros(padding_for(bits.len())),
{
    let packed = pack(bits);
    let padded = bits + zeros(padding_for(bits.len()));
    assert(bits_of(packed).len() == padded.len());
    assert forall|k: int| 0 <= k < padded.len() implies bits_of(packed)[k] == padded[k] by {
        let m = k / 8;
        lemma_byte_of_bits(
            bit_or_zero(bits, 8 * m),
            bit_or_zero(bits, 8 * m + 1),
            bit_or_zero(bits, 8 * m + 2),
            bit_or_zero(bits, 8 * m + 3),
            bit_or_zero(bits, 8 * m + 4),
            bit_or_zero(bits, 8 * m + 5),
            bit_or_zero(bits, 8 * m + 6),
            bit_or_zero(bits, 8 * m + 7),
        );
        assert(bit_at(packed[m], k % 8) == bit_or_zero(bits, k));
    }
    assert(bits_of(packed) =~= padded);
}

/// Bit `k` of `bits`, and zero past their end.
fn bit_or_zero_at(bits: &Vec<bool>, base: usize, offset: usize) -> (bit: bool)
    requires
        base <= bits.len(),
        offset < 8,
    ensures
        bit == bit_or_zero(bits@, base + offset),
{
    offset < bits.len() - base && bits[base + offset]
}

/// `weight` where `bit` is set, else 0.
fn value_of(bit: bool, weight: u8) -> (value: u8)
    ensures
        value == bit_value(bit, weight),
{
    if bit {
        weight
    } else {
        0
    }
}

/// Packs `bits` into bytes, eight bits per byte and the most significant bit
/// first. The last byte is filled up with zero bits; their number, 0 to 7, is
/// the second component of the result.
pub fn pack_bits(bits: &Vec<bool>) -> (packed: (Vec<u8>, u8))
    ensures
        packed.0@ == pack(bits@),
        packed.1 == padding_for(bits@.len()),
        bits_of(packed.0@) == bits@ + zeros(packed.1 as nat),
{
    let mut bytes: Vec<u8> = Vec::new();
    let whole: usize = bits.len() / 8;
    let count: usize = if bits.len() % 8 == 0 {
        whole
    } else {
        whole + 1
    };
    let mut m: usize = 0;
    while m < count
        invariant
            m <= count,
            count == (bits.len() + 7) / 8,
            bytes@.len() == m,
            forall|n: int| 0 <= n < m ==> bytes@[n] == packed_byte(bits@, n),
        decreases count - m,
    {
        let base: usize = m * 8;
        let byte: u8 = value_of(bit_or_zero_at(bits, base, 0), 128) + value_of(
            bit_or_zero_at(bits, base, 1),
            64,
        ) + value_of(bit_or_zero_at(bits, base, 2), 32) + value_of(
            bit_or_zero_at(bits, base, 3),
            16,
        ) + value_of(bit_or_zero_at(bits, base, 4), 8) + value_of(
            bit_or_zero_at(bits, base, 5),
            4,
        ) + value_of(bit_or_zero_at(bits, base, 6), 2) + value_of(
            bit_or_zero_at(bits, base, 7),
            1,
        );
        assert(byte == packed_byte(bits@, m as int));
        bytes.push(byte);
        m += 1;
    }
    let padding: u8 = if bits.len() % 8 == 0 {
        0
    } else {
        (8 - bits.len() % 8) as u8
    };
    proof {
        assert(bytes@ =~= pack(bits@));
        lemma_pack(bits@);
    }
    (bytes, padding)
}

/// Reads bit `i` of `byte`, counted from the most significant bit.
pub fn read_bit(byte: u8, i: u8) -> (bit: bool)
    requires
        i < 8,
    ensures
        bit == bit_at(byte, i as int),
{
    let shift: u8 = 7 - i;
    (byte >> shift) & 1 == 1
}

} // verus!
