//! Sequences of bits: how a field of any width is laid out in bits, and how
//! bits are laid out in bytes.
//!
//! A field is laid out most significant bit first, and bytes are filled from
//! their most significant bit down, so the first bit of a stream is the top
//! bit of its first byte.

use vstd::arithmetic::div_mod::{
    lemma_basic_div,
    lemma_div_denominator,
    lemma_fundamental_div_mod,
    lemma_fundamental_div_mod_converse,
};
use vstd::arithmetic::power2::{
    lemma2_to64,
    lemma_pow2_pos,
    lemma_pow2_unfold,
    pow2,
};
use vstd::prelude::*;

verus! {

/// Whether the binary digit of weight `2^index` is set in `value`.
pub open spec fn bit_of(value: nat, index: nat) -> bool {
    (value / pow2(index)) % 2 == 1
}

/// The `width` binary digits of a field that holds `value`, most significant
/// first. Digits above the 64th are zero; digits of `value` that do not fit in
/// `width` are left out.
pub open spec fn field_bits(value: u64, width: nat) -> Seq<bool> {
    Seq::new(width, |i: int| bit_of(value as nat, (width - 1 - i) as nat))
}

/// The number whose binary digits, most significant first, are `bits`.
pub open spec fn bits_value(bits: Seq<bool>) -> nat
    decreases bits.len(),
{
    if bits.len() == 0 {
        0
    } else {
        2 * bits_value(bits.drop_last()) + if bits.last() {
            1nat
        } else {
            0nat
        }
    }
}

/// What a reader makes of the digits of one field: their number, reduced
/// modulo `2^64` where the field is wider than 64 bits.
pub open spec fn field_value(bits: Seq<bool>) -> u64 {
    (bits_value(bits) % 0x1_0000_0000_0000_0000) as u64
}

/// The bits that a byte sequence holds, eight per byte, top bit first.
pub open spec fn unpack_bits(bytes: Seq<u8>) -> Seq<bool> {
    Seq::new(8 * bytes.len(), |i: int| bit_of(bytes[i / 8] as nat, (7 - i % 8) as nat))
}

/// The bit at place `i` of `bits`; places past the end count as unset.
pub open spec fn bit_at(bits: Seq<bool>, i: int) -> bool {
    0 <= i < bits.len() && bits[i]
}

/// `weight` if `digit` is set, else zero.
pub open spec fn weighted(digit: bool, weight: nat) -> nat {
    if digit {
        weight
    } else {
        0
    }
}

/// The byte with the given binary digits, top digit first.
pub open spec fn byte_of_digits(
    d7: bool,
    d6: bool,
    d5: bool,
    d4: bool,
    d3: bool,
    d2: bool,
    d1: bool,
    d0: bool,
) -> u8 {
    (weighted(d7, 128) + weighted(d6, 64) + weighted(d5, 32) + weighted(d4, 16) + weighted(d3, 8)
        + weighted(d2, 4) + weighted(d1, 2) + weighted(d0, 1)) as u8
}

/// Byte number `k` of the packing of `bits`.
pub open spec fn packed_byte(bits: Seq<bool>, k: int) -> u8 {
    byte_of_digits(
        bit_at(bits, 8 * k),
        bit_at(bits, 8 * k + 1),
        bit_at(bits, 8 * k + 2),
        bit_at(bits, 8 * k + 3),
        bit_at(bits, 8 * k + 4),
        bit_at(bits, 8 * k + 5),
        bit_at(bits, 8 * k + 6),
        bit_at(bits, 8 * k + 7),
    )
}

/// The bytes of a flushed stream that holds `bits`: the last byte is filled up
/// with zero bits.
pub open spec fn pack_bits(bits: Seq<bool>) -> Seq<u8> {
    Seq::new(((bits.len() + 7) / 8) as nat, |k: int| packed_byte(bits, k))
}

/// The number of zero bits that a flush adds to a stream of `len` bits.
pub open spec fn padding(len: nat) -> nat {
    ((8 - len % 8) % 8) as nat
}

/// `n` unset bits.
pub open spec fn zero_bits(n: nat) -> Seq<bool> {
    Seq::new(n, |i: int| false)
}

/// Doubling a number and adding a digit shifts its digits up by one place.
pub proof fn lemma_bit_of_double(value: nat, low: bool, index: nat)
    ensures
        bit_of(2 * value + if low { 1nat } else { 0nat }, 0) == low,
        bit_of(2 * value + if low { 1nat } else { 0nat }, index + 1) == bit_of(value, index),
{
    let doubled: nat = 2 * value + if low { 1nat } else { 0nat };
    lemma2_to64();
    lemma_pow2_unfold(index + 1);
    lemma_pow2_pos(index);
    assert(pow2(index + 1) == 2 * pow2(index));
    lemma_div_denominator(doubled as int, 2, pow2(index) as int);
    assert(doubled / 2 == value);
}

/// The digits of a byte, by constant divisors.
pub proof fn lemma_byte_bits(byte: u8)
    ensures
        bit_of(byte as nat, 7) == (byte / 128 % 2 == 1),
        bit_of(byte as nat, 6) == (byte / 64 % 2 == 1),
        bit_of(byte as nat, 5) == (byte / 32 % 2 == 1),
        bit_of(byte as nat, 4) == (byte / 16 % 2 == 1),
        bit_of(byte as nat, 3) == (byte / 8 % 2 == 1),
        bit_of(byte as nat, 2) == (byte / 4 % 2 == 1),
        bit_of(byte as nat, 1) == (byte / 2 % 2 == 1),
        bit_of(byte as nat, 0) == (byte % 2 == 1),
{
    lemma2_to64();
}

/// A byte is the byte of its own digits.
pub proof fn lemma_byte_of_own_digits(byte: u8)
    ensures
        byte_of_digits(
            bit_of(byte as nat, 7),
            bit_of(byte as nat, 6),
            bit_of(byte as nat, 5),
            bit_of(byte as nat, 4),
            bit_of(byte as nat, 3),
            bit_of(byte as nat, 2),
            bit_of(byte as nat, 1),
            bit_of(byte as nat, 0),
        ) == byte,
{
    lemma_byte_bits(byte);
    let b: u32 = byte as u32;
    assert(b == 128 * (b / 128 % 2) + 64 * (b / 64 % 2) + 32 * (b / 32 % 2) + 16 * (b / 16 % 2) + 8
        * (b / 8 % 2) + 4 * (b / 4 % 2) + 2 * (b / 2 % 2) + b % 2) by (bit_vector)
        requires
            b < 256,
    ;
}

/// The digits of the byte made of eight digits are those digits.
pub proof fn lemma_digits_of_byte(
    d7: bool,
    d6: bool,
    d5: bool,
    d4: bool,
    d3: bool,
    d2: bool,
    d1: bool,
    d0: bool,
)
    ensures
        ({
            let byte = byte_of_digits(d7, d6, d5, d4, d3, d2, d1, d0) as nat;
            &&& bit_of(byte, 7) == d7
            &&& bit_of(byte, 6) == d6
            &&& bit_of(byte, 5) == d5
            &&& bit_of(byte, 4) == d4
            &&& bit_of(byte, 3) == d3
            &&& bit_of(byte, 2) == d2
            &&& bit_of(byte, 1) == d1
            &&& bit_of(byte, 0) == d0
        }),
{
    let byte = byte_of_digits(d7, d6, d5, d4, d3, d2, d1, d0);
    lemma_byte_bits(byte);
}

/// Bit `j` of byte `k` stands at place `8 * k + j` of the unpacked bits.
pub proof fn lemma_unpack_index(bytes: Seq<u8>, k: int, j: int)
    requires
        0 <= k < bytes.len(),
        0 <= j < 8,
    ensures
        unpack_bits(bytes)[8 * k + j] == bit_of(bytes[k] as nat, (7 - j) as nat),
{
    assert((8 * k + j) / 8 == k);
    assert((8 * k + j) % 8 == j);
}

/// Packing the bits of a byte sequence gives the sequence back.
pub proof fn lemma_pack_unpack(bytes: Seq<u8>)
    ensures
        pack_bits(unpack_bits(bytes)) =~= bytes,
{
    let bits = unpack_bits(bytes);
    assert forall|k: int| 0 <= k < bytes.len() implies packed_byte(bits, k) == bytes[k] by {
        lemma_byte_of_own_digits(bytes[k]);
        lemma_unpack_index(bytes, k, 0);
        lemma_unpack_index(bytes, k, 1);
        lemma_unpack_index(bytes, k, 2);
        lemma_unpack_index(bytes, k, 3);
        lemma_unpack_index(bytes, k, 4);
        lemma_unpack_index(bytes, k, 5);
        lemma_unpack_index(bytes, k, 6);
        lemma_unpack_index(bytes, k, 7);
    }
}

/// The bits of a packing are the packed bits, then the padding.
pub proof fn lemma_unpack_pack(bits: Seq<bool>)
    ensures
        unpack_bits(pack_bits(bits)) =~= bits + zero_bits(padding(bits.len())),
{
    let bytes = pack_bits(bits);
    let padded = bits + zero_bits(padding(bits.len()));
    assert(8 * bytes.len() == padded.len());
    assert forall|i: int| 0 <= i < padded.len() implies unpack_bits(bytes)[i] == padded[i] by {
        let k = i / 8;
        let j = i % 8;
        assert(i == 8 * k + j);
        lemma_unpack_index(bytes, k, j);
        lemma_digits_of_byte(
            bit_at(bits, 8 * k),
            bit_at(bits, 8 * k + 1),
            bit_at(bits, 8 * k + 2),
            bit_at(bits, 8 * k + 3),
            bit_at(bits, 8 * k + 4),
            bit_at(bits, 8 * k + 5),
            bit_at(bits, 8 * k + 6),
            bit_at(bits, 8 * k + 7),
        );
        assert(padded[i] == bit_at(bits, i));
    }
}

/// Zero bits at the end of a stream, up to the next byte boundary, do not
/// change its packing.
pub proof fn lemma_pack_padded(bits: Seq<bool>)
    ensures
        pack_bits(bits + zero_bits(padding(bits.len()))) =~= pack_bits(bits),
{
    let padded = bits + zero_bits(padding(bits.len()));
    assert forall|i: int| bit_at(padded, i) == bit_at(bits, i) by {
        if 0 <= i < bits.len() {
            assert(padded[i] == bits[i]);
        } else if 0 <= i < padded.len() {
            assert(!padded[i]);
        }
    }
}

/// The bits of two byte sequences, one after the other, are the bits of the
/// first, then the bits of the second.
pub proof fn lemma_unpack_concat(first: Seq<u8>, second: Seq<u8>)
    ensures
        unpack_bits(first + second) =~= unpack_bits(first) + unpack_bits(second),
{
    let lhs = unpack_bits(first + second);
    let rhs = unpack_bits(first) + unpack_bits(second);
    assert forall|i: int| 0 <= i < lhs.len() implies lhs[i] == rhs[i] by {
        if i >= 8 * first.len() {
            let j = i - 8 * first.len();
            assert(i / 8 == first.len() + j / 8);
            assert(i % 8 == j % 8);
            assert(rhs[i] == unpack_bits(second)[j]);
        } else {
            assert(i / 8 < first.len());
        }
    }
}

/// One more byte holds eight more bits: its digits, top first.
pub proof fn lemma_unpack_push(bytes: Seq<u8>, byte: u8)
    ensures
        unpack_bits(bytes.push(byte)) =~= unpack_bits(bytes) + field_bits(byte as u64, 8),
{
    let lhs = unpack_bits(bytes.push(byte));
    let rhs = unpack_bits(bytes) + field_bits(byte as u64, 8);
    assert forall|i: int| 0 <= i < lhs.len() implies lhs[i] == rhs[i] by {
        if i >= 8 * bytes.len() {
            let j = i - 8 * bytes.len();
            assert(i / 8 == bytes.len());
            assert(i % 8 == j);
            assert(rhs[i] == field_bits(byte as u64, 8)[j]);
        } else {
            assert(i / 8 < bytes.len());
        }
    }
}

/// A field one bit wider, of twice the value plus a digit, is the old field
/// followed by that digit.
pub proof fn lemma_field_bits_push(value: u64, low: bool, width: nat)
    requires
        2 * value + 1 <= u64::MAX,
    ensures
        field_bits((2 * value + if low { 1nat } else { 0nat }) as u64, width + 1) =~= field_bits(
            value,
            width,
        ).push(low),
{
    let doubled: nat = 2 * value as nat + if low { 1nat } else { 0nat };
    let lhs = field_bits(doubled as u64, width + 1);
    let rhs = field_bits(value, width).push(low);
    assert forall|i: int| 0 <= i < width + 1 implies lhs[i] == rhs[i] by {
        if i == width {
            lemma_bit_of_double(value as nat, low, 0);
        } else {
            lemma_bit_of_double(value as nat, low, (width - 1 - i) as nat);
        }
    }
}

/// The digits of a number above its size are zero.
pub proof fn lemma_bit_of_high(value: nat, index: nat)
    requires
        value < pow2(index),
    ensures
        !bit_of(value, index),
{
    lemma_basic_div(value as int, pow2(index) as int);
}

/// Reading back the digits of a field gives its value, less the digits that
/// did not fit in its width.
pub proof fn lemma_bits_value_of_field(value: u64, width: nat)
    ensures
        bits_value(field_bits(value, width)) == value as nat % pow2(width),
    decreases width,
{
    lemma2_to64();
    if width == 0 {
        assert(field_bits(value, width).len() == 0);
    } else {
        let bits = field_bits(value, width);
        let half: u64 = value / 2;
        let shorter = (width - 1) as nat;
        assert(bits.drop_last() =~= field_bits(half, shorter)) by {
            assert forall|i: int| 0 <= i < shorter implies bits[i] == field_bits(half, shorter)[i] by {
                lemma_bit_of_double(half as nat, value % 2 == 1, (shorter - 1 - i) as nat);
            }
        }
        assert(bits[width - 1] == bit_of(value as nat, 0));
        assert(bits.last() == (value % 2 == 1));
        lemma_bits_value_of_field(half, shorter);
        lemma_pow2_unfold(width);
        lemma_pow2_pos(shorter);
        lemma_mod_double(value as nat, pow2(shorter));
    }
}

/// The remainder by twice a modulus, from the remainder of the half.
pub proof fn lemma_mod_double(value: nat, modulus: nat)
    requires
        modulus > 0,
    ensures
        value % (2 * modulus) == 2 * ((value / 2) % modulus) + value % 2,
{
    let half = value / 2;
    let q = half / modulus;
    let r = half % modulus;
    lemma_fundamental_div_mod(half as int, modulus as int);
    assert(half == modulus * q + r);
    assert(value == 2 * half + value % 2);
    assert(value == q * (2 * modulus) + (2 * r + value % 2)) by (nonlinear_arith)
        requires
            half == modulus * q + r,
            value == 2 * half + value % 2,
    ;
    lemma_fundamental_div_mod_converse(
        value as int,
        2 * modulus as int,
        q as int,
        (2 * r + value % 2) as int,
    );
}

} // verus!
