//! A writer and a reader of unsigned fields of any width, packed back to back
//! with no byte alignment.

use crate::bit_seq::{
    bit_of,
    bits_value,
    field_bits,
    field_value,
    lemma_bit_of_high,
    lemma_field_bits_push,
    lemma_mod_double,
    lemma_pack_padded,
    lemma_pack_unpack,
    lemma_unpack_index,
    lemma_unpack_push,
    pack_bits,
    padding,
    unpack_bits,
    zero_bits,
};
use vstd::arithmetic::div_mod::lemma_mod_mod;
use vstd::arithmetic::power2::{
    lemma2_to64,
    lemma2_to64_rest,
    lemma_pow2_strictly_increases,
    lemma_pow2_unfold,
    pow2,
};
use vstd::bits::lemma_u64_shr_is_div;
use vstd::prelude::*;

verus! {

/// The width, in bits, of the field that one call writes or reads.
#[derive(Clone, Copy, Debug)]
pub struct UnalignedRWMode(u8);

impl UnalignedRWMode {
    /// The width in bits.
    pub closed spec fn width(self) -> nat {
        self.0 as nat
    }

    /// A field of `bits` bits.
    pub fn precision_bits(bits: u8) -> (mode: Self)
        ensures
            mode.width() == bits,
    {
        Self(bits)
    }

    /// The width in bits.
    pub fn bits(&self) -> (bits: u8)
        ensures
            bits == self.width(),
    {
        self.0
    }
}

/// The binary digit of weight `2^index` of `value`.
pub fn digit(value: u64, index: u8) -> (set: bool)
    ensures
        set == bit_of(value as nat, index as nat),
{
    if index >= 64 {
        proof {
            lemma2_to64_rest();
            if index > 64 {
                lemma_pow2_strictly_increases(64, index as nat);
            }
            lemma_bit_of_high(value as nat, index as nat);
        }
        false
    } else {
        proof {
            lemma_u64_shr_is_div(value, index as u64);
        }
        (value >> index) % 2 == 1
    }
}

/// The bits of a byte that is not full yet: `count` of them, as the number
/// `digits`.
struct PartialByte {
    digits: u8,
    count: u8,
}

impl PartialByte {
    #[verifier::type_invariant]
    spec fn inv(self) -> bool {
        self.count < 8 && (self.digits as nat) < pow2(self.count as nat)
    }
}

/// Collects the bits written to it. Its view is the sequence of those bits.
pub struct UnalignedWriter {
    bytes: Vec<u8>,
    tail: PartialByte,
}

impl View for UnalignedWriter {
    type V = Seq<bool>;

    closed spec fn view(&self) -> Seq<bool> {
        unpack_bits(self.bytes@) + field_bits(self.tail.digits as u64, self.tail.count as nat)
    }
}

impl UnalignedWriter {
    /// A writer that holds no bits.
    pub fn new() -> (writer: Self)
        ensures
            writer@ == Seq::<bool>::empty(),
    {
        proof {
            lemma2_to64();
        }
        let writer = Self { bytes: Vec::new(), tail: PartialByte { digits: 0, count: 0 } };
        assert(writer@ =~= Seq::<bool>::empty());
        writer
    }

    /// Writes one bit.
    pub fn write_bit(&mut self, bit: bool)
        ensures
            final(self)@ == old(self)@.push(bit),
    {
        let digits: u8 = self.tail.digits;
        let count: u8 = self.tail.count;
        proof {
            use_type_invariant(&self.tail);
            lemma2_to64();
            if count < 7 {
                lemma_pow2_strictly_increases(count as nat, 7);
            }
            lemma_pow2_unfold((count + 1) as nat);
            lemma_field_bits_push(digits as u64, bit, count as nat);
        }
        let low: u8 = if bit {
            1
        } else {
            0
        };
        let next: u8 = digits * 2 + low;
        if count == 7 {
            proof {
                lemma_unpack_push(self.bytes@, next);
            }
            self.bytes.push(next);
            self.tail = PartialByte { digits: 0, count: 0 };
        } else {
            self.tail = PartialByte { digits: next, count: count + 1 };
        }
        assert(self@ =~= old(self)@.push(bit));
    }

    /// Writes `value` as a field of the width that `mode` gives, most
    /// significant bit first. Digits that `value` has above that width are
    /// left out; a field wider than 64 bits starts with zero bits.
    pub fn write_unaligned(&mut self, mode: UnalignedRWMode, value: u64)
        ensures
            final(self)@ == old(self)@ + field_bits(value, mode.width()),
    {
        let width: u8 = mode.0;
        let mut left: u8 = width;
        let ghost field = field_bits(value, width as nat);
        assert(self@ =~= old(self)@ + field.subrange(0, 0));
        while left > 0
            invariant
                left <= width,
                field == field_bits(value, width as nat),
                self@ == old(self)@ + field.subrange(0, width - left),
            decreases left,
        {
            left = left - 1;
            let bit = digit(value, left);
            self.write_bit(bit);
            assert(self@ =~= old(self)@ + field.subrange(0, width - left)) by {
                assert(field[width - left - 1] == bit);
                assert(field.subrange(0, width - left) =~= field.subrange(0, width - left - 1).push(
                    bit,
                ));
            }
        }
        assert(field.subrange(0, width as int) =~= field);
    }

    /// The number of bits written so far.
    pub fn len_bits(&self) -> (len: u128)
        ensures
            len == self@.len(),
    {
        proof {
            use_type_invariant(&self.tail);
        }
        (self.bytes.len() as u128) * 8 + self.tail.count as u128
    }

    /// Ends the stream: fills the last byte up with zero bits and hands out
    /// the bytes.
    pub fn flush(self) -> (bytes: Vec<u8>)
        ensures
            bytes@ == pack_bits(self@),
    {
        let ghost bits = self@;
        let ghost end = bits.len() + padding(bits.len());
        let mut writer = self;
        assert(writer@ =~= bits + zero_bits(0));
        proof {
            use_type_invariant(&writer.tail);
        }
        while writer.tail.count != 0
            invariant
                bits.len() <= writer@.len() <= end,
                end == bits.len() + padding(bits.len()),
                writer@ == bits + zero_bits((writer@.len() - bits.len()) as nat),
                writer.tail.count == writer@.len() % 8,
            decreases end - writer@.len(),
        {
            writer.write_bit(false);
            proof {
                use_type_invariant(&writer.tail);
                assert(writer@ =~= bits + zero_bits((writer@.len() - bits.len()) as nat));
            }
        }
        proof {
            assert(writer@.len() == end);
            assert(writer@ =~= unpack_bits(writer.bytes@));
            lemma_pack_unpack(writer.bytes@);
            lemma_pack_padded(bits);
        }
        writer.bytes
    }
}

/// Reads the bits of a byte sequence, first to last. Its view is the sequence
/// of the bits that are still to be read.
pub struct UnalignedReader<'a> {
    bytes: &'a [u8],
    byte: usize,
    bit: u8,
}

impl<'a> View for UnalignedReader<'a> {
    type V = Seq<bool>;

    closed spec fn view(&self) -> Seq<bool> {
        unpack_bits(self.bytes@).skip(8 * self.byte + self.bit)
    }
}

/// The value of a field after one more digit has been read.
pub proof fn lemma_field_value_push(bits: Seq<bool>, low: bool)
    ensures
        field_value(bits.push(low)) == 2 * (field_value(bits) % 0x8000_0000_0000_0000) + if low {
            1nat
        } else {
            0nat
        },
{
    let longer = bits.push(low);
    assert(longer.drop_last() =~= bits);
    let total = bits_value(longer);
    assert(total == 2 * bits_value(bits) + if low { 1nat } else { 0nat });
    lemma_mod_double(total, 0x8000_0000_0000_0000);
    lemma_mod_mod(bits_value(bits) as int, 0x8000_0000_0000_0000, 2);
}

impl<'a> UnalignedReader<'a> {
    #[verifier::type_invariant]
    spec fn inv(self) -> bool {
        &&& self.byte <= self.bytes@.len()
        &&& self.bit < 8
        &&& self.byte == self.bytes@.len() ==> self.bit == 0
    }

    /// A reader at the first bit of `bytes`.
    pub fn new(bytes: &'a [u8]) -> (reader: Self)
        ensures
            reader@ == unpack_bits(bytes@),
    {
        let reader = Self { bytes, byte: 0, bit: 0 };
        assert(reader@ =~= unpack_bits(bytes@));
        reader
    }

    /// The number of bits that are still to be read.
    pub fn remaining_bits(&self) -> (len: u128)
        ensures
            len == self@.len(),
    {
        proof {
            use_type_invariant(self);
        }
        ((self.bytes.len() - self.byte) as u128) * 8 - self.bit as u128
    }

    /// Reads one bit, if one is left.
    pub fn read_bit(&mut self) -> (bit: Option<bool>)
        ensures
            old(self)@.len() == 0 ==> bit is None && final(self)@ == old(self)@,
            old(self)@.len() > 0 ==> bit == Some(old(self)@[0]) && final(self)@ == old(self)@.skip(
                1,
            ),
    {
        proof {
            use_type_invariant(&*self);
        }
        if self.byte >= self.bytes.len() {
            return None;
        }
        let set = digit(self.bytes[self.byte] as u64, 7 - self.bit);
        proof {
            lemma_unpack_index(self.bytes@, self.byte as int, self.bit as int);
        }
        if self.bit == 7 {
            self.bit = 0;
            self.byte = self.byte + 1;
        } else {
            self.bit = self.bit + 1;
        }
        assert(self@ =~= old(self)@.skip(1));
        Some(set)
    }

    /// Reads a field of the width that `mode` gives, most significant bit
    /// first, if that many bits are left; else reads nothing. Of a field
    /// wider than 64 bits the low 64 bits are the value.
    pub fn read_unaligned(&mut self, mode: UnalignedRWMode) -> (value: Option<u64>)
        ensures
            match value {
                Some(v) => {
                    &&& mode.width() <= old(self)@.len()
                    &&& v == field_value(old(self)@.subrange(0, mode.width() as int))
                    &&& final(self)@ == old(self)@.skip(mode.width() as int)
                },
                None => mode.width() > old(self)@.len() && final(self)@ == old(self)@,
            },
    {
        let width: u8 = mode.0;
        if self.remaining_bits() < width as u128 {
            return None;
        }
        let ghost start = self@;
        let mut value: u64 = 0;
        let mut read: u8 = 0;
        assert(self@ =~= start.skip(0));
        assert(bits_value(start.subrange(0, 0)) == 0);
        while read < width
            invariant
                read <= width <= start.len(),
                self@ == start.skip(read as int),
                value == field_value(start.subrange(0, read as int)),
            decreases width - read,
        {
            let bit = self.read_bit();
            let set = bit.unwrap();
            proof {
                lemma_field_value_push(start.subrange(0, read as int), set);
                assert(start.subrange(0, read as int).push(set) =~= start.subrange(
                    0,
                    read as int + 1,
                ));
                assert(self@ =~= start.skip(read as int + 1));
            }
            let low: u64 = if value >= 0x8000_0000_0000_0000 {
                value - 0x8000_0000_0000_0000
            } else {
                value
            };
            value = low * 2 + if set {
                1
            } else {
                0
            };
            read = read + 1;
        }
        Some(value)
    }
}

} // verus!
