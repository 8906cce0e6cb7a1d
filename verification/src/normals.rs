//! Quantized normals: the precision, the bit record of one normal, and the
//! byte layout of an array of them.
//!
//! A unit normal is stored as three sign bits and two magnitude buckets. The
//! buckets come from trigonometry on the components, which is done outside
//! this module; everything here works on the buckets themselves.

use crate::bit_seq::{
    bit_of,
    bits_value,
    field_bits,
    field_value,
    lemma_bits_value_of_field,
    lemma_unpack_pack,
    pack_bits,
    padding,
    unpack_bits,
    zero_bits,
};
use crate::le_bytes::{
    le_bytes,
    le_value,
    lemma_le_value_of_bytes,
    lemma_pow256_values,
    push_le,
    read_le,
};
use crate::unaligned_rw::{UnalignedRWMode, UnalignedReader, UnalignedWriter};
use vstd::arithmetic::div_mod::lemma_small_mod;
use vstd::arithmetic::power2::{
    lemma2_to64,
    lemma2_to64_rest,
    lemma_pow2_adds,
    lemma_pow2_pos,
    lemma_pow2_strictly_increases,
    lemma_pow2_unfold,
    pow2,
};
use vstd::bits::lemma_u64_shl_is_mul;
use vstd::prelude::*;

verus! {

/// The width in bits of each of the two magnitude buckets of a quantized
/// normal. More bits give a smaller angular error and a larger record.
#[derive(Clone, Copy, Debug)]
pub struct NormalPrecisionMode(pub u8);

/// Whether `2^bits` steps per right angle are enough for an angular error of
/// at most `deg_num / deg_den` degrees: `2^bits >= 90 / (deg_num / deg_den)`.
pub open spec fn reaches_deviation(deg_num: nat, deg_den: nat, bits: nat) -> bool {
    pow2(bits) * deg_num >= 90 * deg_den
}

/// The largest value of a bucket of `bits` bits, as far as 64 bits hold it.
pub open spec fn max_bucket_of(bits: nat) -> nat {
    if bits >= 64 {
        u64::MAX as nat
    } else {
        (pow2(bits) - 1) as nat
    }
}

/// More bits reach whatever fewer bits reach.
pub proof fn lemma_reaches_deviation_monotonic(deg_num: nat, deg_den: nat, low: nat, high: nat)
    requires
        low <= high,
        reaches_deviation(deg_num, deg_den, low),
    ensures
        reaches_deviation(deg_num, deg_den, high),
{
    if low < high {
        lemma_pow2_strictly_increases(low, high);
    }
    assert(pow2(low) * deg_num <= pow2(high) * deg_num) by (nonlinear_arith)
        requires
            pow2(low) <= pow2(high),
    ;
}

impl NormalPrecisionMode {
    /// Whether the buckets have any bits at all. A precision without them
    /// stores the signs of a normal and nothing of its direction.
    pub open spec fn wf(self) -> bool {
        self.0 > 0
    }

    /// The precision for a largest angular deviation of `deg_num / deg_den`
    /// degrees: `ceil(log2(90 / deviation))` bits, that is the least number of
    /// bits `b` with `2^b >= 90 / deviation`. A deviation of 90 degrees or more
    /// gives 0 bits. A deviation of zero, which no number of bits reaches,
    /// gives 255 bits.
    pub fn from_deg_dev(deg_num: u64, deg_den: u64) -> (precision: Self)
        ensures
            precision.wf() <==> deg_num < 90 * deg_den,
            deg_num == 0 && deg_den > 0 ==> precision.0 == 255,
            !(deg_num == 0 && deg_den > 0) ==> {
                &&& reaches_deviation(deg_num as nat, deg_den as nat, precision.0 as nat)
                &&& precision.0 > 0 ==> !reaches_deviation(
                    deg_num as nat,
                    deg_den as nat,
                    (precision.0 - 1) as nat,
                )
            },
    {
        proof {
            lemma2_to64();
        }
        if deg_num == 0 {
            return if deg_den == 0 {
                Self(0)
            } else {
                Self(255)
            };
        }
        let target: u128 = 90 * (deg_den as u128);
        let mut scaled: u128 = deg_num as u128;
        let mut bits: u8 = 0;
        assert(scaled == pow2(0) * deg_num);
        while scaled < target
            invariant
                deg_num >= 1,
                target == 90 * deg_den,
                scaled == pow2(bits as nat) * deg_num,
                bits <= 71,
                bits > 0 ==> !reaches_deviation(deg_num as nat, deg_den as nat, (bits - 1) as nat),
            decreases 71 - bits,
        {
            proof {
                assert(bits < 71) by {
                    if bits >= 71 {
                        lemma2_to64();
                        lemma2_to64_rest();
                        lemma_pow2_adds(64, 7);
                        if bits > 71 {
                            lemma_pow2_strictly_increases(71, bits as nat);
                        }
                        assert(pow2(bits as nat) * deg_num >= pow2(bits as nat)) by (nonlinear_arith)
                            requires
                                deg_num >= 1,
                        ;
                    }
                }
                lemma_pow2_unfold((bits + 1) as nat);
                assert(pow2((bits + 1) as nat) * deg_num == 2 * (pow2(bits as nat) * deg_num))
                    by (nonlinear_arith)
                    requires
                        pow2((bits + 1) as nat) == 2 * pow2(bits as nat),
                ;
            }
            scaled = scaled * 2;
            bits = bits + 1;
        }
        proof {
            if bits > 0 {
                lemma_pow2_pos((bits - 1) as nat);
                assert(deg_num <= pow2((bits - 1) as nat) * deg_num) by (nonlinear_arith)
                    requires
                        pow2((bits - 1) as nat) >= 1,
                ;
            }
        }
        Self(bits)
    }

    /// The largest value that a bucket of this width can hold: `2^bits - 1`,
    /// or the largest 64-bit number where the bucket is wider than that.
    pub fn max_bucket(&self) -> (max: u64)
        ensures
            max == max_bucket_of(self.0 as nat),
    {
        if self.0 >= 64 {
            u64::MAX
        } else {
            proof {
                lemma2_to64_rest();
                lemma_pow2_strictly_increases(self.0 as nat, 64);
                lemma_pow2_pos(self.0 as nat);
                lemma_u64_shl_is_mul(1, self.0 as u64);
            }
            (1u64 << (self.0 as u64)) - 1
        }
    }

    /// The number of bits of one record: three signs and two buckets.
    pub fn record_bits(&self) -> (bits: u16)
        ensures
            bits == record_len(self.0 as nat),
    {
        3 + 2 * (self.0 as u16)
    }
}

/// One normal as it is stored: the three signs of its components, and the two
/// magnitude buckets.
#[derive(Clone, Copy, Debug, PartialEq, Eq, Structural)]
pub struct QuantizedNormal {
    /// The bucket of the arcsine of the x share of the xy direction.
    pub asine: u64,
    /// The bucket of the magnitude of z.
    pub z: u64,
    /// Whether x is negative.
    pub sx: bool,
    /// Whether y is negative.
    pub sy: bool,
    /// Whether z is negative.
    pub sz: bool,
}

/// The number of bits of a record with buckets of `bits` bits.
pub open spec fn record_len(bits: nat) -> nat {
    3 + 2 * bits
}

/// What is left of `bucket` in a field of `bits` bits: its low `bits` digits.
pub open spec fn kept_bucket(bucket: u64, bits: nat) -> u64 {
    (bucket as nat % pow2(bits)) as u64
}

impl QuantizedNormal {
    /// Whether both buckets fit in `bits` bits.
    pub open spec fn fits(self, bits: nat) -> bool {
        self.asine <= max_bucket_of(bits) && self.z <= max_bucket_of(bits)
    }

    /// The normal that a record of this one holds at `bits` bits per bucket:
    /// the same, but for the digits of the buckets that do not fit.
    pub open spec fn stored(self, bits: nat) -> QuantizedNormal {
        QuantizedNormal {
            asine: kept_bucket(self.asine, bits),
            z: kept_bucket(self.z, bits),
            sx: self.sx,
            sy: self.sy,
            sz: self.sz,
        }
    }
}

/// The bits of the record of `normal`: sign of x, sign of y, sign of z, the
/// arcsine bucket, the z bucket.
pub open spec fn record_of(normal: QuantizedNormal, bits: nat) -> Seq<bool> {
    seq![normal.sx, normal.sy, normal.sz] + field_bits(normal.asine, bits) + field_bits(
        normal.z,
        bits,
    )
}

/// The normal that the bits of one record hold.
pub open spec fn normal_of(record: Seq<bool>, bits: nat) -> QuantizedNormal {
    QuantizedNormal {
        asine: field_value(record.subrange(3, 3 + bits as int)),
        z: field_value(record.subrange(3 + bits as int, 3 + 2 * bits as int)),
        sx: record[0],
        sy: record[1],
        sz: record[2],
    }
}

/// A bucket that fits in its field is stored whole.
pub proof fn lemma_kept_bucket_fits(bucket: u64, bits: nat)
    requires
        bucket <= max_bucket_of(bits),
    ensures
        kept_bucket(bucket, bits) == bucket,
{
    lemma2_to64_rest();
    lemma_pow2_pos(bits);
    if bits > 64 {
        lemma_pow2_strictly_increases(64, bits);
    }
    lemma_small_mod(bucket as nat, pow2(bits));
}

/// A normal whose buckets fit is stored as it is.
pub proof fn lemma_stored_fits(normal: QuantizedNormal, bits: nat)
    requires
        normal.fits(bits),
    ensures
        normal.stored(bits) == normal,
{
    lemma_kept_bucket_fits(normal.asine, bits);
    lemma_kept_bucket_fits(normal.z, bits);
}

/// Reading the bits of a field gives what the field kept of its value.
pub proof fn lemma_field_roundtrip(value: u64, bits: nat)
    ensures
        field_value(field_bits(value, bits)) == kept_bucket(value, bits),
{
    lemma_bits_value_of_field(value, bits);
    lemma_pow2_pos(bits);
    vstd::arithmetic::div_mod::lemma_mod_bound(value as int, pow2(bits) as int);
    vstd::arithmetic::div_mod::lemma_mod_decreases(value as nat, pow2(bits));
    lemma_small_mod(value as nat % pow2(bits), 0x1_0000_0000_0000_0000);
}

/// The bits of a record hold the normal as it is stored.
pub proof fn lemma_record_roundtrip(normal: QuantizedNormal, bits: nat)
    ensures
        record_of(normal, bits).len() == record_len(bits),
        normal_of(record_of(normal, bits), bits) == normal.stored(bits),
{
    let record = record_of(normal, bits);
    assert(record.subrange(3, 3 + bits as int) =~= field_bits(normal.asine, bits));
    assert(record.subrange(3 + bits as int, 3 + 2 * bits as int) =~= field_bits(normal.z, bits));
    lemma_field_roundtrip(normal.asine, bits);
    lemma_field_roundtrip(normal.z, bits);
}

/// A sign as the value of a field of one bit.
fn sign_value(negative: bool) -> (value: u64)
    ensures
        field_bits(value, 1) =~= seq![negative],
{
    let value: u64 = if negative {
        1
    } else {
        0
    };
    proof {
        lemma2_to64();
        assert(field_bits(value, 1)[0] == bit_of(value as nat, 0));
    }
    value
}

/// Whether the field of one bit at the start of `stream` is set.
proof fn lemma_sign_read(stream: Seq<bool>)
    requires
        stream.len() >= 1,
    ensures
        (field_value(stream.subrange(0, 1)) != 0) == stream[0],
{
    let field = stream.subrange(0, 1);
    assert(field.drop_last() =~= Seq::<bool>::empty());
    assert(bits_value(field.drop_last()) == 0);
    assert(field.last() == stream[0]);
}

/// Writes the record of `normal` in five fields: the signs of x, y and z, one
/// bit each, then the arcsine bucket and the z bucket, each as wide as
/// `precision` says.
pub fn save_normal(normal: QuantizedNormal, precision: NormalPrecisionMode, writer: &mut UnalignedWriter)
    ensures
        final(writer)@ == old(writer)@ + record_of(normal, precision.0 as nat),
{
    let sign_prec = UnalignedRWMode::precision_bits(1);
    let main_prec = UnalignedRWMode::precision_bits(precision.0);
    writer.write_unaligned(sign_prec, sign_value(normal.sx));
    writer.write_unaligned(sign_prec, sign_value(normal.sy));
    writer.write_unaligned(sign_prec, sign_value(normal.sz));
    writer.write_unaligned(main_prec, normal.asine);
    writer.write_unaligned(main_prec, normal.z);
    assert(writer@ =~= old(writer)@ + record_of(normal, precision.0 as nat));
}

/// Reads one record, in the same five fields, if the reader has the bits of a
/// whole record left; else reads nothing.
pub fn read_normal(precision: NormalPrecisionMode, reader: &mut UnalignedReader) -> (normal: Option<
    QuantizedNormal,
>)
    ensures
        match normal {
            Some(n) => {
                &&& record_len(precision.0 as nat) <= old(reader)@.len()
                &&& n == normal_of(
                    old(reader)@.subrange(0, record_len(precision.0 as nat) as int),
                    precision.0 as nat,
                )
                &&& final(reader)@ == old(reader)@.skip(record_len(precision.0 as nat) as int)
            },
            None => record_len(precision.0 as nat) > old(reader)@.len() && final(reader)@ == old(
                reader,
            )@,
        },
{
    if reader.remaining_bits() < precision.record_bits() as u128 {
        return None;
    }
    let ghost start = reader@;
    let ghost bits = precision.0 as nat;
    let ghost record = start.subrange(0, record_len(bits) as int);
    let sign_prec = UnalignedRWMode::precision_bits(1);
    let main_prec = UnalignedRWMode::precision_bits(precision.0);
    proof {
        lemma_sign_read(start);
        lemma_sign_read(start.skip(1));
        lemma_sign_read(start.skip(2));
    }
    let sx = reader.read_unaligned(sign_prec).unwrap() != 0;
    assert(reader@ =~= start.skip(1));
    let sy = reader.read_unaligned(sign_prec).unwrap() != 0;
    assert(reader@ =~= start.skip(2));
    let sz = reader.read_unaligned(sign_prec).unwrap() != 0;
    assert(reader@ =~= start.skip(3));
    let asine = reader.read_unaligned(main_prec).unwrap();
    assert(reader@ =~= start.skip(3 + bits as int));
    assert(start.skip(3).subrange(0, bits as int) =~= record.subrange(3, 3 + bits as int));
    let z = reader.read_unaligned(main_prec).unwrap();
    assert(reader@ =~= start.skip(3 + 2 * bits as int));
    assert(start.skip(3 + bits as int).subrange(0, bits as int) =~= record.subrange(
        3 + bits as int,
        3 + 2 * bits as int,
    ));
    Some(QuantizedNormal { asine, z, sx, sy, sz })
}

/// The bits of the records of `normals`, one record after the other.
pub open spec fn records_of(normals: Seq<QuantizedNormal>, bits: nat) -> Seq<bool>
    decreases normals.len(),
{
    if normals.len() == 0 {
        Seq::empty()
    } else {
        records_of(normals.drop_last(), bits) + record_of(normals.last(), bits)
    }
}

/// The bytes of an array of normals: their number in eight bytes, least
/// significant first; the precision in one byte; then the records, packed
/// back to back, the last byte filled up with zero bits.
pub open spec fn normal_array_bytes(normals: Seq<QuantizedNormal>, precision: u8) -> Seq<u8> {
    le_bytes(normals.len(), 8) + seq![precision] + pack_bits(records_of(normals, precision as nat))
}

/// The number of bytes of an array of `count` normals.
pub open spec fn normal_array_size(count: nat, precision: u8) -> nat {
    (9 + (count * record_len(precision as nat) + 7) / 8) as nat
}

/// Record number `index` of a stream of records of `bits` bits per bucket.
pub open spec fn record_at(stream: Seq<bool>, index: int, bits: nat) -> QuantizedNormal {
    normal_of(
        stream.subrange(index * record_len(bits), (index + 1) * record_len(bits)),
        bits,
    )
}

/// Why an array of normals could not be read.
#[derive(Clone, Copy, Debug, PartialEq, Eq, Structural)]
pub enum NormalReadError {
    /// The bytes end before the number of normals and the precision do.
    HeaderTruncated,
    /// The bytes end before the last record does.
    RecordsTruncated,
}

/// What the bytes of an array of normals hold: the precision and the normals,
/// or the reason why they hold none. Bytes after the last record are not
/// looked at.
pub open spec fn parse_normal_array(bytes: Seq<u8>) -> Result<
    (u8, Seq<QuantizedNormal>),
    NormalReadError,
> {
    if bytes.len() < 9 {
        Err(NormalReadError::HeaderTruncated)
    } else {
        let count = le_value(bytes.subrange(0, 8));
        let precision = bytes[8];
        let stream = unpack_bits(bytes.skip(9));
        if count * record_len(precision as nat) > stream.len() {
            Err(NormalReadError::RecordsTruncated)
        } else {
            Ok((precision, Seq::new(count, |i: int| record_at(stream, i, precision as nat))))
        }
    }
}

/// An array of normals as read: the normals, and the precision that they were
/// stored with.
pub struct NormalArray {
    /// The width of the buckets of the normals.
    pub precision: NormalPrecisionMode,
    /// The normals, in the order in which they were stored.
    pub normals: Vec<QuantizedNormal>,
}

/// `rows * width` splits into its first `row` rows, one more row, and the rest.
proof fn lemma_row_bounds(row: int, rows: int, width: int)
    requires
        0 <= row < rows,
        0 <= width,
    ensures
        0 <= row * width,
        (row + 1) * width == row * width + width,
        (row + 1) * width <= rows * width,
{
    assert(0 <= row * width) by (nonlinear_arith)
        requires
            0 <= row,
            0 <= width,
    ;
    assert((row + 1) * width == row * width + width) by (nonlinear_arith);
    assert((row + 1) * width <= rows * width) by (nonlinear_arith)
        requires
            row + 1 <= rows,
            0 <= width,
    ;
}

/// The records of an array lie back to back: record number `index` fills the
/// bits from `index * record_len(bits)` on.
pub proof fn lemma_records_slice(normals: Seq<QuantizedNormal>, bits: nat, index: int)
    requires
        0 <= index < normals.len(),
    ensures
        records_of(normals, bits).len() == normals.len() * record_len(bits),
        records_of(normals, bits).subrange(
            index * record_len(bits),
            (index + 1) * record_len(bits),
        ) =~= record_of(normals[index], bits),
    decreases normals.len(),
{
    let width = record_len(bits) as int;
    let front = normals.drop_last();
    lemma_records_len(front, bits);
    lemma_records_len(normals, bits);
    lemma_row_bounds(index, normals.len() as int, width);
    if index < front.len() {
        lemma_records_slice(front, bits, index);
        lemma_row_bounds(index, front.len() as int, width);
    } else {
        assert(normals.last() == normals[index]);
    }
}

/// An array of records has as many bits as it has records, times the bits of
/// one record.
pub proof fn lemma_records_len(normals: Seq<QuantizedNormal>, bits: nat)
    ensures
        records_of(normals, bits).len() == normals.len() * record_len(bits),
    decreases normals.len(),
{
    if normals.len() > 0 {
        lemma_records_len(normals.drop_last(), bits);
        assert((normals.len() - 1) * record_len(bits) + record_len(bits) == normals.len()
            * record_len(bits)) by (nonlinear_arith);
    }
}

/// The bytes of an array of normals are as many as [`normal_array_size`] says.
pub proof fn lemma_normal_array_size(normals: Seq<QuantizedNormal>, precision: u8)
    ensures
        normal_array_bytes(normals, precision).len() == normal_array_size(normals.len(), precision),
{
    lemma_records_len(normals, precision as nat);
}

/// Reading what was saved gives back the precision and, in the same number and
/// order, the normals as they are stored, whatever bytes follow the array.
pub proof fn lemma_normal_array_roundtrip(
    normals: Seq<QuantizedNormal>,
    precision: u8,
    rest: Seq<u8>,
)
    requires
        normals.len() <= u64::MAX,
    ensures
        parse_normal_array(normal_array_bytes(normals, precision) + rest) == Ok::<
            (u8, Seq<QuantizedNormal>),
            NormalReadError,
        >((precision, normals.map_values(|n: QuantizedNormal| n.stored(precision as nat)))),
{
    let bits = precision as nat;
    let width = record_len(bits) as int;
    let records = records_of(normals, bits);
    let payload = pack_bits(records);
    let bytes = normal_array_bytes(normals, precision) + rest;
    let stream = unpack_bits(bytes.skip(9));
    let expected = normals.map_values(|n: QuantizedNormal| n.stored(bits));
    assert(bytes.subrange(0, 8) =~= le_bytes(normals.len(), 8));
    lemma_le_value_of_bytes(normals.len(), 8);
    lemma_pow256_values();
    assert(le_value(bytes.subrange(0, 8)) == normals.len());
    assert(bytes[8] == precision);
    assert(bytes.skip(9) =~= payload + rest);
    crate::bit_seq::lemma_unpack_concat(payload, rest);
    lemma_unpack_pack(records);
    lemma_records_len(normals, bits);
    assert(stream =~= records + zero_bits(padding(records.len())) + unpack_bits(rest));
    let read = Seq::new(normals.len(), |i: int| record_at(stream, i, bits));
    assert forall|i: int| 0 <= i < normals.len() implies read[i] == expected[i] by {
        lemma_row_bounds(i, normals.len() as int, width);
        lemma_records_slice(normals, bits, i);
        assert(stream.subrange(i * width, (i + 1) * width) =~= records.subrange(
            i * width,
            (i + 1) * width,
        ));
        lemma_record_roundtrip(normals[i], bits);
    }
    assert(read =~= expected);
}

/// Appends the bytes of the array `normals` to `writer`: the number of
/// normals, the precision, then one record per normal, in order.
pub fn save_normal_array(
    normals: &[QuantizedNormal],
    writer: &mut Vec<u8>,
    precision: NormalPrecisionMode,
)
    ensures
        final(writer)@ == old(writer)@ + normal_array_bytes(normals@, precision.0),
{
    push_le(writer, normals.len() as u64, 8);
    writer.push(precision.0);
    let mut records = UnalignedWriter::new();
    let mut done: usize = 0;
    assert(normals@.subrange(0, 0) =~= Seq::<QuantizedNormal>::empty());
    while done < normals.len()
        invariant
            done <= normals@.len(),
            records@ == records_of(normals@.subrange(0, done as int), precision.0 as nat),
        decreases normals@.len() - done,
    {
        save_normal(normals[done], precision, &mut records);
        proof {
            let longer = normals@.subrange(0, done + 1);
            assert(longer.drop_last() =~= normals@.subrange(0, done as int));
            assert(longer.last() == normals@[done as int]);
        }
        done = done + 1;
    }
    assert(normals@.subrange(0, done as int) =~= normals@);
    let mut payload = records.flush();
    writer.append(&mut payload);
    assert(writer@ =~= old(writer)@ + normal_array_bytes(normals@, precision.0));
}

/// The number of bytes that an array of `count` normals takes.
pub fn normal_array_len(count: u64, precision: NormalPrecisionMode) -> (len: u128)
    ensures
        len == normal_array_size(count as nat, precision.0),
{
    let width: u128 = precision.record_bits() as u128;
    assert(count * width <= 0xffff_ffff_ffff_ffff * 513) by (nonlinear_arith)
        requires
            count <= 0xffff_ffff_ffff_ffff,
            width <= 513,
    ;
    9 + ((count as u128) * width + 7) / 8
}

/// Reads an array of normals from the start of `bytes`. Bytes after the last
/// record are not looked at. Every content is read as some normals; the one
/// failure is that the bytes end too early.
pub fn read_normal_array(bytes: &[u8]) -> (array: Result<NormalArray, NormalReadError>)
    ensures
        match array {
            Ok(a) => parse_normal_array(bytes@) == Ok::<(u8, Seq<QuantizedNormal>), NormalReadError>(
                (a.precision.0, a.normals@),
            ),
            Err(e) => parse_normal_array(bytes@) == Err::<
                (u8, Seq<QuantizedNormal>),
                NormalReadError,
            >(e),
        },
{
    if bytes.len() < 9 {
        return Err(NormalReadError::HeaderTruncated);
    }
    let count = read_le(vstd::slice::slice_subrange(bytes, 0, 8));
    let precision = NormalPrecisionMode(bytes[8]);
    let payload = vstd::slice::slice_subrange(bytes, 9, bytes.len());
    assert(payload@ =~= bytes@.skip(9));
    let mut reader = UnalignedReader::new(payload);
    let ghost stream = reader@;
    let ghost bits = precision.0 as nat;
    let ghost width = record_len(bits) as int;
    let record_bits: u128 = precision.record_bits() as u128;
    assert(count * record_bits <= 0xffff_ffff_ffff_ffff * 513) by (nonlinear_arith)
        requires
            count <= 0xffff_ffff_ffff_ffff,
            record_bits <= 513,
    ;
    if (count as u128) * record_bits > reader.remaining_bits() {
        return Err(NormalReadError::RecordsTruncated);
    }
    let mut normals: Vec<QuantizedNormal> = Vec::new();
    let mut done: u64 = 0;
    assert(0 * width == 0);
    assert(reader@ =~= stream.skip(0 * width));
    while done < count
        invariant
            done <= count,
            bits == precision.0,
            width == record_len(bits),
            count * width <= stream.len(),
            reader@ == stream.skip(done * width),
            normals@ == Seq::new(done as nat, |i: int| record_at(stream, i, bits)),
        decreases count - done,
    {
        proof {
            lemma_row_bounds(done as int, count as int, width);
        }
        let normal = read_normal(precision, &mut reader);
        proof {
            assert(stream.skip(done * width).subrange(0, width) =~= stream.subrange(
                done * width,
                (done + 1) * width,
            ));
            assert(stream.skip(done * width).skip(width) =~= stream.skip((done + 1) * width));
        }
        normals.push(normal.unwrap());
        done = done + 1;
        assert(normals@ =~= Seq::new(done as nat, |i: int| record_at(stream, i, bits)));
    }
    Ok(NormalArray { precision, normals })
}

} // verus!
