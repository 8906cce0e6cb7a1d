use tmf::le_bytes::{push_le, read_le};
use tmf::unaligned_rw::{digit, UnalignedRWMode, UnalignedReader, UnalignedWriter};

#[test]
fn fields_are_packed_top_bit_first() {
    let mut writer = UnalignedWriter::new();
    writer.write_unaligned(UnalignedRWMode::precision_bits(3), 0b101);
    writer.write_unaligned(UnalignedRWMode::precision_bits(5), 0b10011);
    assert_eq!(writer.len_bits(), 8);
    assert_eq!(writer.flush(), vec![0b1011_0011]);
}

#[test]
fn flush_pads_with_zero_bits() {
    let mut writer = UnalignedWriter::new();
    writer.write_bit(true);
    assert_eq!(writer.flush(), vec![0x80]);
    let mut writer = UnalignedWriter::new();
    writer.write_unaligned(UnalignedRWMode::precision_bits(12), 0xABC);
    assert_eq!(writer.flush(), vec![0xAB, 0xC0]);
    assert_eq!(UnalignedWriter::new().flush(), Vec::<u8>::new());
}

#[test]
fn a_field_keeps_its_low_bits() {
    let mut writer = UnalignedWriter::new();
    writer.write_unaligned(UnalignedRWMode::precision_bits(4), 0xABCD);
    writer.write_unaligned(UnalignedRWMode::precision_bits(0), 0xFFFF);
    writer.write_unaligned(UnalignedRWMode::precision_bits(4), 0x3);
    assert_eq!(writer.flush(), vec![0xD3]);
}

#[test]
fn a_field_wider_than_its_value_starts_with_zeros() {
    let mut writer = UnalignedWriter::new();
    writer.write_unaligned(UnalignedRWMode::precision_bits(72), u64::MAX);
    assert_eq!(writer.flush(), vec![0, 0xFF, 0xFF, 0xFF, 0xFF, 0xFF, 0xFF, 0xFF, 0xFF]);
    let bytes = [0xFF, 0x12, 0x34, 0x56, 0x78, 0x9A, 0xBC, 0xDE, 0xF0];
    let mut reader = UnalignedReader::new(&bytes);
    assert_eq!(
        reader.read_unaligned(UnalignedRWMode::precision_bits(72)),
        Some(0x1234_5678_9ABC_DEF0)
    );
}

#[test]
fn reading_gives_back_what_was_written() {
    let fields: [(u8, u64); 6] =
        [(1, 1), (7, 0x55), (13, 0x1FFF), (64, 0xDEAD_BEEF_0BAD_F00D), (0, 0), (31, 0x7654_3210)];
    let mut writer = UnalignedWriter::new();
    for (width, value) in fields {
        writer.write_unaligned(UnalignedRWMode::precision_bits(width), value);
    }
    let bytes = writer.flush();
    assert_eq!(bytes.len(), 15);
    let mut reader = UnalignedReader::new(&bytes);
    for (width, value) in fields {
        assert_eq!(reader.read_unaligned(UnalignedRWMode::precision_bits(width)), Some(value));
    }
    assert_eq!(reader.remaining_bits(), 4);
    assert_eq!(reader.read_unaligned(UnalignedRWMode::precision_bits(4)), Some(0));
    assert_eq!(reader.read_bit(), None);
}

#[test]
fn a_short_stream_is_not_read() {
    let bytes = [0b1100_0000];
    let mut reader = UnalignedReader::new(&bytes);
    assert_eq!(reader.read_unaligned(UnalignedRWMode::precision_bits(9)), None);
    assert_eq!(reader.remaining_bits(), 8);
    assert_eq!(reader.read_bit(), Some(true));
    assert_eq!(reader.read_bit(), Some(true));
    assert_eq!(reader.read_unaligned(UnalignedRWMode::precision_bits(7)), None);
    assert_eq!(reader.read_unaligned(UnalignedRWMode::precision_bits(6)), Some(0));
    assert_eq!(reader.read_unaligned(UnalignedRWMode::precision_bits(0)), Some(0));
}

#[test]
fn digits_of_a_number() {
    assert!(digit(0b100, 2));
    assert!(!digit(0b100, 1));
    assert!(digit(u64::MAX, 63));
    assert!(!digit(u64::MAX, 64));
    assert!(!digit(u64::MAX, 255));
    assert_eq!(UnalignedRWMode::precision_bits(17).bits(), 17);
}

#[test]
fn little_endian_numbers() {
    let mut out = vec![9];
    push_le(&mut out, 0x0102_0304_0506_0708, 8);
    push_le(&mut out, 0x1_0002, 2);
    push_le(&mut out, 7, 0);
    assert_eq!(out, vec![9, 8, 7, 6, 5, 4, 3, 2, 1, 2, 0]);
    assert_eq!(read_le(&out[1..9]), 0x0102_0304_0506_0708);
    assert_eq!(read_le(&[0x34, 0x12]), 0x1234);
    assert_eq!(read_le(&[]), 0);
}
