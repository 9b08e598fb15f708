use colpack::bit_packer::{BitPacker, BitUnpacker};
use colpack::varint::{encoded_bits, int_to_pattern, le_bytes, pattern_to_int, select_slot, varint_len};

fn written(value: i64) -> Vec<u8> {
    let mut packer = BitPacker::new(Vec::new());
    packer.write_int(value);
    packer.finish()
}

#[test]
fn small_ints_round_trip_with_their_lengths() {
    let mut packer = BitPacker::new(Vec::new());
    packer.write_int(42);
    packer.write_int(1000);
    packer.write_int(100000);
    let buffer = packer.finish();
    let mut unpacker = BitUnpacker::new(&buffer);
    assert_eq!(unpacker.read_int(), Some(42));
    assert_eq!(unpacker.read_int(), Some(1000));
    assert_eq!(unpacker.read_int(), Some(100000));
    assert_eq!(encoded_bits(42), 9);
    assert!(encoded_bits(42) <= 10);
    assert_eq!(encoded_bits(1000), 19);
    assert_eq!(encoded_bits(100000), 29);
    assert_eq!(unpacker.bits_read(), 9 + 19 + 29);
}

#[test]
fn slot_zero_takes_four_bits() {
    assert_eq!(written(0), vec![0b0000_0000]);
    assert_eq!(written(5), vec![0b0101_0000]);
    assert_eq!(written(7), vec![0b0111_0000]);
    for n in 0..8 {
        assert_eq!(encoded_bits(n), 4);
    }
}

#[test]
fn slot_one_has_prefix_one_zero() {
    // 42 = 0101010 in seven bits, behind the prefix 10.
    assert_eq!(written(42), vec![0b1001_0101, 0b0000_0000]);
    assert_eq!(written(8), vec![0b1000_0100, 0b0000_0000]);
    assert_eq!(encoded_bits(8), 9);
    assert_eq!(encoded_bits(127), 9);
}

#[test]
fn slot_bounds_and_lengths() {
    assert_eq!(select_slot(7), (0, 3));
    assert_eq!(select_slot(8), (1, 7));
    assert_eq!(select_slot(127), (1, 7));
    assert_eq!(select_slot(128), (2, 9));
    assert_eq!(select_slot(511), (2, 9));
    assert_eq!(select_slot(512), (3, 15));
    assert_eq!(select_slot((1 << 15) - 1), (3, 15));
    assert_eq!(select_slot(1 << 15), (4, 24));
    assert_eq!(select_slot((1 << 24) - 1), (4, 24));
    assert_eq!(select_slot(1 << 24), (5, 45));
    assert_eq!(select_slot((1 << 45) - 1), (5, 45));
    assert_eq!(select_slot(1 << 45), (6, 64));
    assert_eq!(select_slot(u64::MAX), (6, 64));
    assert_eq!(varint_len(511), 12);
    assert_eq!(varint_len(512), 19);
    assert_eq!(varint_len((1 << 24) - 1), 29);
    assert_eq!(varint_len(1 << 24), 51);
    assert_eq!(varint_len(1 << 45), 70);
}

#[test]
fn last_slot_has_six_ones_and_no_zero() {
    let bytes = written(i64::MAX);
    assert_eq!(bytes.len(), 9);
    assert_eq!(bytes[0], 0b1111_1101);
    assert_eq!(bytes[8], 0b1111_1100);
    let mut unpacker = BitUnpacker::new(&bytes);
    assert_eq!(unpacker.read_int(), Some(i64::MAX));
    assert_eq!(unpacker.bits_read(), 70);
}

#[test]
fn negative_values_take_the_last_slot_and_read_back() {
    for value in [-1i64, -2, -1000, i64::MIN] {
        assert_eq!(encoded_bits(value), 70);
        let bytes = written(value);
        let mut unpacker = BitUnpacker::new(&bytes);
        assert_eq!(unpacker.read_int(), Some(value));
    }
    assert_eq!(written(-1), vec![0xFF; 8].into_iter().chain([0xFC]).collect::<Vec<u8>>());
}

#[test]
fn values_at_slot_edges_read_back() {
    let values = [
        0i64, 7, 8, 127, 128, 511, 512, 32767, 32768, 16777215, 16777216,
        (1 << 45) - 1, 1 << 45, i64::MAX,
    ];
    let mut packer = BitPacker::new(Vec::new());
    for &v in &values {
        packer.write_int(v);
    }
    let buffer = packer.finish();
    let mut unpacker = BitUnpacker::new(&buffer);
    for &v in &values {
        assert_eq!(unpacker.read_int(), Some(v));
    }
    assert!(!unpacker.has_bits(8));
}

#[test]
fn truncated_varint_reads_as_none_and_keeps_the_position() {
    let bytes = written(100000);
    assert_eq!(bytes.len(), 4);
    let mut unpacker = BitUnpacker::new(&bytes[..3]);
    assert_eq!(unpacker.read_bit(), Some(true));
    let mut unpacker = BitUnpacker::new(&bytes[..3]);
    assert_eq!(unpacker.read_int(), None);
    assert_eq!(unpacker.bits_read(), 0);
    assert_eq!(unpacker.read_varint(), None);
    // A prefix that the stream ends in.
    let mut unpacker = BitUnpacker::new(&[0xFF]);
    assert_eq!(unpacker.read_bits(3), Some(7));
    assert_eq!(unpacker.read_int(), None);
    assert_eq!(unpacker.bits_read(), 3);
}

#[test]
fn patterns_and_values() {
    assert_eq!(int_to_pattern(5), 5);
    assert_eq!(int_to_pattern(-1), u64::MAX);
    assert_eq!(int_to_pattern(i64::MIN), 1 << 63);
    assert_eq!(pattern_to_int(5), 5);
    assert_eq!(pattern_to_int(u64::MAX), -1);
    assert_eq!(le_bytes(0x0102_0304_0506_0708), [8, 7, 6, 5, 4, 3, 2, 1]);
}

#[test]
fn write_varint_and_read_varint() {
    let mut packer = BitPacker::new(Vec::new());
    packer.write_varint(u64::MAX);
    packer.write_varint(300);
    let buffer = packer.finish();
    let mut unpacker = BitUnpacker::new(&buffer);
    assert_eq!(unpacker.read_varint(), Some(u64::MAX));
    assert_eq!(unpacker.read_varint(), Some(300));
}
