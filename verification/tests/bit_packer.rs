use colpack::bit_packer::{BitPacker, BitUnpacker};

#[test]
pub fn write_bits() {
    let mut packer = BitPacker::new(Vec::new());

    packer.write_bit(true);
    packer.write_bit(true);
    packer.write_bit(true);
    packer.write_bit(true);
    assert_eq!(*packer.buffer(), vec![0b11110000]);

    packer.write_bit(true);
    packer.write_bit(true);
    packer.write_bit(true);
    packer.write_bit(true);
    assert_eq!(*packer.buffer(), vec![0b11111111]);

    packer.write_bit(false);
    assert_eq!(*packer.buffer(), vec![0b11111111, 0b00000000]);
}

#[test]
pub fn write_bytes() {
    let mut packer = BitPacker::new(Vec::new());

    packer.write_bytes(&[0b11111001]);
    assert_eq!(*packer.buffer(), vec![0b11111001]);

    packer.write_bytes(&[0b00000000]);
    assert_eq!(*packer.buffer(), vec![0b11111001, 0b00000000]);
}

#[test]
pub fn read_bits() {
    let buffer = vec![0b11110000, 0b10101010];
    let mut unpacker = BitUnpacker::new(&buffer);

    assert_eq!(unpacker.read_bit(), Some(true));
    assert_eq!(unpacker.read_bit(), Some(true));
    assert_eq!(unpacker.read_bit(), Some(true));
    assert_eq!(unpacker.read_bit(), Some(true));
    assert_eq!(unpacker.read_bit(), Some(false));
    assert_eq!(unpacker.read_bit(), Some(false));
    assert_eq!(unpacker.read_bit(), Some(false));
    assert_eq!(unpacker.read_bit(), Some(false));

    assert_eq!(unpacker.read_bits(4), Some(0b1010));
    assert_eq!(unpacker.read_bits(4), Some(0b1010));
}

#[test]
pub fn read_bytes() {
    let buffer = vec![0xDE, 0xAD, 0xBE, 0xEF];
    let mut unpacker = BitUnpacker::new(&buffer);

    assert_eq!(unpacker.read_bytes(2), Some(vec![0xDE, 0xAD]));
    assert_eq!(unpacker.read_bytes(2), Some(vec![0xBE, 0xEF]));
}

#[test]
pub fn roundtrip() {
    let mut packer = BitPacker::new(Vec::new());

    packer.write_bits(0b101, 3);
    packer.write_bits(0b11110000, 8);
    packer.write_bit(true);
    packer.write_bytes(&[0xAB, 0xCD]);

    let buffer = packer.finish();
    let mut unpacker = BitUnpacker::new(&buffer);
    assert_eq!(unpacker.read_bits(3), Some(0b101));
    assert_eq!(unpacker.read_bits(8), Some(0b11110000));
    assert_eq!(unpacker.read_bit(), Some(true));
    assert_eq!(unpacker.read_bytes(2), Some(vec![0xAB, 0xCD]));
}

#[test]
pub fn roundtrip_int() {
    let mut packer = BitPacker::new(Vec::new());

    packer.write_int(42);
    packer.write_int(1000);
    packer.write_int(100000);

    let buffer = packer.finish();
    let mut unpacker = BitUnpacker::new(&buffer);
    assert_eq!(unpacker.read_int(), Some(42));
    assert_eq!(unpacker.read_int(), Some(1000));
    assert_eq!(unpacker.read_int(), Some(100000));
}

#[test]
fn new_stream_is_one_zero_byte() {
    let packer = BitPacker::new(vec![1, 2, 3]);
    assert_eq!(packer.bit_offset(), 0);
    assert_eq!(packer.finish(), vec![0]);
}

#[test]
fn write_bits_masks_and_spills_across_bytes() {
    let mut packer = BitPacker::new(Vec::new());
    packer.write_bits(0b1111_1101, 3);
    assert_eq!(*packer.buffer(), vec![0b1010_0000]);
    assert_eq!(packer.bit_offset(), 3);
    packer.write_bits(0b1100_1011, 8);
    assert_eq!(*packer.buffer(), vec![0b1011_1001, 0b0110_0000]);
    assert_eq!(packer.bit_offset(), 3);
    packer.write_bits(0xff, 0);
    assert_eq!(*packer.buffer(), vec![0b1011_1001, 0b0110_0000]);
    packer.write_bits(0b11111, 5);
    assert_eq!(*packer.buffer(), vec![0b1011_1001, 0b0111_1111]);
    assert_eq!(packer.bit_offset(), 8);
}

#[test]
fn write_byte_aligned_and_unaligned() {
    let mut packer = BitPacker::new(Vec::new());
    packer.write_byte(0xA5);
    assert_eq!(*packer.buffer(), vec![0xA5]);
    packer.write_byte(0x5A);
    assert_eq!(*packer.buffer(), vec![0xA5, 0x5A]);
    packer.write_bit(true);
    packer.write_byte(0xFF);
    assert_eq!(*packer.buffer(), vec![0xA5, 0x5A, 0xFF, 0x80]);
}

#[test]
fn write_bytes_width_puts_the_high_fragment_first() {
    // 0x0312 in 10 bits: the two low bits of the high byte, then the low byte.
    let mut packer = BitPacker::new(Vec::new());
    packer.write_bytes_width(&[0x12, 0x03], 10);
    assert_eq!(*packer.buffer(), vec![0b1100_0100, 0b1000_0000]);
    let buffer = packer.finish();
    let mut unpacker = BitUnpacker::new(&buffer);
    assert_eq!(unpacker.read_bytes_width(10), Some(0x312));
    assert_eq!(unpacker.bits_read(), 10);
}

#[test]
fn write_bytes_width_full_word() {
    let mut packer = BitPacker::new(Vec::new());
    packer.write_bit(true);
    packer.write_bytes_width(&0x0123_4567_89AB_CDEFu64.to_le_bytes(), 64);
    let buffer = packer.finish();
    assert_eq!(buffer.len(), 9);
    let mut unpacker = BitUnpacker::new(&buffer);
    assert_eq!(unpacker.read_bit(), Some(true));
    assert_eq!(unpacker.read_bytes_width(64), Some(0x0123_4567_89AB_CDEF));
}

#[test]
fn write_bits_u32_is_most_significant_first() {
    let mut packer = BitPacker::new(Vec::new());
    packer.write_bits_u32(0b1_0110_0111, 9);
    assert_eq!(*packer.buffer(), vec![0b1011_0011, 0b1000_0000]);
    packer.write_bits_u32(0xFFFF_FFFF, 32);
    assert_eq!(packer.finish(), vec![0b1011_0011, 0xFF, 0xFF, 0xFF, 0xFF, 0x80]);
}

#[test]
fn reads_past_the_end_return_none_and_consume_nothing() {
    let buffer = vec![0b1010_0000];
    let mut unpacker = BitUnpacker::new(&buffer);
    assert_eq!(unpacker.read_bits(5), Some(0b10100));
    assert_eq!(unpacker.read_bits(4), None);
    assert_eq!(unpacker.read_byte(), None);
    assert_eq!(unpacker.read_bytes(1), None);
    assert_eq!(unpacker.read_bytes_width(9), None);
    assert_eq!(unpacker.skip_bits(4), None);
    assert_eq!(unpacker.bits_read(), 5);
    assert_eq!(unpacker.read_bits(3), Some(0));
    assert_eq!(unpacker.read_bit(), None);
    assert_eq!(unpacker.read_bits(0), Some(0));
    assert_eq!(unpacker.read_bytes(0), Some(vec![]));
    assert!(unpacker.has_bits(0));
    assert!(!unpacker.has_bits(1));
}

#[test]
fn read_on_empty_buffer() {
    let buffer: Vec<u8> = vec![];
    let mut unpacker = BitUnpacker::new(&buffer);
    assert_eq!(unpacker.read_bit(), None);
    assert_eq!(unpacker.read_int(), None);
    assert_eq!(unpacker.peek_bits(12), 0);
}

#[test]
fn read_byte_across_a_byte_boundary() {
    let buffer = vec![0b0001_0010, 0b0011_0100];
    let mut unpacker = BitUnpacker::new(&buffer);
    assert_eq!(unpacker.read_bits(4), Some(1));
    assert_eq!(unpacker.read_byte(), Some(0x23));
    assert_eq!(unpacker.read_bits(4), Some(4));
}

#[test]
fn peek_pads_with_zeros_and_skip_moves_on() {
    let buffer = vec![0b1100_0000, 0b0000_0001];
    let mut unpacker = BitUnpacker::new(&buffer);
    assert_eq!(unpacker.peek_bits(2), 0b11);
    assert_eq!(unpacker.peek_bits(12), 0b1100_0000_0000);
    assert_eq!(unpacker.skip_bits(15), Some(()));
    assert_eq!(unpacker.peek_bits(12), 0b1000_0000_0000);
    assert_eq!(unpacker.read_bit(), Some(true));
    assert_eq!(unpacker.peek_bits(3), 0);
}

#[test]
fn every_write_is_read_back_in_order() {
    let mut packer = BitPacker::new(Vec::new());
    packer.write_bit(false);
    packer.write_bits(0b0110, 4);
    packer.write_byte(0xC3);
    packer.write_bytes(&[1, 2, 3]);
    packer.write_bytes_width(&[0xEF, 0xBE, 0xAD, 0xDE], 27);
    packer.write_bits_u32(0x1234, 13);
    packer.write_int(-5);
    let buffer = packer.finish();
    let written: u128 = 1 + 4 + 8 + 24 + 27 + 13 + 70;
    assert_eq!(buffer.len() as u128, (written + 7) / 8);
    let mut unpacker = BitUnpacker::new(&buffer);
    assert_eq!(unpacker.read_bit(), Some(false));
    assert_eq!(unpacker.read_bits(4), Some(0b0110));
    assert_eq!(unpacker.read_byte(), Some(0xC3));
    assert_eq!(unpacker.read_bytes(3), Some(vec![1, 2, 3]));
    assert_eq!(unpacker.read_bytes_width(27), Some(0xDEADBEEF & ((1 << 27) - 1)));
    assert_eq!(unpacker.read_bytes_width(13), Some(0x1234));
    assert_eq!(unpacker.read_int(), Some(-5));
    assert_eq!(unpacker.bits_read(), written);
    assert!(!unpacker.has_bits(8));
}
