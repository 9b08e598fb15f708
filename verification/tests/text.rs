use colpack::bit_packer::{BitPacker, BitUnpacker};
use colpack::huffman::HuffmanTable;
use colpack::text::{
    byte_to_digit, charset_len, detect_charset, digit_to_byte, huffman_cost, strings_printable,
    ultrapack_cost, LOWER, NUMERAL, RARE_PUNCT, UPPER,
};
use colpack::varint::varint_len;

#[test]
fn charset_of_a_path_is_lower_case() {
    let text = b"/usr/local/bin/entry.sh";
    assert_eq!(detect_charset(text), Some(LOWER));
    assert_eq!(charset_len(LOWER), 33);
    assert_eq!(text.len(), 23);
}

#[test]
fn charset_flags_name_the_classes() {
    assert_eq!(detect_charset(b""), Some(0));
    assert_eq!(detect_charset(b" ,-./:_"), Some(0));
    assert_eq!(detect_charset(b"A"), Some(UPPER));
    assert_eq!(detect_charset(b"z"), Some(LOWER));
    assert_eq!(detect_charset(b"0"), Some(NUMERAL));
    assert_eq!(detect_charset(b"!"), Some(RARE_PUNCT));
    assert_eq!(detect_charset(b"Ab1~"), Some(15));
    assert_eq!(detect_charset(b"a=1"), Some(LOWER | NUMERAL | RARE_PUNCT));
    assert_eq!(detect_charset(b"tab\t"), None);
    assert_eq!(detect_charset(&[0x7f]), None);
    assert_eq!(detect_charset("é".as_bytes()), None);
}

#[test]
fn alphabet_sizes() {
    assert_eq!(charset_len(0), 7);
    assert_eq!(charset_len(UPPER), 33);
    assert_eq!(charset_len(NUMERAL), 17);
    assert_eq!(charset_len(RARE_PUNCT), 33);
    assert_eq!(charset_len(LOWER | NUMERAL), 43);
    assert_eq!(charset_len(15), 95);
}

#[test]
fn alphabet_order_is_punctuation_lower_digits_upper_rare() {
    let alphabet: Vec<u8> = (0..95).map(|d| digit_to_byte(15, d)).collect();
    let expected = " ,-./:_abcdefghijklmnopqrstuvwxyz0123456789ABCDEFGHIJKLMNOPQRSTUVWXYZ\
                    !\"#$%&'()*+;<=>?@[\\]^`{|}~";
    assert_eq!(alphabet, expected.as_bytes());
    let digits_only: Vec<u8> = (0..17).map(|d| digit_to_byte(NUMERAL, d)).collect();
    assert_eq!(digits_only, b" ,-./:_0123456789");
    let upper_rare: Vec<u8> = (0..59).map(|d| digit_to_byte(UPPER | RARE_PUNCT, d)).collect();
    assert_eq!(&upper_rare[7..33], b"ABCDEFGHIJKLMNOPQRSTUVWXYZ");
    assert_eq!(upper_rare[33], b'!');
    assert_eq!(upper_rare[58], b'~');
}

#[test]
fn digits_and_bytes_are_inverse() {
    for flags in 0..16u8 {
        let size = charset_len(flags);
        for digit in 0..size {
            let byte = digit_to_byte(flags, digit);
            assert!((32..127).contains(&byte));
            assert_eq!(byte_to_digit(flags, byte), digit);
        }
    }
}

fn written(text: &str, all_ascii: bool) -> Vec<u8> {
    let table = HuffmanTable::common_table();
    let mut packer = BitPacker::new(Vec::new());
    packer.write_string(text, all_ascii, &table);
    packer.finish()
}

fn round_trip(text: &str, all_ascii: bool) {
    let table = HuffmanTable::common_table();
    let bytes = written(text, all_ascii);
    let mut unpacker = BitUnpacker::new(&bytes);
    assert_eq!(unpacker.read_string(all_ascii, &table), Some(text.to_owned()));
    assert!(!unpacker.has_bits(8));
}

#[test]
fn path_takes_the_ultrapack_form() {
    let text = "/usr/local/bin/entry.sh";
    let table = HuffmanTable::common_table();
    let huffman = 1 + varint_len(23) as u128 + huffman_cost(text.as_bytes(), &table);
    let ultrapack = 1 + 4 + varint_len(23) as u128 + ultrapack_cost(LOWER, 23);
    assert_eq!(huffman_cost(text.as_bytes(), &table), 140);
    assert_eq!(huffman, 150);
    // One bundle of twelve letters in 61 bits and one of eleven in 56.
    assert_eq!(ultrapack_cost(LOWER, 23), 61 + 56);
    assert_eq!(ultrapack, 131);
    let bytes = written(text, true);
    assert_eq!(bytes.len(), (131 + 7) / 8);
    // The selector is clear, and the flags follow it.
    assert_eq!(bytes[0] >> 3, 0b0_0010);
    round_trip(text, true);
}

#[test]
fn sentence_takes_the_huffman_form() {
    let text = "the quick brown fox jumps over the lazy dog";
    let table = HuffmanTable::common_table();
    assert_eq!(huffman_cost(text.as_bytes(), &table), 226);
    let huffman = 1 + 9 + 226;
    let ultrapack = 1 + 4 + 9 + ultrapack_cost(LOWER, 43);
    assert_eq!(ultrapack_cost(LOWER, 43), 3 * 61 + 36);
    assert!(huffman > ultrapack);
    let bytes = written(text, true);
    assert_eq!(bytes.len() as u128, (ultrapack + 7) / 8);
    assert!(bytes.len() < text.len());
    round_trip(text, true);
}

#[test]
fn short_common_words_take_the_huffman_form() {
    let text = "tee";
    let bytes = written(text, true);
    // Selector 1, length 3 in four bits, then the codes of t, e and e.
    assert_eq!(bytes[0] >> 3, 0b1_0011);
    assert_eq!(bytes.len(), 2);
    round_trip(text, true);
}

#[test]
fn emitted_size_is_the_smaller_estimate() {
    let table = HuffmanTable::common_table();
    for text in [
        "", "a", "Nice", "testing testing", "/etc/passwd", "HELLO_WORLD", "key=value",
        "2024-01-31T12:00:00", "a.b.c.d.e.f.g.h.i.j.k.l.m.n.o.p", "~~~~~~~~~~~~~~~~",
        "The Quick Brown Fox (1) [2] {3}",
    ] {
        let bytes = text.as_bytes();
        let flags = detect_charset(bytes).unwrap();
        let length = varint_len(bytes.len() as u64) as u128;
        let huffman = 1 + length + huffman_cost(bytes, &table);
        let ultrapack = 1 + 4 + length + ultrapack_cost(flags, bytes.len());
        let mut packer = BitPacker::new(Vec::new());
        packer.write_string(text, true, &table);
        let bits = (packer.buffer().len() as u128 - 1) * 8 + packer.bit_offset() as u128;
        assert_eq!(bits, huffman.min(ultrapack));
        let selector = packer.buffer()[0] >> 7;
        assert_eq!(selector == 1, huffman <= ultrapack);
        round_trip(text, true);
    }
}

#[test]
fn tagged_form_carries_any_bytes() {
    round_trip("", false);
    round_trip("plain ascii", false);
    round_trip("caf\u{e9} \u{1F600}", false);
    round_trip("line\nbreak\ttab", false);
    let table = HuffmanTable::common_table();
    // A byte with a code takes a zero and the code, one without takes a one and eight bits.
    let bytes = written("e\n", false);
    assert_eq!(bytes.len(), 2);
    let mut unpacker = BitUnpacker::new(&bytes);
    assert_eq!(unpacker.read_varint(), Some(2));
    assert_eq!(unpacker.read_bit(), Some(false));
    assert_eq!(table.decode_symbol(&mut unpacker), Some(b'e'));
    assert_eq!(unpacker.read_bit(), Some(true));
    assert_eq!(unpacker.read_byte(), Some(b'\n'));
    assert_eq!(unpacker.bits_read(), 4 + 1 + 2 + 1 + 8);
}

#[test]
fn bytes_that_are_not_utf8_are_refused() {
    let table = HuffmanTable::common_table();
    let mut packer = BitPacker::new(Vec::new());
    packer.write_string_bytes(&[0xff, 0xfe], false, &table);
    let bytes = packer.finish();
    let mut unpacker = BitUnpacker::new(&bytes);
    assert_eq!(unpacker.read_string(false, &table), None);
    assert_eq!(unpacker.bits_read(), 0);
    assert_eq!(unpacker.read_string_bytes(false, &table), Some(vec![0xff, 0xfe]));
}

#[test]
fn ascii_form_of_bytes_without_a_code_keeps_seven_bits() {
    let table = HuffmanTable::common_table();
    let mut packer = BitPacker::new(Vec::new());
    packer.write_string_bytes(&[0x89], true, &table);
    // Selector 1, length 1, then the low seven bits of the byte.
    assert_eq!(*packer.buffer(), vec![0b1_0001_000, 0b1001_0000]);
    assert_eq!(huffman_cost(&[0x89], &table), 7);
}

#[test]
fn truncated_strings_read_as_none() {
    let table = HuffmanTable::common_table();
    for (text, all_ascii) in [
        ("/usr/local/bin/entry.sh", true),
        ("the quick brown fox", true),
        ("caf\u{e9}", false),
    ] {
        let bytes = written(text, all_ascii);
        let mut unpacker = BitUnpacker::new(&bytes[..bytes.len() - 1]);
        assert_eq!(unpacker.read_string(all_ascii, &table), None);
        assert_eq!(unpacker.bits_read(), 0);
    }
}

#[test]
fn runs_of_strings() {
    let table = HuffmanTable::common_table();
    let texts = ["alpha", "", "/var/log", "Mixed Letters 42"];
    assert!(strings_printable(&texts));
    assert!(!strings_printable(&["ok", "caf\u{e9}"]));
    assert!(strings_printable(&[]));
    let mut packer = BitPacker::new(Vec::new());
    packer.write_strings(&texts, true, &table);
    let bytes = packer.finish();
    let mut unpacker = BitUnpacker::new(&bytes);
    let expected: Vec<String> = texts.iter().map(|t| t.to_string()).collect();
    assert_eq!(unpacker.read_strings(4, true, &table), Some(expected));
    let mut unpacker = BitUnpacker::new(&bytes);
    assert_eq!(unpacker.read_strings(5, true, &table), None);
    assert_eq!(unpacker.bits_read(), 0);
}

#[test]
fn ultrapack_form_round_trips_for_every_charset() {
    let samples = [
        " ,-./:_", "abc", "0123456789", "ABC", "!?", "aB", "a1", "A1", "a!", "aA1", "aA!", "a1!",
        "A1!", "aA1!", "x", "_",
    ];
    for text in samples {
        let bytes = text.as_bytes();
        let flags = detect_charset(bytes).unwrap();
        for repeat in [1usize, 2, 7, 12, 13, 40] {
            let long: Vec<u8> = bytes.iter().cycle().take(bytes.len() * repeat).cloned().collect();
            let mut packer = BitPacker::new(Vec::new());
            packer.write_ultrapack(&long, flags);
            let written = packer.finish();
            let mut unpacker = BitUnpacker::new(&written);
            assert_eq!(unpacker.read_ultrapack(), Some(long.clone()));
        }
    }
}
