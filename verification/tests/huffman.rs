use colpack::bit_packer::{BitPacker, BitUnpacker};
use colpack::huffman::{compress, decompress, kraft_sum, HuffmanTable};

#[test]
fn test_roundtrip_uniform() {
    let data = b"hello world";
    let mut counts = [0u64; 256];
    for &b in data {
        counts[b as usize] += 1;
    }
    let table = HuffmanTable::from_counts(&counts);
    let compressed = compress(data, &table);
    let decompressed = decompress(&compressed, data.len(), &table);
    assert_eq!(decompressed, Some(data.to_vec()));
}

#[test]
fn test_roundtrip_table() {
    let data = b"the quick brown fox jumps over the lazy dog";
    let table = HuffmanTable::common_table();
    let compressed = compress(data, &table);
    let decompressed = decompress(&compressed, data.len(), &table);
    assert_eq!(decompressed, Some(data.to_vec()));
    println!(
        "Huffman: {} bytes -> {} bytes",
        data.len(),
        compressed.len()
    );
    assert!(compressed.len() < data.len());
}

#[test]
fn test_compression_ratio() {
    let data = b"this is a test of the emergency broadcast system. \
                 this is only a test. if this had been an actual emergency, \
                 you would have been instructed where to tune in your area.";
    let table = HuffmanTable::common_table();
    let compressed = compress(data, &table);
    let decompressed = decompress(&compressed, data.len(), &table);
    assert_eq!(decompressed, Some(data.to_vec()));
    let ratio = compressed.len() as f64 / data.len() as f64;
    println!(
        "Huffman: {} bytes -> {} bytes ({:.1}%)",
        data.len(),
        compressed.len(),
        ratio * 100.0
    );
}

#[test]
fn test_repetitive_data() {
    let data = b"aaaaaaaaaaaabbbbbbccccddddeeeeee";
    let mut counts = [0u64; 256];
    for &b in data {
        counts[b as usize] += 1;
    }
    let table = HuffmanTable::from_counts(&counts);
    let compressed = compress(data, &table);
    let decompressed = decompress(&compressed, data.len(), &table);
    assert_eq!(decompressed, Some(data.to_vec()));
    println!(
        "Repetitive: {} bytes -> {} bytes",
        data.len(),
        compressed.len()
    );
}

fn counts_of(data: &[u8]) -> [u64; 256] {
    let mut counts = [0u64; 256];
    for &b in data {
        counts[b as usize] += 1;
    }
    counts
}

#[test]
fn code_lengths_of_a_small_table() {
    // a: 12 of 32, b: 6, c: 4, d: 4, e: 6. Ideal lengths 2, 3, 3, 3, 3 leave half of
    // the code space free; the most probable symbol takes it.
    let table = HuffmanTable::from_counts(&counts_of(b"aaaaaaaaaaaabbbbbbccccddddeeeeee"));
    assert_eq!(table.get_code(b'a'), (0b0, 1));
    assert_eq!(table.get_code(b'b'), (0b100, 3));
    assert_eq!(table.get_code(b'c'), (0b101, 3));
    assert_eq!(table.get_code(b'd'), (0b110, 3));
    assert_eq!(table.get_code(b'e'), (0b111, 3));
    assert_eq!(table.get_code(b'f').1, 0);
    assert_eq!(kraft_sum(table.lengths()), 4096);
}

#[test]
fn code_lengths_of_hello_world() {
    let table = HuffmanTable::from_counts(&counts_of(b"hello world"));
    let lengths = table.lengths();
    assert_eq!(lengths[b'l' as usize], 1);
    assert_eq!(lengths[b'o' as usize], 3);
    for &b in b" dehrw" {
        assert_eq!(lengths[b as usize], 4);
    }
    assert_eq!(lengths.iter().filter(|&&l| l > 0).count(), 8);
}

#[test]
fn single_symbol_gets_one_bit() {
    let table = HuffmanTable::from_counts(&counts_of(b"zzzz"));
    assert_eq!(table.get_code(b'z'), (0, 1));
    assert_eq!(kraft_sum(table.lengths()), 2048);
    let compressed = compress(b"zzzz", &table);
    assert_eq!(compressed, vec![0]);
    assert_eq!(decompress(&compressed, 4, &table), Some(b"zzzz".to_vec()));
    // A window that starts with a one starts with no code.
    assert_eq!(decompress(&[0x80], 1, &table), None);
}

#[test]
fn empty_counts_give_an_empty_table() {
    let table = HuffmanTable::from_counts(&[0u64; 256]);
    assert!(table.lengths().iter().all(|&l| l == 0));
    assert_eq!(compress(b"abc", &table), vec![0]);
    assert_eq!(decompress(&[0, 0], 0, &table), Some(vec![]));
    assert_eq!(decompress(&[0, 0], 1, &table), None);
}

#[test]
fn lengths_are_limited_to_twelve_bits() {
    let mut counts = [1u64; 256];
    counts[0] = 1 << 40;
    let table = HuffmanTable::from_counts(&counts);
    let lengths = table.lengths();
    assert!(lengths.iter().all(|&l| 1 <= l && l <= 12));
    assert_eq!(lengths[0], 1);
    assert!(kraft_sum(lengths) <= 4096);
    let data: Vec<u8> = (0..=255).collect();
    let compressed = compress(&data, &table);
    assert_eq!(decompress(&compressed, 256, &table), Some(data));
}

#[test]
fn kraft_sum_counts_in_units_of_the_table() {
    let mut lengths = [0u8; 256];
    assert_eq!(kraft_sum(&lengths), 0);
    lengths[0] = 1;
    lengths[1] = 2;
    lengths[2] = 12;
    lengths[3] = 13;
    assert_eq!(kraft_sum(&lengths), 2048 + 1024 + 1);
}

#[test]
fn limit_lengths_grows_the_least_probable_first() {
    let mut counts = [0u64; 256];
    let mut lengths = [0u8; 256];
    for i in 0..5 {
        counts[i] = 10 - i as u64;
        lengths[i] = 2;
    }
    // Five codes of two bits take 5/4 of the code space. The least probable symbol
    // grows until it has twelve bits, which still leaves the sum one unit above the
    // whole space; then the next one grows by a bit.
    HuffmanTable::limit_lengths(&mut lengths, &counts);
    assert_eq!(&lengths[..6], &[2, 2, 2, 3, 12, 0]);
    assert_eq!(kraft_sum(&lengths), 3 * 1024 + 512 + 1);
}

#[test]
fn reclaim_slack_shrinks_the_most_probable_first() {
    let mut counts = [0u64; 256];
    let mut lengths = [0u8; 256];
    counts[7] = 5;
    counts[9] = 9;
    counts[11] = 9;
    lengths[7] = 3;
    lengths[9] = 3;
    lengths[11] = 3;
    HuffmanTable::reclaim_slack(&mut lengths, &counts);
    assert_eq!((lengths[7], lengths[9], lengths[11]), (2, 1, 2));
    assert_eq!(kraft_sum(&lengths), 4096);
}

#[test]
fn build_codes_assigns_in_order_of_length_and_byte() {
    let mut lengths = [0u8; 256];
    lengths[b'a' as usize] = 2;
    lengths[b'b' as usize] = 1;
    lengths[b'c' as usize] = 3;
    lengths[b'd' as usize] = 3;
    let mut codes = [7u32; 256];
    HuffmanTable::build_codes(&mut codes, &lengths);
    assert_eq!(codes[b'b' as usize], 0b0);
    assert_eq!(codes[b'a' as usize], 0b10);
    assert_eq!(codes[b'c' as usize], 0b110);
    assert_eq!(codes[b'd' as usize], 0b111);
    assert_eq!(codes[0], 7);
    let table = HuffmanTable::build_table(codes, lengths);
    let mut unpacker = BitUnpacker::new(&[0b1101_0011, 0b1000_0000]);
    assert_eq!(table.decode_symbol(&mut unpacker), Some(b'c'));
    assert_eq!(table.decode_symbol(&mut unpacker), Some(b'a'));
    assert_eq!(table.decode_symbol(&mut unpacker), Some(b'b'));
    assert_eq!(table.decode_symbol(&mut unpacker), Some(b'd'));
    assert_eq!(unpacker.bits_read(), 9);
}

#[test]
fn no_code_is_a_prefix_of_another() {
    let table = HuffmanTable::common_table();
    let codes: Vec<(u32, u8)> = (0..=255u8)
        .map(|b| table.get_code(b))
        .filter(|c| c.1 > 0)
        .collect();
    assert_eq!(codes.len(), 95);
    for (i, a) in codes.iter().enumerate() {
        for (j, b) in codes.iter().enumerate() {
            if i != j && a.1 <= b.1 {
                assert_ne!(b.0 >> (b.1 - a.1), a.0);
            }
        }
    }
}

#[test]
fn common_table_covers_printable_ascii_only() {
    let table = HuffmanTable::common_table();
    let lengths = table.lengths();
    for b in 0..=255usize {
        if (32..127).contains(&b) {
            assert!(1 <= lengths[b] && lengths[b] <= 12);
        } else {
            assert_eq!(lengths[b], 0);
        }
    }
    assert_eq!(lengths[b' ' as usize], 2);
    assert_eq!(lengths[b'e' as usize], 2);
    assert_eq!(lengths[b't' as usize], 5);
    assert_eq!(lengths[b'q' as usize], 11);
    assert_eq!(lengths[b'A' as usize], 10);
    assert_eq!(kraft_sum(lengths), 4096);
}

#[test]
fn decode_stops_where_the_stream_ends_inside_a_code() {
    let table = HuffmanTable::common_table();
    let mut packer = BitPacker::new(Vec::new());
    let (code, len) = table.get_code(b'q');
    packer.write_bits_u32(code, len);
    let full = packer.finish();
    assert_eq!(full.len(), 2);
    assert_eq!(decompress(&full, 1, &table), Some(vec![b'q']));
    assert_eq!(decompress(&full[..1], 1, &table), None);
}

#[test]
fn quick_brown_fox_takes_226_bits() {
    let data = b"the quick brown fox jumps over the lazy dog";
    let table = HuffmanTable::common_table();
    let bits: u32 = data.iter().map(|&b| table.get_code(b).1 as u32).sum();
    assert_eq!(bits, 226);
    assert!(bits < 8 * data.len() as u32);
    assert_eq!(compress(data, &table).len(), 29);
}
