use colpack::bit_packer::{BitPacker, BitUnpacker};
use colpack::ultra_packer::{
    bits_for_bundle, decode, encode, find_optimal_bits_per_bundle, find_optimal_bundle,
    find_optimal_bundle_size, naive_bits, read_bundle, write_bundle,
};

#[test]
fn naive_bits_is_the_width_of_the_largest_value() {
    assert_eq!(naive_bits(1), 0);
    assert_eq!(naive_bits(2), 1);
    assert_eq!(naive_bits(7), 3);
    assert_eq!(naive_bits(8), 3);
    assert_eq!(naive_bits(9), 4);
    assert_eq!(naive_bits(33), 6);
    assert_eq!(naive_bits(u64::MAX), 64);
}

#[test]
fn optimal_bundle_of_small_alphabets() {
    // 5^3 = 125 fits seven bits, and no size up to 40 costs less for each digit.
    assert_eq!(find_optimal_bundle(5), (3, 7));
    assert_eq!(find_optimal_bundle(10), (3, 10));
    assert_eq!(find_optimal_bundle(3), (29, 46));
    assert_eq!(find_optimal_bundle(7), (21, 59));
    assert_eq!(find_optimal_bundle(95), (7, 46));
    // A power of two gains nothing from bundles.
    assert_eq!(find_optimal_bundle(2), (1, 1));
    assert_eq!(find_optimal_bundle(32), (1, 5));
    assert_eq!(find_optimal_bundle(64), (1, 6));
    // A single value takes no bits at all.
    assert_eq!(find_optimal_bundle(1), (1, 0));
}

#[test]
fn optimal_bundle_of_the_lower_case_alphabet() {
    // 33^12 is the largest power of 33 below 2^64; it needs 61 bits.
    assert_eq!(find_optimal_bundle(33), (12, 61));
    assert_eq!(find_optimal_bundle_size(33), 12);
    assert_eq!(find_optimal_bits_per_bundle(33), 61);
    assert_eq!(bits_for_bundle(33, 3), 16);
    assert_eq!(bits_for_bundle(33, 11), 56);
    assert_eq!(bits_for_bundle(33, 0), 0);
}

#[test]
fn optimal_bundle_minimises_bits_per_digit() {
    for m in [5u64, 7, 10, 17, 33, 43, 59, 69, 85, 95, 1000, 1 << 33] {
        let (k, b) = find_optimal_bundle(m);
        assert!(1 <= k && k <= 40);
        assert_eq!(b, bits_for_bundle(m, k));
        let mut power: u64 = 1;
        for j in 1..=40u8 {
            power = match power.checked_mul(m) {
                Some(p) => p,
                None => break,
            };
            let bits = 64 - (power - 1).leading_zeros();
            let better = bits * (k as u32) < (b as u32) * (j as u32);
            let tie = bits * (k as u32) == (b as u32) * (j as u32);
            assert!(!better);
            assert!(!tie || k <= j);
        }
    }
}

#[test]
fn encode_is_the_number_in_base_m() {
    assert_eq!(encode(3, 10, &[1, 2, 3]), 123);
    assert_eq!(encode(0, 10, &[]), 0);
    assert_eq!(encode(4, 33, &[32, 32, 32, 32]), 33 * 33 * 33 * 33 - 1);
    assert_eq!(encode(3, 33, &[4, 27, 25]), (4 * 33 + 27) * 33 + 25);
}

#[test]
fn decode_takes_the_digits_from_the_end() {
    assert_eq!(decode(3, 10, 123), vec![1, 2, 3]);
    assert_eq!(decode(5, 10, 123), vec![0, 0, 1, 2, 3]);
    assert_eq!(decode(2, 10, 123), vec![2, 3]);
    assert_eq!(decode(0, 10, 123), Vec::<u64>::new());
}

#[test]
fn bundles_round_trip_with_exactly_their_width() {
    let m = 33u64;
    let (k, b) = find_optimal_bundle(m);
    let digits: Vec<u64> = (0..k as u64).map(|i| (i * 7 + 3) % m).collect();
    let bundle = encode(k, m, &digits);
    let mut packer = BitPacker::new(Vec::new());
    write_bundle(&mut packer, b, bundle);
    assert_eq!(packer.buffer().len(), 8);
    assert_eq!(packer.bit_offset(), 5);
    // A tail of three digits takes 16 bits.
    let tail = encode(3, m, &[32, 0, 1]);
    write_bundle(&mut packer, bits_for_bundle(m, 3), tail);
    let buffer = packer.finish();
    assert_eq!(buffer.len(), 10);
    let mut unpacker = BitUnpacker::new(&buffer);
    let read = read_bundle(&mut unpacker, b);
    assert_eq!(read, Some(bundle));
    assert_eq!(decode(k, m, bundle), digits);
    assert_eq!(unpacker.bits_read(), 61);
    assert_eq!(read_bundle(&mut unpacker, 16), Some(tail));
    assert_eq!(decode(3, m, tail), vec![32, 0, 1]);
    assert_eq!(read_bundle(&mut unpacker, 16), None);
}
