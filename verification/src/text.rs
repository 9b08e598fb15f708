//! Strings on the wire: the character set of a string, the two compressed forms of
//! an ASCII string with the estimate that chooses between them, and the tagged form
//! that carries any bytes.

use crate::bit_packer::{BitPacker, BitUnpacker};
use crate::bits::{bits_value, holds_at, lemma_holds_at_concat, lemma_read_back, value_bits};
use crate::huffman::{
    code_bits, codes_bits, lemma_symbol_roundtrip, lemma_symbols_roundtrip, symbol_parse,
    symbols_parse, valid_lengths, HuffmanTable,
};
use crate::ultra_packer::{
    bits_for_bundle, bundle_bits, bundle_fits, decode, digits_value, encode,
    find_optimal_bundle, is_optimal_bundle, lemma_bundle_roundtrip, lemma_optimal_exists,
    lemma_power_increases, read_bundle, value_digits, write_bundle,
};
use crate::varint::{lemma_varint_roundtrip, varint_bits, varint_len, varint_parse};
use vstd::prelude::*;
use vstd::utf8::{decode_utf8, encode_utf8, valid_utf8};

verus! {

/// The flag of the upper-case letters.
pub const UPPER: u8 = 1;

/// The flag of the lower-case letters.
pub const LOWER: u8 = 2;

/// The flag of the digits.
pub const NUMERAL: u8 = 4;

/// The flag of the punctuation outside the common set.
pub const RARE_PUNCT: u8 = 8;

/// The number of characters that every character set holds: the common punctuation.
pub const COMMON_PUNCT: u64 = 7;

/// A printable ASCII character.
pub open spec fn is_printable(byte: u8) -> bool {
    32 <= byte <= 126
}

/// An upper-case letter, `A` to `Z`.
pub open spec fn is_upper(byte: u8) -> bool {
    65 <= byte <= 90
}

/// A lower-case letter, `a` to `z`.
pub open spec fn is_lower(byte: u8) -> bool {
    97 <= byte <= 122
}

/// A digit, `0` to `9`.
pub open spec fn is_numeral(byte: u8) -> bool {
    48 <= byte <= 57
}

/// The punctuation that every character set holds: the space and `, - . / : _`.
pub open spec fn is_common_punct(byte: u8) -> bool {
    byte == 32 || byte == 44 || byte == 45 || byte == 46 || byte == 47 || byte == 58 || byte
        == 95
}

/// A printable character that is no letter, no digit and no common punctuation.
pub open spec fn is_rare_punct(byte: u8) -> bool {
    is_printable(byte) && !is_upper(byte) && !is_lower(byte) && !is_numeral(byte)
        && !is_common_punct(byte)
}

/// Every byte is a printable ASCII character.
pub open spec fn all_printable(bytes: Seq<u8>) -> bool {
    forall|i: int| 0 <= i < bytes.len() ==> is_printable(#[trigger] bytes[i])
}

/// A set of flags holds the flag `flag`, which is one of 1, 2, 4 and 8.
pub open spec fn has_flag(flags: u8, flag: u8) -> bool {
    (flags / flag) % 2 == 1
}

/// The flags of the classes that the bytes of a string fall in.
pub open spec fn charset_flags(bytes: Seq<u8>) -> u8 {
    ((if exists|i: int| 0 <= i < bytes.len() && is_upper(#[trigger] bytes[i]) {
        1int
    } else {
        0int
    }) + (if exists|i: int| 0 <= i < bytes.len() && is_lower(#[trigger] bytes[i]) {
        2int
    } else {
        0int
    }) + (if exists|i: int| 0 <= i < bytes.len() && is_numeral(#[trigger] bytes[i]) {
        4int
    } else {
        0int
    }) + (if exists|i: int| 0 <= i < bytes.len() && is_rare_punct(#[trigger] bytes[i]) {
        8int
    } else {
        0int
    })) as u8
}

/// The character set of a set of flags holds the byte.
pub open spec fn in_charset(flags: u8, byte: u8) -> bool {
    ||| is_common_punct(byte)
    ||| (is_lower(byte) && has_flag(flags, LOWER))
    ||| (is_numeral(byte) && has_flag(flags, NUMERAL))
    ||| (is_upper(byte) && has_flag(flags, UPPER))
    ||| (is_rare_punct(byte) && has_flag(flags, RARE_PUNCT))
}

/// Where the lower-case letters start in the alphabet.
pub open spec fn lower_start(flags: u8) -> nat {
    7
}

/// Where the digits start in the alphabet.
pub open spec fn numeral_start(flags: u8) -> nat {
    lower_start(flags) + if has_flag(flags, LOWER) {
        26nat
    } else {
        0nat
    }
}

/// Where the upper-case letters start in the alphabet.
pub open spec fn upper_start(flags: u8) -> nat {
    numeral_start(flags) + if has_flag(flags, NUMERAL) {
        10nat
    } else {
        0nat
    }
}

/// Where the rare punctuation starts in the alphabet.
pub open spec fn rare_start(flags: u8) -> nat {
    upper_start(flags) + if has_flag(flags, UPPER) {
        26nat
    } else {
        0nat
    }
}

/// The size of the alphabet of a set of flags: the common punctuation, then each
/// class whose flag is set.
pub open spec fn charset_size(flags: u8) -> nat {
    rare_start(flags) + if has_flag(flags, RARE_PUNCT) {
        26nat
    } else {
        0nat
    }
}

/// The place of a common punctuation character among the seven.
pub open spec fn common_rank(byte: u8) -> nat {
    if byte == 32 {
        0
    } else if byte == 95 {
        6
    } else if byte == 58 {
        5
    } else {
        (byte - 43) as nat
    }
}

/// The common punctuation character at a place among the seven.
pub open spec fn common_at(rank: nat) -> u8 {
    if rank == 0 {
        32
    } else if rank == 6 {
        95
    } else if rank == 5 {
        58
    } else {
        (rank + 43) as u8
    }
}

/// The place of a rare punctuation character among the 26, in the order of the bytes.
pub open spec fn rare_rank(byte: u8) -> nat {
    if byte <= 43 {
        (byte - 33) as nat
    } else if byte <= 64 {
        (byte - 59 + 11) as nat
    } else if byte <= 94 {
        (byte - 91 + 17) as nat
    } else if byte == 96 {
        21
    } else {
        (byte - 123 + 22) as nat
    }
}

/// The rare punctuation character at a place among the 26.
pub open spec fn rare_at(rank: nat) -> u8 {
    if rank < 11 {
        (rank + 33) as u8
    } else if rank < 17 {
        (rank - 11 + 59) as u8
    } else if rank < 21 {
        (rank - 17 + 91) as u8
    } else if rank == 21 {
        96
    } else {
        (rank - 22 + 123) as u8
    }
}

/// The digit that stands for a byte: its index in the alphabet of the flags, which
/// lists the common punctuation, then the lower-case letters, the digits, the
/// upper-case letters and the rare punctuation, each class only if its flag is set.
pub open spec fn digit_of(flags: u8, byte: u8) -> nat {
    if is_common_punct(byte) {
        common_rank(byte)
    } else if is_lower(byte) {
        lower_start(flags) + (byte - 97) as nat
    } else if is_numeral(byte) {
        numeral_start(flags) + (byte - 48) as nat
    } else if is_upper(byte) {
        upper_start(flags) + (byte - 65) as nat
    } else {
        rare_start(flags) + rare_rank(byte)
    }
}

/// The byte that a digit stands for: the character at that index of the alphabet.
pub open spec fn symbol_of(flags: u8, digit: nat) -> u8 {
    if digit < lower_start(flags) {
        common_at(digit)
    } else if digit < numeral_start(flags) {
        (digit - lower_start(flags) + 97) as u8
    } else if digit < upper_start(flags) {
        (digit - numeral_start(flags) + 48) as u8
    } else if digit < rare_start(flags) {
        (digit - upper_start(flags) + 65) as u8
    } else {
        rare_at((digit - rare_start(flags)) as nat)
    }
}

/// The digits that stand for the bytes of a string.
pub open spec fn digits_of(flags: u8, bytes: Seq<u8>) -> Seq<u64> {
    Seq::new(bytes.len(), |i: int| digit_of(flags, bytes[i]) as u64)
}

/// The bytes that a run of digits stands for.
pub open spec fn symbols_of(flags: u8, digits: Seq<u64>) -> Seq<u8> {
    Seq::new(digits.len(), |i: int| symbol_of(flags, digits[i] as nat))
}

/// Testing a flag with a mask is testing the bit of its power of two.
proof fn lemma_flag_bits(flags: u8)
    by (bit_vector)
    ensures
        (flags & 1 != 0) == ((flags / 1) % 2 == 1),
        (flags & 2 != 0) == ((flags / 2) % 2 == 1),
        (flags & 4 != 0) == ((flags / 4) % 2 == 1),
        (flags & 8 != 0) == ((flags / 8) % 2 == 1),
{
}

/// A byte of the character set has a digit below the size of the alphabet, and the
/// digit stands for that byte.
pub proof fn lemma_digit_roundtrip(flags: u8, byte: u8)
    requires
        in_charset(flags, byte),
    ensures
        digit_of(flags, byte) < charset_size(flags),
        symbol_of(flags, digit_of(flags, byte)) == byte,
        7 <= charset_size(flags) <= 95,
{
}

/// A digit below the size of the alphabet stands for a printable byte of the
/// character set, whose digit it is.
pub proof fn lemma_digit_of_symbol(flags: u8, digit: nat)
    requires
        digit < charset_size(flags),
    ensures
        in_charset(flags, symbol_of(flags, digit)),
        is_printable(symbol_of(flags, digit)),
        digit_of(flags, symbol_of(flags, digit)) == digit,
{
}

/// The flags of a string of printable characters name a character set that holds
/// each of its bytes.
pub proof fn lemma_charset_flags(bytes: Seq<u8>, i: int)
    requires
        all_printable(bytes),
        0 <= i < bytes.len(),
    ensures
        in_charset(charset_flags(bytes), bytes[i]),
        charset_flags(bytes) < 16,
{
    assert(is_printable(bytes[i]));
}

/// Whether a set of flags holds a flag.
fn flag_set(flags: u8, flag: u8) -> (set: bool)
    requires
        flag == 1 || flag == 2 || flag == 4 || flag == 8,
    ensures
        set == has_flag(flags, flag),
{
    proof {
        lemma_flag_bits(flags);
    }
    flags & flag != 0
}

/// The flags of the classes that the bytes of a string fall in; `None` for a string
/// that holds a byte which is no printable ASCII character.
pub fn detect_charset(bytes: &[u8]) -> (flags: Option<u8>)
    ensures
        match flags {
            Some(f) => all_printable(bytes@) && f == charset_flags(bytes@) && f < 16,
            None => !all_printable(bytes@),
        },
{
    let mut upper = false;
    let mut lower = false;
    let mut numeral = false;
    let mut rare = false;
    let mut i: usize = 0;
    while i < bytes.len()
        invariant
            i <= bytes.len(),
            all_printable(bytes@.take(i as int)),
            upper == exists|j: int| 0 <= j < i && is_upper(#[trigger] bytes@[j]),
            lower == exists|j: int| 0 <= j < i && is_lower(#[trigger] bytes@[j]),
            numeral == exists|j: int| 0 <= j < i && is_numeral(#[trigger] bytes@[j]),
            rare == exists|j: int| 0 <= j < i && is_rare_punct(#[trigger] bytes@[j]),
        decreases bytes.len() - i,
    {
        let byte = bytes[i];
        if byte < 32 || byte > 126 {
            proof {
                assert(!is_printable(bytes@[i as int]));
            }
            return None;
        }
        proof {
            assert forall|j: int| 0 <= j < i + 1 implies is_printable(
                #[trigger] bytes@.take(i + 1)[j],
            ) by {
                if j < i {
                    assert(bytes@.take(i as int)[j] == bytes@[j]);
                }
            }
        }
        if 65 <= byte && byte <= 90 {
            upper = true;
        } else if 97 <= byte && byte <= 122 {
            lower = true;
        } else if 48 <= byte && byte <= 57 {
            numeral = true;
        } else if !(byte == 32 || byte == 44 || byte == 45 || byte == 46 || byte == 47 || byte
            == 58 || byte == 95) {
            rare = true;
        }
        i += 1;
    }
    proof {
        assert(bytes@.take(bytes.len() as int) =~= bytes@);
    }
    let mut flags: u8 = 0;
    if upper {
        flags = flags + UPPER;
    }
    if lower {
        flags = flags + LOWER;
    }
    if numeral {
        flags = flags + NUMERAL;
    }
    if rare {
        flags = flags + RARE_PUNCT;
    }
    Some(flags)
}

/// The size of the alphabet of a set of flags.
pub fn charset_len(flags: u8) -> (size: u64)
    ensures
        size == charset_size(flags),
        7 <= size <= 95,
{
    let mut size = COMMON_PUNCT;
    if flag_set(flags, LOWER) {
        size = size + 26;
    }
    if flag_set(flags, NUMERAL) {
        size = size + 10;
    }
    if flag_set(flags, UPPER) {
        size = size + 26;
    }
    if flag_set(flags, RARE_PUNCT) {
        size = size + 26;
    }
    size
}

/// The digit that stands for a byte of the character set.
pub fn byte_to_digit(flags: u8, byte: u8) -> (digit: u64)
    requires
        in_charset(flags, byte),
    ensures
        digit == digit_of(flags, byte),
        digit < charset_size(flags),
{
    let lower_start: u64 = COMMON_PUNCT;
    let numeral_start: u64 = lower_start + if flag_set(flags, LOWER) {
        26
    } else {
        0
    };
    let upper_start: u64 = numeral_start + if flag_set(flags, NUMERAL) {
        10
    } else {
        0
    };
    let rare_start: u64 = upper_start + if flag_set(flags, UPPER) {
        26
    } else {
        0
    };
    if byte == 32 {
        0
    } else if byte == 95 {
        6
    } else if byte == 58 {
        5
    } else if 44 <= byte && byte <= 47 {
        (byte - 43) as u64
    } else if 97 <= byte && byte <= 122 {
        lower_start + (byte - 97) as u64
    } else if 48 <= byte && byte <= 57 {
        numeral_start + (byte - 48) as u64
    } else if 65 <= byte && byte <= 90 {
        upper_start + (byte - 65) as u64
    } else if byte <= 43 {
        rare_start + (byte - 33) as u64
    } else if byte <= 64 {
        rare_start + (byte - 59 + 11) as u64
    } else if byte <= 94 {
        rare_start + (byte - 91 + 17) as u64
    } else if byte == 96 {
        rare_start + 21
    } else {
        rare_start + (byte - 123 + 22) as u64
    }
}

/// The byte that a digit below the size of the alphabet stands for.
pub fn digit_to_byte(flags: u8, digit: u64) -> (byte: u8)
    requires
        digit < charset_size(flags),
    ensures
        byte == symbol_of(flags, digit as nat),
        in_charset(flags, byte),
        is_printable(byte),
{
    let lower_start: u64 = COMMON_PUNCT;
    let numeral_start: u64 = lower_start + if flag_set(flags, LOWER) {
        26
    } else {
        0
    };
    let upper_start: u64 = numeral_start + if flag_set(flags, NUMERAL) {
        10
    } else {
        0
    };
    let rare_start: u64 = upper_start + if flag_set(flags, UPPER) {
        26
    } else {
        0
    };
    if digit < lower_start {
        if digit == 0 {
            32
        } else if digit == 6 {
            95
        } else if digit == 5 {
            58
        } else {
            (digit + 43) as u8
        }
    } else if digit < numeral_start {
        (digit - lower_start + 97) as u8
    } else if digit < upper_start {
        (digit - numeral_start + 48) as u8
    } else if digit < rare_start {
        (digit - upper_start + 65) as u8
    } else {
        let rank = digit - rare_start;
        if rank < 11 {
            (rank + 33) as u8
        } else if rank < 17 {
            (rank - 11 + 59) as u8
        } else if rank < 21 {
            (rank - 17 + 91) as u8
        } else if rank == 21 {
            96
        } else {
            (rank - 22 + 123) as u8
        }
    }
}

/// The best bundle size for digits below `m`.
pub open spec fn optimal_size(m: nat) -> nat {
    choose|k: nat| is_optimal_bundle(m, k)
}

/// There is one best bundle size.
pub proof fn lemma_optimal_unique(m: nat, k: nat)
    requires
        is_optimal_bundle(m, k),
    ensures
        optimal_size(m) == k,
{
    let other = optimal_size(m);
    assert(is_optimal_bundle(m, other));
    assert(crate::ultra_packer::no_worse(m, k, other));
    assert(crate::ultra_packer::no_worse(m, other, k));
}

/// The bundles of a run of digits below `m`: bundles of `k` digits, each with the
/// width of such a bundle, then one of the digits that are left, with the width that
/// so many digits need.
pub open spec fn bundles_bits(digits: Seq<u64>, m: nat, k: nat) -> Seq<bool>
    decreases digits.len(),
{
    if digits.len() == 0 || k == 0 {
        Seq::<bool>::empty()
    } else if digits.len() < k {
        value_bits(digits_value(digits, m), bundle_bits(m, digits.len()))
    } else {
        value_bits(digits_value(digits.take(k as int), m), bundle_bits(m, k)) + bundles_bits(
            digits.skip(k as int),
            m,
            k,
        )
    }
}

/// The ultrapack form of a string over the character set of `flags`: the flags in
/// four bits, the length, and the bundles of the digits that stand for the bytes.
pub open spec fn ultrapack_bits(flags: u8, bytes: Seq<u8>) -> Seq<bool> {
    let m = charset_size(flags);
    value_bits(flags as nat, 4) + varint_bits(bytes.len()) + bundles_bits(
        digits_of(flags, bytes),
        m,
        optimal_size(m),
    )
}

/// What a byte of an ASCII string is written as: its code, or its low seven bits
/// where it has no code.
pub open spec fn ascii_byte_bits(lens: Seq<u8>, byte: u8) -> Seq<bool> {
    if lens[byte as int] > 0 {
        code_bits(lens, byte as int)
    } else {
        value_bits(byte as nat, 7)
    }
}

/// What the bytes of an ASCII string are written as, one behind the other.
pub open spec fn ascii_bytes_bits(lens: Seq<u8>, bytes: Seq<u8>) -> Seq<bool>
    decreases bytes.len(),
{
    if bytes.len() == 0 {
        Seq::<bool>::empty()
    } else {
        ascii_bytes_bits(lens, bytes.drop_last()) + ascii_byte_bits(lens, bytes.last())
    }
}

/// The Huffman form of an ASCII string: the length, then each byte.
pub open spec fn huffman_bits(lens: Seq<u8>, bytes: Seq<u8>) -> Seq<bool> {
    varint_bits(bytes.len()) + ascii_bytes_bits(lens, bytes)
}

/// What a byte of a tagged string is written as: a zero and its code, or a one and
/// its eight bits where it has no code.
pub open spec fn tagged_byte_bits(lens: Seq<u8>, byte: u8) -> Seq<bool> {
    if lens[byte as int] > 0 {
        seq![false] + code_bits(lens, byte as int)
    } else {
        seq![true] + value_bits(byte as nat, 8)
    }
}

/// What the bytes of a tagged string are written as, one behind the other.
pub open spec fn tagged_bytes_bits(lens: Seq<u8>, bytes: Seq<u8>) -> Seq<bool>
    decreases bytes.len(),
{
    if bytes.len() == 0 {
        Seq::<bool>::empty()
    } else {
        tagged_bytes_bits(lens, bytes.drop_last()) + tagged_byte_bits(lens, bytes.last())
    }
}

/// The tagged form of a string of any bytes: the length, then each byte with its tag.
pub open spec fn unicode_bits(lens: Seq<u8>, bytes: Seq<u8>) -> Seq<bool> {
    varint_bits(bytes.len()) + tagged_bytes_bits(lens, bytes)
}

/// The bits that the bytes of an ASCII string take in the Huffman form: the length
/// of its code for each byte, seven for a byte without a code.
pub open spec fn ascii_cost(lens: Seq<u8>, bytes: Seq<u8>) -> nat
    decreases bytes.len(),
{
    if bytes.len() == 0 {
        0
    } else {
        ascii_cost(lens, bytes.drop_last()) + if lens[bytes.last() as int] > 0 {
            lens[bytes.last() as int] as nat
        } else {
            7
        }
    }
}

/// The bits that the Huffman form of a string takes, selector included.
pub open spec fn huffman_estimate(lens: Seq<u8>, bytes: Seq<u8>) -> nat {
    1 + varint_bits(bytes.len()).len() + ascii_cost(lens, bytes)
}

/// The bits that `count` digits below `m` take in bundles of `k`.
pub open spec fn bundles_cost(count: nat, m: nat, k: nat) -> nat {
    (count / k) * bundle_bits(m, k) + if count % k > 0 {
        bundle_bits(m, count % k)
    } else {
        0
    }
}

/// The bits that the ultrapack form of a string takes, selector included.
pub open spec fn ultrapack_estimate(flags: u8, bytes: Seq<u8>) -> nat {
    let m = charset_size(flags);
    1 + 4 + varint_bits(bytes.len()).len() + bundles_cost(bytes.len(), m, optimal_size(m))
}

/// An ASCII string is written in the Huffman form: it holds a byte that is no
/// printable character, or that form is estimated to take no more bits than the
/// ultrapack form.
pub open spec fn prefers_huffman(lens: Seq<u8>, bytes: Seq<u8>) -> bool {
    !all_printable(bytes) || huffman_estimate(lens, bytes) <= ultrapack_estimate(
        charset_flags(bytes),
        bytes,
    )
}

/// An ASCII string on the wire: a one and the Huffman form, or a zero and the
/// ultrapack form, whichever is estimated to be shorter.
pub open spec fn ascii_bits(lens: Seq<u8>, bytes: Seq<u8>) -> Seq<bool> {
    if prefers_huffman(lens, bytes) {
        seq![true] + huffman_bits(lens, bytes)
    } else {
        seq![false] + ultrapack_bits(charset_flags(bytes), bytes)
    }
}

/// A string on the wire: the adaptive form where all strings of the payload are
/// printable ASCII, else the tagged form.
pub open spec fn string_bits(lens: Seq<u8>, bytes: Seq<u8>, all_ascii: bool) -> Seq<bool> {
    if all_ascii {
        ascii_bits(lens, bytes)
    } else {
        unicode_bits(lens, bytes)
    }
}

/// Reads the bundles of `n` digits at `pos` and the bytes that they stand for.
pub open spec fn bundles_parse(stream: Seq<bool>, pos: int, n: nat, flags: u8, k: nat) -> Option<
    (Seq<u8>, int),
>
    decreases n,
{
    if n == 0 || k == 0 {
        Some((Seq::<u8>::empty(), pos))
    } else {
        let m = charset_size(flags);
        let r = if n < k {
            n
        } else {
            k
        };
        let w = bundle_bits(m, r);
        if 0 <= pos && pos + w <= stream.len() {
            let v = bits_value(stream.subrange(pos, pos + w));
            let head = symbols_of(flags, value_digits(v, m, r));
            match bundles_parse(stream, pos + w, (n - r) as nat, flags, k) {
                Some((rest, end)) => Some((head + rest, end)),
                None => None,
            }
        } else {
            None
        }
    }
}

/// Reads the ultrapack form of a string at `pos`.
pub open spec fn ultrapack_parse(stream: Seq<bool>, pos: int) -> Option<(Seq<u8>, int)> {
    if 0 <= pos && pos + 4 <= stream.len() {
        let flags = bits_value(stream.subrange(pos, pos + 4)) as u8;
        match varint_parse(stream, pos + 4) {
            Some((n, start)) => bundles_parse(
                stream,
                start,
                n,
                flags,
                optimal_size(charset_size(flags)),
            ),
            None => None,
        }
    } else {
        None
    }
}

/// Reads the Huffman form of a string at `pos`.
pub open spec fn huffman_parse(lens: Seq<u8>, stream: Seq<bool>, pos: int) -> Option<
    (Seq<u8>, int),
> {
    match varint_parse(stream, pos) {
        Some((n, start)) => symbols_parse(lens, stream, start, n),
        None => None,
    }
}

/// Reads one byte of a tagged string at `pos`: after a zero a code, after a one
/// eight bits.
pub open spec fn tagged_byte_parse(lens: Seq<u8>, stream: Seq<bool>, pos: int) -> Option<
    (u8, int),
> {
    if 0 <= pos < stream.len() {
        if stream[pos] {
            if pos + 9 <= stream.len() {
                Some((bits_value(stream.subrange(pos + 1, pos + 9)) as u8, pos + 9))
            } else {
                None
            }
        } else {
            symbol_parse(lens, stream, pos + 1)
        }
    } else {
        None
    }
}

/// Reads `n` bytes of a tagged string from `pos` on.
pub open spec fn tagged_bytes_parse(lens: Seq<u8>, stream: Seq<bool>, pos: int, n: nat) -> Option<
    (Seq<u8>, int),
>
    decreases n,
{
    if n == 0 {
        Some((Seq::<u8>::empty(), pos))
    } else {
        match tagged_bytes_parse(lens, stream, pos, (n - 1) as nat) {
            Some((front, mid)) => match tagged_byte_parse(lens, stream, mid) {
                Some((byte, next)) => Some((front.push(byte), next)),
                None => None,
            },
            None => None,
        }
    }
}

/// Reads the tagged form of a string at `pos`.
pub open spec fn unicode_parse(lens: Seq<u8>, stream: Seq<bool>, pos: int) -> Option<
    (Seq<u8>, int),
> {
    match varint_parse(stream, pos) {
        Some((n, start)) => tagged_bytes_parse(lens, stream, start, n),
        None => None,
    }
}

/// Reads an ASCII string at `pos`: the selector, then the form that it names.
pub open spec fn ascii_parse(lens: Seq<u8>, stream: Seq<bool>, pos: int) -> Option<
    (Seq<u8>, int),
> {
    if 0 <= pos < stream.len() {
        if stream[pos] {
            huffman_parse(lens, stream, pos + 1)
        } else {
            ultrapack_parse(stream, pos + 1)
        }
    } else {
        None
    }
}

/// Reads the bytes of a string at `pos`.
pub open spec fn string_parse(lens: Seq<u8>, stream: Seq<bool>, pos: int, all_ascii: bool) -> Option<
    (Seq<u8>, int),
> {
    if all_ascii {
        ascii_parse(lens, stream, pos)
    } else {
        unicode_parse(lens, stream, pos)
    }
}

/// Every byte is in the character set of the flags.
pub open spec fn all_in_charset(flags: u8, bytes: Seq<u8>) -> bool {
    forall|i: int| 0 <= i < bytes.len() ==> in_charset(flags, #[trigger] bytes[i])
}

/// The bits that the bytes of an ASCII string take in the Huffman form.
pub fn huffman_cost(bytes: &[u8], table: &HuffmanTable) -> (cost: u128)
    ensures
        cost == ascii_cost(table@, bytes@),
        cost <= 12 * bytes@.len(),
{
    let mut cost: u128 = 0;
    let mut i: usize = 0;
    while i < bytes.len()
        invariant
            i <= bytes.len(),
            cost == ascii_cost(table@, bytes@.take(i as int)),
            cost <= 12 * i,
        decreases bytes.len() - i,
    {
        let (_, len) = table.get_code(bytes[i]);
        proof {
            assert(bytes@.take(i + 1).drop_last() =~= bytes@.take(i as int));
        }
        cost = cost + if len > 0 {
            len as u128
        } else {
            7
        };
        i += 1;
    }
    proof {
        assert(bytes@.take(bytes.len() as int) =~= bytes@);
    }
    cost
}

/// The bits that `count` digits of the alphabet of `flags` take in bundles.
pub fn ultrapack_cost(flags: u8, count: usize) -> (cost: u128)
    ensures
        cost == bundles_cost(
            count as nat,
            charset_size(flags),
            optimal_size(charset_size(flags)),
        ),
        cost <= 0xffff_ffff_ffff_ffff * 64 + 64,
{
    let m = charset_len(flags);
    let (k, bits) = find_optimal_bundle(m);
    proof {
        lemma_optimal_unique(m as nat, k as nat);
    }
    let full = count / (k as usize);
    let left = (count % (k as usize)) as u8;
    proof {
        assert(full * bits <= 0xffff_ffff_ffff_ffff * 64) by (nonlinear_arith)
            requires
                full <= 0xffff_ffff_ffff_ffff,
                bits <= 64,
        ;
    }
    let mut cost: u128 = full as u128 * bits as u128;
    if left > 0 {
        proof {
            lemma_power_increases(m as nat, left as nat, k as nat);
        }
        cost = cost + bits_for_bundle(m, left) as u128;
    }
    cost
}

impl BitPacker {
    /// Appends the ultrapack form of a string over the character set of `flags`.
    pub fn write_ultrapack(&mut self, bytes: &[u8], flags: u8)
        requires
            old(self).wf(),
            all_in_charset(flags, bytes@),
        ensures
            final(self).wf(),
            final(self)@ == old(self)@ + ultrapack_bits(flags, bytes@),
    {
        self.write_bits(flags, 4);
        self.write_varint(bytes.len() as u64);
        let m = charset_len(flags);
        let (k, bits) = find_optimal_bundle(m);
        let ghost all = digits_of(flags, bytes@);
        let ghost base = self@;
        let ghost written = Seq::<bool>::empty();
        proof {
            lemma_optimal_unique(m as nat, k as nat);
            assert(base + written =~= base);
            assert(all.skip(0) =~= all);
            assert(written + bundles_bits(all, m as nat, k as nat) =~= bundles_bits(
                all,
                m as nat,
                k as nat,
            ));
        }
        let mut digits: Vec<u64> = Vec::new();
        let mut i: usize = 0;
        while i < bytes.len()
            invariant
                i <= bytes.len(),
                self.wf(),
                m == charset_size(flags),
                is_optimal_bundle(m as nat, k as nat),
                bits == bundle_bits(m as nat, k as nat),
                bits <= 64,
                all == digits_of(flags, bytes@),
                all_in_charset(flags, bytes@),
                self@ == base + written,
                written + bundles_bits(all.skip(i as int), m as nat, k as nat) == bundles_bits(
                    all,
                    m as nat,
                    k as nat,
                ),
            decreases bytes.len() - i,
        {
            let left = bytes.len() - i;
            let size: u8 = if left < k as usize {
                left as u8
            } else {
                k
            };
            digits.clear();
            let mut j: usize = 0;
            while j < size as usize
                invariant
                    j <= size,
                    i + size <= bytes.len(),
                    all == digits_of(flags, bytes@),
                    all_in_charset(flags, bytes@),
                    m == charset_size(flags),
                    digits@ == all.subrange(i as int, i + j),
                decreases size - j,
            {
                proof {
                    assert(in_charset(flags, bytes@[i + j]));
                    assert(all.subrange(i as int, i + j).push(all[i + j]) =~= all.subrange(
                        i as int,
                        i + j + 1,
                    ));
                }
                digits.push(byte_to_digit(flags, bytes[i + j]));
                j += 1;
            }
            proof {
                lemma_power_increases(m as nat, size as nat, k as nat);
                assert forall|d: int| 0 <= d < digits@.len() implies (#[trigger] digits@[d] as nat)
                    < m as nat by {
                    assert(in_charset(flags, bytes@[i + d]));
                    lemma_digit_roundtrip(flags, bytes@[i + d]);
                }
            }
            let width = if size == k {
                bits
            } else {
                bits_for_bundle(m, size)
            };
            let bundle = encode(size, m, digits.as_slice());
            write_bundle(self, width, bundle);
            proof {
                let rest = all.skip(i as int);
                let piece = value_bits(bundle as nat, width as nat);
                if size < k {
                    assert(rest =~= digits@);
                    assert(all.skip(i + size) =~= Seq::<u64>::empty());
                    assert(bundles_bits(rest, m as nat, k as nat) =~= piece + bundles_bits(
                        all.skip(i + size),
                        m as nat,
                        k as nat,
                    ));
                } else {
                    assert(rest.take(k as int) =~= digits@);
                    assert(rest.skip(k as int) =~= all.skip(i + size));
                }
                assert((written + piece) + bundles_bits(all.skip(i + size), m as nat, k as nat)
                    =~= written + (piece + bundles_bits(all.skip(i + size), m as nat, k as nat)));
                assert(base + (written + piece) =~= (base + written) + piece);
                written = written + piece;
            }
            i += size as usize;
        }
        proof {
            assert(all.skip(bytes.len() as int) =~= Seq::<u64>::empty());
            assert(written + Seq::<bool>::empty() =~= written);
            assert(old(self)@ + (value_bits(flags as nat, 4) + varint_bits(bytes@.len()) + written)
                =~= ((old(self)@ + value_bits(flags as nat, 4)) + varint_bits(bytes@.len()))
                + written);
        }
    }

    /// Appends the Huffman form of an ASCII string.
    pub fn write_huffman(&mut self, bytes: &[u8], table: &HuffmanTable)
        requires
            old(self).wf(),
        ensures
            final(self).wf(),
            final(self)@ == old(self)@ + huffman_bits(table@, bytes@),
    {
        self.write_varint(bytes.len() as u64);
        let ghost base = self@;
        let mut i: usize = 0;
        proof {
            assert(base + ascii_bytes_bits(table@, bytes@.take(0)) =~= base);
        }
        while i < bytes.len()
            invariant
                i <= bytes.len(),
                self.wf(),
                self@ == base + ascii_bytes_bits(table@, bytes@.take(i as int)),
            decreases bytes.len() - i,
        {
            let byte = bytes[i];
            let (code, len) = table.get_code(byte);
            proof {
                assert(bytes@.take(i + 1).drop_last() =~= bytes@.take(i as int));
                assert(base + (ascii_bytes_bits(table@, bytes@.take(i as int)) + ascii_byte_bits(
                    table@,
                    byte,
                )) =~= (base + ascii_bytes_bits(table@, bytes@.take(i as int))) + ascii_byte_bits(
                    table@,
                    byte,
                ));
            }
            if len > 0 {
                self.write_bits_u32(code, len);
            } else {
                self.write_bits(byte & 0x7f, 7);
                proof {
                    lemma_low_seven(byte);
                    crate::bits::lemma_value_bits_mod(byte as nat, 7);
                    vstd::arithmetic::power2::lemma2_to64();
                }
            }
            i += 1;
        }
        proof {
            assert(bytes@.take(bytes.len() as int) =~= bytes@);
            assert(old(self)@ + (varint_bits(bytes@.len()) + ascii_bytes_bits(table@, bytes@))
                =~= (old(self)@ + varint_bits(bytes@.len())) + ascii_bytes_bits(table@, bytes@));
        }
    }

    /// Appends the tagged form of a string of any bytes.
    pub fn write_unicode(&mut self, bytes: &[u8], table: &HuffmanTable)
        requires
            old(self).wf(),
        ensures
            final(self).wf(),
            final(self)@ == old(self)@ + unicode_bits(table@, bytes@),
    {
        self.write_varint(bytes.len() as u64);
        let ghost base = self@;
        let mut i: usize = 0;
        proof {
            assert(base + tagged_bytes_bits(table@, bytes@.take(0)) =~= base);
        }
        while i < bytes.len()
            invariant
                i <= bytes.len(),
                self.wf(),
                self@ == base + tagged_bytes_bits(table@, bytes@.take(i as int)),
            decreases bytes.len() - i,
        {
            let byte = bytes[i];
            let (code, len) = table.get_code(byte);
            let ghost before = self@;
            proof {
                assert(bytes@.take(i + 1).drop_last() =~= bytes@.take(i as int));
                assert(base + (tagged_bytes_bits(table@, bytes@.take(i as int))
                    + tagged_byte_bits(table@, byte)) =~= (base + tagged_bytes_bits(
                    table@,
                    bytes@.take(i as int),
                )) + tagged_byte_bits(table@, byte));
            }
            if len > 0 {
                self.write_bit(false);
                self.write_bits_u32(code, len);
                proof {
                    assert(before.push(false) + code_bits(table@, byte as int) =~= before + (
                    seq![false] + code_bits(table@, byte as int)));
                }
            } else {
                self.write_bit(true);
                self.write_byte(byte);
                proof {
                    assert(before.push(true) + value_bits(byte as nat, 8) =~= before + (seq![true]
                        + value_bits(byte as nat, 8)));
                }
            }
            i += 1;
        }
        proof {
            assert(bytes@.take(bytes.len() as int) =~= bytes@);
            assert(old(self)@ + (varint_bits(bytes@.len()) + tagged_bytes_bits(table@, bytes@))
                =~= (old(self)@ + varint_bits(bytes@.len())) + tagged_bytes_bits(table@, bytes@));
        }
    }

    /// Appends the bytes of a string: in the adaptive form where `all_ascii` says that
    /// all strings of the payload are printable ASCII, else in the tagged form.
    pub fn write_string_bytes(&mut self, bytes: &[u8], all_ascii: bool, table: &HuffmanTable)
        requires
            old(self).wf(),
        ensures
            final(self).wf(),
            final(self)@ == old(self)@ + string_bits(table@, bytes@, all_ascii),
    {
        if !all_ascii {
            self.write_unicode(bytes, table);
            return ;
        }
        let ghost before = self@;
        let length_bits = varint_len(bytes.len() as u64) as u128;
        let huffman = 1 + length_bits + huffman_cost(bytes, table);
        match detect_charset(bytes) {
            Some(flags) => {
                let ultrapack = 1 + 4 + length_bits + ultrapack_cost(flags, bytes.len());
                if huffman <= ultrapack {
                    self.write_bit(true);
                    self.write_huffman(bytes, table);
                    proof {
                        assert(before.push(true) + huffman_bits(table@, bytes@) =~= before + (
                        seq![true] + huffman_bits(table@, bytes@)));
                    }
                } else {
                    proof {
                        assert forall|i: int| 0 <= i < bytes@.len() implies in_charset(
                            flags,
                            #[trigger] bytes@[i],
                        ) by {
                            lemma_charset_flags(bytes@, i);
                        }
                    }
                    self.write_bit(false);
                    self.write_ultrapack(bytes, flags);
                    proof {
                        assert(before.push(false) + ultrapack_bits(flags, bytes@) =~= before + (
                        seq![false] + ultrapack_bits(flags, bytes@)));
                    }
                }
            },
            None => {
                self.write_bit(true);
                self.write_huffman(bytes, table);
                proof {
                    assert(before.push(true) + huffman_bits(table@, bytes@) =~= before + (
                    seq![true] + huffman_bits(table@, bytes@)));
                }
            },
        }
    }
}

/// The low seven bits of a byte are the byte modulo 128.
proof fn lemma_low_seven(byte: u8)
    by (bit_vector)
    ensures
        byte & 0x7f == byte % 128,
{
}

/// Where a number of tagged bytes cannot be read, no greater number can.
pub proof fn lemma_tagged_parse_fails(lens: Seq<u8>, stream: Seq<bool>, pos: int, n: nat, m: nat)
    requires
        n <= m,
        tagged_bytes_parse(lens, stream, pos, n).is_none(),
    ensures
        tagged_bytes_parse(lens, stream, pos, m).is_none(),
    decreases m - n,
{
    if n < m {
        lemma_tagged_parse_fails(lens, stream, pos, n + 1, m);
    }
}

impl<'a> BitUnpacker<'a> {
    /// Reads the ultrapack form of a string.
    pub fn read_ultrapack(&mut self) -> (bytes: Option<Vec<u8>>)
        ensures
            final(self).stream() == old(self).stream(),
            match ultrapack_parse(old(self).stream(), old(self).position() as int) {
                Some((parsed, next)) => bytes.is_some() && bytes.unwrap()@ == parsed
                    && final(self).position() == next,
                None => bytes.is_none() && final(self).position() == old(self).position(),
            },
    {
        let saved = *self;
        let ghost stream = self.stream();
        let flags = match self.read_bits(4) {
            Some(flags) => flags,
            None => {
                return None;
            },
        };
        let count = match self.read_varint() {
            Some(count) => count,
            None => {
                *self = saved;
                return None;
            },
        };
        let m = charset_len(flags);
        let (k, bits) = find_optimal_bundle(m);
        let ghost start = self.position() as int;
        let mut result: Vec<u8> = Vec::new();
        let mut left: u64 = count;
        proof {
            lemma_optimal_unique(m as nat, k as nat);
            match bundles_parse(stream, start, count as nat, flags, k as nat) {
                Some((rest, end)) => {
                    assert(result@ + rest =~= rest);
                },
                None => {},
            }
        }
        while left > 0
            invariant
                self.stream() == stream,
                old(self).stream() == stream,
                saved.stream() == stream,
                saved.position() == old(self).position(),
                m == charset_size(flags),
                is_optimal_bundle(m as nat, k as nat),
                bits == bundle_bits(m as nat, k as nat),
                bits <= 64,
                ultrapack_parse(stream, old(self).position() as int) == bundles_parse(
                    stream,
                    start,
                    count as nat,
                    flags,
                    k as nat,
                ),
                bundles_parse(stream, start, count as nat, flags, k as nat) == match bundles_parse(
                    stream,
                    self.position() as int,
                    left as nat,
                    flags,
                    k as nat,
                ) {
                    Some((rest, end)) => Some((result@ + rest, end)),
                    None => None,
                },
            decreases left,
        {
            let size: u8 = if left < k as u64 {
                left as u8
            } else {
                k
            };
            proof {
                lemma_power_increases(m as nat, size as nat, k as nat);
            }
            let width = if size == k {
                bits
            } else {
                bits_for_bundle(m, size)
            };
            let ghost here = self.position() as int;
            let ghost before = result@;
            match read_bundle(self, width) {
                Some(bundle) => {
                    let digits = decode(size, m, bundle);
                    let ghost head = symbols_of(flags, digits@);
                    let mut j: usize = 0;
                    proof {
                        assert(before + head.take(0) =~= before);
                    }
                    while j < size as usize
                        invariant
                            j <= size,
                            digits@.len() == size,
                            m == charset_size(flags),
                            digits@ == value_digits(bundle as nat, m as nat, size as nat),
                            head == symbols_of(flags, digits@),
                            result@ == before + head.take(j as int),
                        decreases size - j,
                    {
                        proof {
                            assert(digits@[j as int] < m);
                            assert(before + head.take(j + 1) =~= (before + head.take(j as int)).push(
                                head[j as int],
                            ));
                        }
                        result.push(digit_to_byte(flags, digits[j]));
                        j += 1;
                    }
                    proof {
                        assert(head.take(size as int) =~= head);
                        match bundles_parse(
                            stream,
                            here + width,
                            (left - size) as nat,
                            flags,
                            k as nat,
                        ) {
                            Some((rest, end)) => {
                                assert((before + head) + rest =~= before + (head + rest));
                            },
                            None => {},
                        }
                    }
                },
                None => {
                    *self = saved;
                    return None;
                },
            }
            left = left - size as u64;
        }
        proof {
            assert(result@ + Seq::<u8>::empty() =~= result@);
        }
        Some(result)
    }

    /// Reads the Huffman form of an ASCII string.
    pub fn read_huffman(&mut self, table: &HuffmanTable) -> (bytes: Option<Vec<u8>>)
        ensures
            final(self).stream() == old(self).stream(),
            match huffman_parse(table@, old(self).stream(), old(self).position() as int) {
                Some((parsed, next)) => bytes.is_some() && bytes.unwrap()@ == parsed
                    && final(self).position() == next,
                None => bytes.is_none() && final(self).position() == old(self).position(),
            },
    {
        let saved = *self;
        let ghost stream = self.stream();
        let count = match self.read_varint() {
            Some(count) => count,
            None => {
                return None;
            },
        };
        let ghost start = self.position() as int;
        let mut result: Vec<u8> = Vec::new();
        let mut i: u64 = 0;
        while i < count
            invariant
                i <= count,
                self.stream() == stream,
                old(self).stream() == stream,
                saved.stream() == stream,
                saved.position() == old(self).position(),
                varint_parse(stream, old(self).position() as int) == Some((count as nat, start)),
                symbols_parse(table@, stream, start, i as nat) == Some(
                    (result@, self.position() as int),
                ),
            decreases count - i,
        {
            match table.decode_symbol(self) {
                Some(symbol) => {
                    result.push(symbol);
                },
                None => {
                    proof {
                        crate::huffman::lemma_symbols_parse_fails(
                            table@,
                            stream,
                            start,
                            (i + 1) as nat,
                            count as nat,
                        );
                    }
                    *self = saved;
                    return None;
                },
            }
            i += 1;
        }
        Some(result)
    }

    /// Reads one byte of a tagged string.
    pub fn read_tagged_byte(&mut self, table: &HuffmanTable) -> (byte: Option<u8>)
        ensures
            final(self).stream() == old(self).stream(),
            match tagged_byte_parse(table@, old(self).stream(), old(self).position() as int) {
                Some((parsed, next)) => byte == Some(parsed) && final(self).position() == next,
                None => byte.is_none() && final(self).position() == old(self).position(),
            },
    {
        let saved = *self;
        match self.read_bit() {
            Some(raw) => {
                let byte = if raw {
                    self.read_byte()
                } else {
                    table.decode_symbol(self)
                };
                if byte.is_none() {
                    *self = saved;
                }
                byte
            },
            None => None,
        }
    }

    /// Reads the tagged form of a string of any bytes.
    pub fn read_unicode(&mut self, table: &HuffmanTable) -> (bytes: Option<Vec<u8>>)
        ensures
            final(self).stream() == old(self).stream(),
            match unicode_parse(table@, old(self).stream(), old(self).position() as int) {
                Some((parsed, next)) => bytes.is_some() && bytes.unwrap()@ == parsed
                    && final(self).position() == next,
                None => bytes.is_none() && final(self).position() == old(self).position(),
            },
    {
        let saved = *self;
        let ghost stream = self.stream();
        let count = match self.read_varint() {
            Some(count) => count,
            None => {
                return None;
            },
        };
        let ghost start = self.position() as int;
        let mut result: Vec<u8> = Vec::new();
        let mut i: u64 = 0;
        while i < count
            invariant
                i <= count,
                self.stream() == stream,
                old(self).stream() == stream,
                saved.stream() == stream,
                saved.position() == old(self).position(),
                varint_parse(stream, old(self).position() as int) == Some((count as nat, start)),
                tagged_bytes_parse(table@, stream, start, i as nat) == Some(
                    (result@, self.position() as int),
                ),
            decreases count - i,
        {
            match self.read_tagged_byte(table) {
                Some(byte) => {
                    result.push(byte);
                },
                None => {
                    proof {
                        lemma_tagged_parse_fails(
                            table@,
                            stream,
                            start,
                            (i + 1) as nat,
                            count as nat,
                        );
                    }
                    *self = saved;
                    return None;
                },
            }
            i += 1;
        }
        Some(result)
    }

    /// Reads the bytes of a string: in the adaptive form where `all_ascii` says that
    /// all strings of the payload are printable ASCII, else in the tagged form.
    pub fn read_string_bytes(&mut self, all_ascii: bool, table: &HuffmanTable) -> (bytes: Option<
        Vec<u8>,
    >)
        ensures
            final(self).stream() == old(self).stream(),
            match string_parse(
                table@,
                old(self).stream(),
                old(self).position() as int,
                all_ascii,
            ) {
                Some((parsed, next)) => bytes.is_some() && bytes.unwrap()@ == parsed
                    && final(self).position() == next,
                None => bytes.is_none() && final(self).position() == old(self).position(),
            },
    {
        if !all_ascii {
            return self.read_unicode(table);
        }
        let saved = *self;
        match self.read_bit() {
            Some(huffman) => {
                let bytes = if huffman {
                    self.read_huffman(table)
                } else {
                    self.read_ultrapack()
                };
                if bytes.is_none() {
                    *self = saved;
                }
                bytes
            },
            None => None,
        }
    }
}

/// A string on the wire: the form of its UTF-8 bytes.
pub open spec fn text_bits(lens: Seq<u8>, text: Seq<char>, all_ascii: bool) -> Seq<bool> {
    string_bits(lens, encode_utf8(text), all_ascii)
}

/// A run of strings on the wire, one behind the other.
pub open spec fn texts_bits(lens: Seq<u8>, texts: Seq<Seq<char>>, all_ascii: bool) -> Seq<bool>
    decreases texts.len(),
{
    if texts.len() == 0 {
        Seq::<bool>::empty()
    } else {
        texts_bits(lens, texts.drop_last(), all_ascii) + text_bits(lens, texts.last(), all_ascii)
    }
}

/// Every string of a run has at most `2^64 - 1` bytes of UTF-8.
pub open spec fn texts_fit(texts: Seq<Seq<char>>) -> bool {
    forall|i: int| 0 <= i < texts.len() ==> encode_utf8(#[trigger] texts[i]).len() <= u64::MAX
}

/// Every string of a run holds printable ASCII characters only.
pub open spec fn texts_printable(texts: Seq<Seq<char>>) -> bool {
    forall|i: int| 0 <= i < texts.len() ==> all_printable(encode_utf8(#[trigger] texts[i]))
}

/// The characters of each of a run of borrowed strings.
pub open spec fn texts_of(strings: Seq<&str>) -> Seq<Seq<char>> {
    Seq::new(strings.len(), |i: int| strings[i]@)
}

/// The characters of each of a run of owned strings.
pub open spec fn owned_texts(strings: Seq<String>) -> Seq<Seq<char>> {
    Seq::new(strings.len(), |i: int| strings[i]@)
}

/// Reads a string at `pos`: its bytes, which must be UTF-8.
pub open spec fn text_parse(lens: Seq<u8>, stream: Seq<bool>, pos: int, all_ascii: bool) -> Option<
    (Seq<char>, int),
> {
    match string_parse(lens, stream, pos, all_ascii) {
        Some((bytes, next)) => if valid_utf8(bytes) {
            Some((decode_utf8(bytes), next))
        } else {
            None
        },
        None => None,
    }
}

/// Reads `n` strings from `pos` on.
pub open spec fn texts_parse(
    lens: Seq<u8>,
    stream: Seq<bool>,
    pos: int,
    n: nat,
    all_ascii: bool,
) -> Option<(Seq<Seq<char>>, int)>
    decreases n,
{
    if n == 0 {
        Some((Seq::<Seq<char>>::empty(), pos))
    } else {
        match texts_parse(lens, stream, pos, (n - 1) as nat, all_ascii) {
            Some((front, mid)) => match text_parse(lens, stream, mid, all_ascii) {
                Some((text, next)) => Some((front.push(text), next)),
                None => None,
            },
            None => None,
        }
    }
}

/// Where a number of strings cannot be read, no greater number can.
pub proof fn lemma_texts_parse_fails(
    lens: Seq<u8>,
    stream: Seq<bool>,
    pos: int,
    n: nat,
    m: nat,
    all_ascii: bool,
)
    requires
        n <= m,
        texts_parse(lens, stream, pos, n, all_ascii).is_none(),
    ensures
        texts_parse(lens, stream, pos, m, all_ascii).is_none(),
    decreases m - n,
{
    if n < m {
        lemma_texts_parse_fails(lens, stream, pos, n + 1, m, all_ascii);
    }
}

/// `String::from_utf8` of the standard library: a string is returned exactly for
/// bytes that are valid UTF-8, and its UTF-8 bytes are then the bytes given.
#[verifier::external_body]
fn string_from_utf8(bytes: Vec<u8>) -> (text: Option<String>)
    ensures
        match text {
            Some(s) => valid_utf8(bytes@) && encode_utf8(s@) == bytes@,
            None => !valid_utf8(bytes@),
        },
{
    match String::from_utf8(bytes) {
        Ok(text) => Some(text),
        Err(_) => None,
    }
}

/// Whether every string of a run holds printable ASCII characters only.
pub fn strings_printable(strings: &[&str]) -> (printable: bool)
    ensures
        printable == texts_printable(texts_of(strings@)),
{
    let mut i: usize = 0;
    while i < strings.len()
        invariant
            i <= strings.len(),
            texts_printable(texts_of(strings@).take(i as int)),
        decreases strings.len() - i,
    {
        if detect_charset(strings[i].as_bytes()).is_none() {
            proof {
                assert(texts_of(strings@)[i as int] == strings@[i as int]@);
            }
            return false;
        }
        proof {
            let texts = texts_of(strings@);
            assert forall|j: int| 0 <= j < i + 1 implies all_printable(
                encode_utf8(#[trigger] texts.take(i + 1)[j]),
            ) by {
                if j < i {
                    assert(texts.take(i as int)[j] == texts[j]);
                }
            }
        }
        i += 1;
    }
    proof {
        assert(texts_of(strings@).take(strings.len() as int) =~= texts_of(strings@));
    }
    true
}

impl BitPacker {
    /// Appends a string: its UTF-8 bytes in the adaptive form where `all_ascii` says
    /// that all strings of the payload are printable ASCII, else in the tagged form.
    pub fn write_string(&mut self, value: &str, all_ascii: bool, table: &HuffmanTable)
        requires
            old(self).wf(),
        ensures
            final(self).wf(),
            final(self)@ == old(self)@ + text_bits(table@, value@, all_ascii),
            encode_utf8(value@).len() <= usize::MAX,
    {
        let bytes = value.as_bytes();
        proof {
            vstd::slice::axiom_spec_len(bytes);
        }
        self.write_string_bytes(bytes, all_ascii, table);
    }

    /// Appends a run of strings, one behind the other.
    pub fn write_strings(&mut self, strings: &[&str], all_ascii: bool, table: &HuffmanTable)
        requires
            old(self).wf(),
        ensures
            final(self).wf(),
            final(self)@ == old(self)@ + texts_bits(table@, texts_of(strings@), all_ascii),
            texts_fit(texts_of(strings@)),
    {
        let ghost texts = texts_of(strings@);
        let mut i: usize = 0;
        proof {
            assert(self@ + texts_bits(table@, texts.take(0), all_ascii) =~= self@);
        }
        while i < strings.len()
            invariant
                i <= strings.len(),
                self.wf(),
                texts == texts_of(strings@),
                self@ == old(self)@ + texts_bits(table@, texts.take(i as int), all_ascii),
                texts_fit(texts.take(i as int)),
            decreases strings.len() - i,
        {
            proof {
                let seen = texts_bits(table@, texts.take(i as int), all_ascii);
                let next = text_bits(table@, texts[i as int], all_ascii);
                assert(texts.take(i + 1).drop_last() =~= texts.take(i as int));
                assert(old(self)@ + (seen + next) =~= (old(self)@ + seen) + next);
            }
            self.write_string(strings[i], all_ascii, table);
            proof {
                assert forall|j: int| 0 <= j < i + 1 implies encode_utf8(
                    #[trigger] texts.take(i + 1)[j],
                ).len() <= u64::MAX by {
                    if j < i {
                        assert(texts.take(i as int)[j] == texts[j]);
                    }
                }
            }
            i += 1;
        }
        proof {
            assert(texts.take(strings.len() as int) =~= texts);
        }
    }
}

impl<'a> BitUnpacker<'a> {
    /// Reads a string; `None` where its bytes cannot be read or are not UTF-8.
    pub fn read_string(&mut self, all_ascii: bool, table: &HuffmanTable) -> (text: Option<String>)
        ensures
            final(self).stream() == old(self).stream(),
            match text_parse(table@, old(self).stream(), old(self).position() as int, all_ascii) {
                Some((parsed, next)) => text.is_some() && text.unwrap()@ == parsed
                    && final(self).position() == next,
                None => text.is_none() && final(self).position() == old(self).position(),
            },
    {
        let saved = *self;
        match self.read_string_bytes(all_ascii, table) {
            Some(bytes) => {
                let ghost raw = bytes@;
                let text = string_from_utf8(bytes);
                proof {
                    if text.is_some() {
                        vstd::utf8::encode_utf8_decode_utf8(text.unwrap()@);
                    }
                }
                if text.is_none() {
                    *self = saved;
                }
                text
            },
            None => None,
        }
    }

    /// Reads a run of `count` strings.
    pub fn read_strings(&mut self, count: u64, all_ascii: bool, table: &HuffmanTable) -> (texts:
        Option<Vec<String>>)
        ensures
            final(self).stream() == old(self).stream(),
            match texts_parse(
                table@,
                old(self).stream(),
                old(self).position() as int,
                count as nat,
                all_ascii,
            ) {
                Some((parsed, next)) => texts.is_some() && owned_texts(texts.unwrap()@) == parsed
                    && final(self).position() == next,
                None => texts.is_none() && final(self).position() == old(self).position(),
            },
    {
        let saved = *self;
        let ghost stream = self.stream();
        let ghost start = self.position() as int;
        let mut result: Vec<String> = Vec::new();
        let mut i: u64 = 0;
        proof {
            assert(owned_texts(result@) =~= Seq::<Seq<char>>::empty());
        }
        while i < count
            invariant
                i <= count,
                self.stream() == stream,
                old(self).stream() == stream,
                old(self).position() == start,
                saved.stream() == stream,
                saved.position() == start,
                texts_parse(table@, stream, start, i as nat, all_ascii) == Some(
                    (owned_texts(result@), self.position() as int),
                ),
            decreases count - i,
        {
            match self.read_string(all_ascii, table) {
                Some(text) => {
                    proof {
                        assert(owned_texts(result@.push(text)) =~= owned_texts(result@).push(
                            text@,
                        ));
                    }
                    result.push(text);
                },
                None => {
                    proof {
                        lemma_texts_parse_fails(
                            table@,
                            stream,
                            start,
                            (i + 1) as nat,
                            count as nat,
                            all_ascii,
                        );
                    }
                    *self = saved;
                    return None;
                },
            }
            i += 1;
        }
        Some(result)
    }
}

/// The bundles of the digits of a string over a character set, where they stand in
/// a stream, are read back as the string, and the reader ends just behind them.
pub proof fn lemma_bundles_roundtrip(
    stream: Seq<bool>,
    pos: int,
    bytes: Seq<u8>,
    flags: u8,
    k: nat,
)
    requires
        all_in_charset(flags, bytes),
        k >= 1,
        bundle_fits(charset_size(flags), k),
        holds_at(stream, pos, bundles_bits(digits_of(flags, bytes), charset_size(flags), k)),
    ensures
        bundles_parse(stream, pos, bytes.len(), flags, k) == Some(
            (bytes, pos + bundles_bits(digits_of(flags, bytes), charset_size(flags), k).len()),
        ),
    decreases bytes.len(),
{
    let m = charset_size(flags);
    let digits = digits_of(flags, bytes);
    let n = bytes.len();
    if n > 0 {
        let r = if n < k {
            n
        } else {
            k
        };
        let chunk = bytes.take(r as int);
        let head = digits.take(r as int);
        let piece = value_bits(digits_value(head, m), bundle_bits(m, r));
        let rest = bundles_bits(digits.skip(r as int), m, k);
        assert(head =~= digits_of(flags, chunk));
        assert(digits.skip(r as int) =~= digits_of(flags, bytes.skip(r as int)));
        assert forall|i: int| 0 <= i < head.len() implies (#[trigger] head[i] as nat) < m by {
            assert(in_charset(flags, bytes[i]));
            lemma_digit_roundtrip(flags, bytes[i]);
        }
        if n < k {
            assert(head =~= digits);
            assert(digits.skip(r as int) =~= Seq::<u64>::empty());
            assert(piece + rest =~= piece);
        }
        assert(bundles_bits(digits, m, k) == piece + rest);
        lemma_holds_at_concat(stream, pos, piece, rest);
        lemma_bundle_roundtrip(stream, pos, head, m);
        assert(symbols_of(flags, head) =~= chunk) by {
            assert forall|i: int| 0 <= i < r implies symbols_of(flags, head)[i] == chunk[i] by {
                assert(in_charset(flags, bytes[i]));
                lemma_digit_roundtrip(flags, bytes[i]);
            }
        }
        assert(all_in_charset(flags, bytes.skip(r as int))) by {
            assert forall|i: int| 0 <= i < bytes.skip(r as int).len() implies in_charset(
                flags,
                #[trigger] bytes.skip(r as int)[i],
            ) by {
                assert(in_charset(flags, bytes[i + r]));
            }
        }
        lemma_bundles_roundtrip(stream, pos + piece.len(), bytes.skip(r as int), flags, k);
        assert(chunk + bytes.skip(r as int) =~= bytes);
    }
}

/// The ultrapack form of a string over a character set, where it stands in a stream,
/// is read back as the string, and the reader ends just behind it.
pub proof fn lemma_ultrapack_roundtrip(stream: Seq<bool>, pos: int, flags: u8, bytes: Seq<u8>)
    requires
        flags < 16,
        all_in_charset(flags, bytes),
        bytes.len() <= u64::MAX,
        holds_at(stream, pos, ultrapack_bits(flags, bytes)),
    ensures
        ultrapack_parse(stream, pos) == Some((bytes, pos + ultrapack_bits(flags, bytes).len())),
{
    let m = charset_size(flags);
    let k = optimal_size(m);
    lemma_optimal_exists(m);
    assert(is_optimal_bundle(m, k));
    let head = value_bits(flags as nat, 4);
    let length = varint_bits(bytes.len());
    let body = bundles_bits(digits_of(flags, bytes), m, k);
    lemma_holds_at_concat(stream, pos, head + length, body);
    lemma_holds_at_concat(stream, pos, head, length);
    lemma_read_back(stream, pos, flags as nat, 4);
    vstd::arithmetic::power2::lemma2_to64();
    vstd::arithmetic::power2::lemma2_to64_rest();
    lemma_varint_roundtrip(stream, pos + 4, bytes.len());
    lemma_bundles_roundtrip(stream, pos + 4 + length.len(), bytes, flags, k);
}

/// Where every byte has a code, the bytes of an ASCII string are written as their codes.
pub proof fn lemma_ascii_bytes_are_codes(lens: Seq<u8>, bytes: Seq<u8>)
    requires
        forall|i: int| 0 <= i < bytes.len() ==> lens[#[trigger] bytes[i] as int] >= 1,
    ensures
        ascii_bytes_bits(lens, bytes) == codes_bits(lens, bytes),
    decreases bytes.len(),
{
    if bytes.len() > 0 {
        lemma_ascii_bytes_are_codes(lens, bytes.drop_last());
    }
}

/// The Huffman form of a string whose bytes all have codes, where it stands in a
/// stream, is read back as the string, and the reader ends just behind it.
pub proof fn lemma_huffman_roundtrip(lens: Seq<u8>, stream: Seq<bool>, pos: int, bytes: Seq<u8>)
    requires
        valid_lengths(lens),
        forall|i: int| 0 <= i < bytes.len() ==> lens[#[trigger] bytes[i] as int] >= 1,
        bytes.len() <= u64::MAX,
        holds_at(stream, pos, huffman_bits(lens, bytes)),
    ensures
        huffman_parse(lens, stream, pos) == Some((bytes, pos + huffman_bits(lens, bytes).len())),
{
    let length = varint_bits(bytes.len());
    lemma_ascii_bytes_are_codes(lens, bytes);
    lemma_holds_at_concat(stream, pos, length, codes_bits(lens, bytes));
    vstd::arithmetic::power2::lemma2_to64();
    lemma_varint_roundtrip(stream, pos, bytes.len());
    lemma_symbols_roundtrip(lens, stream, pos + length.len(), bytes);
}

/// A byte of a tagged string, where it stands in a stream, is read back as it was.
pub proof fn lemma_tagged_byte_roundtrip(lens: Seq<u8>, stream: Seq<bool>, pos: int, byte: u8)
    requires
        valid_lengths(lens),
        holds_at(stream, pos, tagged_byte_bits(lens, byte)),
    ensures
        tagged_byte_parse(lens, stream, pos) == Some(
            (byte, pos + tagged_byte_bits(lens, byte).len()),
        ),
{
    let bits = tagged_byte_bits(lens, byte);
    assert(stream[pos] == stream.subrange(pos, pos + bits.len())[0]);
    if lens[byte as int] > 0 {
        lemma_holds_at_concat(stream, pos, seq![false], code_bits(lens, byte as int));
        lemma_symbol_roundtrip(lens, stream, pos + 1, byte as int);
    } else {
        lemma_holds_at_concat(stream, pos, seq![true], value_bits(byte as nat, 8));
        lemma_read_back(stream, pos + 1, byte as nat, 8);
        vstd::arithmetic::power2::lemma2_to64();
    }
}

/// The bytes of a tagged string, where they stand in a stream, are read back as they were.
pub proof fn lemma_tagged_roundtrip(lens: Seq<u8>, stream: Seq<bool>, pos: int, bytes: Seq<u8>)
    requires
        valid_lengths(lens),
        holds_at(stream, pos, tagged_bytes_bits(lens, bytes)),
    ensures
        tagged_bytes_parse(lens, stream, pos, bytes.len()) == Some(
            (bytes, pos + tagged_bytes_bits(lens, bytes).len()),
        ),
    decreases bytes.len(),
{
    if bytes.len() > 0 {
        let front = bytes.drop_last();
        lemma_holds_at_concat(
            stream,
            pos,
            tagged_bytes_bits(lens, front),
            tagged_byte_bits(lens, bytes.last()),
        );
        lemma_tagged_roundtrip(lens, stream, pos, front);
        lemma_tagged_byte_roundtrip(
            lens,
            stream,
            pos + tagged_bytes_bits(lens, front).len(),
            bytes.last(),
        );
        assert(front.push(bytes.last()) =~= bytes);
    }
}

/// The tagged form of any string, where it stands in a stream, is read back as the
/// string, and the reader ends just behind it.
pub proof fn lemma_unicode_roundtrip(lens: Seq<u8>, stream: Seq<bool>, pos: int, bytes: Seq<u8>)
    requires
        valid_lengths(lens),
        bytes.len() <= u64::MAX,
        holds_at(stream, pos, unicode_bits(lens, bytes)),
    ensures
        unicode_parse(lens, stream, pos) == Some((bytes, pos + unicode_bits(lens, bytes).len())),
{
    let length = varint_bits(bytes.len());
    lemma_holds_at_concat(stream, pos, length, tagged_bytes_bits(lens, bytes));
    vstd::arithmetic::power2::lemma2_to64();
    lemma_varint_roundtrip(stream, pos, bytes.len());
    lemma_tagged_roundtrip(lens, stream, pos + length.len(), bytes);
}

/// A table has a code for every printable ASCII character.
pub open spec fn covers_printable(lens: Seq<u8>) -> bool {
    forall|byte: u8| is_printable(byte) ==> #[trigger] lens[byte as int] >= 1
}

/// The bytes of a string as they are written, where they stand in a stream, are read
/// back as they were, and the reader ends just behind them: the tagged form of any
/// bytes, and the adaptive form of printable ASCII under a table that has a code for
/// every printable character. The selector sends the reader to the form that was
/// chosen.
pub proof fn lemma_string_roundtrip(
    lens: Seq<u8>,
    stream: Seq<bool>,
    pos: int,
    bytes: Seq<u8>,
    all_ascii: bool,
)
    requires
        valid_lengths(lens),
        bytes.len() <= u64::MAX,
        all_ascii ==> all_printable(bytes) && covers_printable(lens),
        holds_at(stream, pos, string_bits(lens, bytes, all_ascii)),
    ensures
        string_parse(lens, stream, pos, all_ascii) == Some(
            (bytes, pos + string_bits(lens, bytes, all_ascii).len()),
        ),
{
    if all_ascii {
        let bits = ascii_bits(lens, bytes);
        assert(stream[pos] == stream.subrange(pos, pos + bits.len())[0]);
        if prefers_huffman(lens, bytes) {
            lemma_holds_at_concat(stream, pos, seq![true], huffman_bits(lens, bytes));
            assert forall|i: int| 0 <= i < bytes.len() implies lens[#[trigger] bytes[i] as int]
                >= 1 by {
                assert(is_printable(bytes[i]));
            }
            lemma_huffman_roundtrip(lens, stream, pos + 1, bytes);
        } else {
            let flags = charset_flags(bytes);
            lemma_holds_at_concat(stream, pos, seq![false], ultrapack_bits(flags, bytes));
            assert forall|i: int| 0 <= i < bytes.len() implies in_charset(
                flags,
                #[trigger] bytes[i],
            ) by {
                lemma_charset_flags(bytes, i);
            }
            if bytes.len() > 0 {
                lemma_charset_flags(bytes, 0);
            }
            lemma_ultrapack_roundtrip(stream, pos + 1, flags, bytes);
        }
    } else {
        lemma_unicode_roundtrip(lens, stream, pos, bytes);
    }
}

/// A string as it is written, where it stands in a stream, is read back as it was.
pub proof fn lemma_text_roundtrip(
    lens: Seq<u8>,
    stream: Seq<bool>,
    pos: int,
    text: Seq<char>,
    all_ascii: bool,
)
    requires
        valid_lengths(lens),
        encode_utf8(text).len() <= u64::MAX,
        all_ascii ==> all_printable(encode_utf8(text)) && covers_printable(lens),
        holds_at(stream, pos, text_bits(lens, text, all_ascii)),
    ensures
        text_parse(lens, stream, pos, all_ascii) == Some(
            (text, pos + text_bits(lens, text, all_ascii).len()),
        ),
{
    lemma_string_roundtrip(lens, stream, pos, encode_utf8(text), all_ascii);
    vstd::utf8::encode_utf8_valid_utf8(text);
    vstd::utf8::encode_utf8_decode_utf8(text);
}

/// A run of strings as it is written, where it stands in a stream, is read back as
/// it was, and the reader ends just behind it.
pub proof fn lemma_texts_roundtrip(
    lens: Seq<u8>,
    stream: Seq<bool>,
    pos: int,
    texts: Seq<Seq<char>>,
    all_ascii: bool,
)
    requires
        valid_lengths(lens),
        texts_fit(texts),
        all_ascii ==> texts_printable(texts) && covers_printable(lens),
        holds_at(stream, pos, texts_bits(lens, texts, all_ascii)),
    ensures
        texts_parse(lens, stream, pos, texts.len(), all_ascii) == Some(
            (texts, pos + texts_bits(lens, texts, all_ascii).len()),
        ),
    decreases texts.len(),
{
    if texts.len() > 0 {
        let front = texts.drop_last();
        let seen = texts_bits(lens, front, all_ascii);
        lemma_holds_at_concat(stream, pos, seen, text_bits(lens, texts.last(), all_ascii));
        assert(texts_fit(front)) by {
            assert forall|i: int| 0 <= i < front.len() implies encode_utf8(
                #[trigger] front[i],
            ).len() <= u64::MAX by {
                assert(front[i] == texts[i]);
            }
        }
        if all_ascii {
            assert forall|i: int| 0 <= i < front.len() implies all_printable(
                encode_utf8(#[trigger] front[i]),
            ) by {
                assert(front[i] == texts[i]);
            }
        }
        lemma_texts_roundtrip(lens, stream, pos, front, all_ascii);
        lemma_text_roundtrip(lens, stream, pos + seen.len(), texts.last(), all_ascii);
        assert(front.push(texts.last()) =~= texts);
    }
}

/// The bundles of a run of digits take the bits that the estimate counts.
pub proof fn lemma_bundles_bits_len(digits: Seq<u64>, m: nat, k: nat)
    requires
        k >= 1,
    ensures
        bundles_bits(digits, m, k).len() == bundles_cost(digits.len(), m, k),
    decreases digits.len(),
{
    let n = digits.len();
    let b = bundle_bits(m, k);
    if n == 0 {
        vstd::arithmetic::div_mod::lemma_small_mod(0, k);
        vstd::arithmetic::div_mod::lemma_basic_div(0, k as int);
        assert(0 * b == 0);
    } else if n < k {
        vstd::arithmetic::div_mod::lemma_small_mod(n, k);
        vstd::arithmetic::div_mod::lemma_basic_div(n as int, k as int);
        assert(0 * b == 0);
    } else {
        lemma_bundles_bits_len(digits.skip(k as int), m, k);
        let q = (n - k) / (k as int);
        let r = (n - k) % (k as int);
        vstd::arithmetic::div_mod::lemma_fundamental_div_mod(n - k, k as int);
        vstd::arithmetic::div_mod::lemma_mod_bound(n - k, k as int);
        assert(n == (q + 1) * k + r) by (nonlinear_arith)
            requires
                n - k == k * q + r,
        ;
        vstd::arithmetic::div_mod::lemma_fundamental_div_mod_converse(
            n as int,
            k as int,
            q + 1,
            r,
        );
        assert((q + 1) * b == q * b + b) by (nonlinear_arith);
    }
}

/// The bytes of an ASCII string take the bits that the estimate counts.
pub proof fn lemma_ascii_bytes_len(lens: Seq<u8>, bytes: Seq<u8>)
    ensures
        ascii_bytes_bits(lens, bytes).len() == ascii_cost(lens, bytes),
    decreases bytes.len(),
{
    if bytes.len() > 0 {
        lemma_ascii_bytes_len(lens, bytes.drop_last());
    }
}

/// An ASCII string takes exactly the bits of the estimate of the form that it is
/// written in, and for a string of printable characters that is the smaller of the
/// two estimates.
pub proof fn lemma_ascii_bits_len(lens: Seq<u8>, bytes: Seq<u8>)
    ensures
        ascii_bits(lens, bytes).len() == if prefers_huffman(lens, bytes) {
            huffman_estimate(lens, bytes)
        } else {
            ultrapack_estimate(charset_flags(bytes), bytes)
        },
        all_printable(bytes) ==> ascii_bits(lens, bytes).len() <= huffman_estimate(lens, bytes)
            && ascii_bits(lens, bytes).len() <= ultrapack_estimate(charset_flags(bytes), bytes),
{
    let flags = charset_flags(bytes);
    let m = charset_size(flags);
    lemma_ascii_bytes_len(lens, bytes);
    lemma_optimal_exists(m);
    assert(is_optimal_bundle(m, optimal_size(m)));
    lemma_bundles_bits_len(digits_of(flags, bytes), m, optimal_size(m));
}

} // verus!
