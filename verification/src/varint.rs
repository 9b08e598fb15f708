//! The variable-length integer: a unary prefix that selects one of seven payload
//! widths, then the payload, most significant bit first.
//!
//! A value is written as the 64-bit pattern of its two's complement, so a negative
//! value has its top bit set, falls in the last slot and takes all 64 payload bits.

use crate::bit_packer::{BitPacker, BitUnpacker};
use crate::bits::{
    bits_value, holds_at, le_value, lemma_holds_at_concat,
    lemma_value_bits_roundtrip, value_bits,
};
use vstd::arithmetic::div_mod::lemma_small_mod;
use vstd::arithmetic::power2::{lemma2_to64, lemma2_to64_rest, pow2};
use vstd::prelude::*;

verus! {

/// The payload width of a slot, in bits.
pub open spec fn slot_width(slot: nat) -> nat {
    if slot == 0 {
        3
    } else if slot == 1 {
        7
    } else if slot == 2 {
        9
    } else if slot == 3 {
        15
    } else if slot == 4 {
        24
    } else if slot == 5 {
        45
    } else {
        64
    }
}

/// The slot of a 64-bit pattern: the first whose payload is wide enough for it.
pub open spec fn slot_of(n: nat) -> nat {
    if n < pow2(3) {
        0
    } else if n < pow2(7) {
        1
    } else if n < pow2(9) {
        2
    } else if n < pow2(15) {
        3
    } else if n < pow2(24) {
        4
    } else if n < pow2(45) {
        5
    } else {
        6
    }
}

/// The prefix of a slot: as many ones as the slot's number, then a zero, which the
/// last slot leaves out.
pub open spec fn slot_prefix(slot: nat) -> Seq<bool> {
    Seq::new(
        if slot < 6 {
            slot + 1
        } else {
            6
        },
        |i: int| i < slot,
    )
}

/// The bits of a 64-bit pattern: the prefix of its slot, then its payload.
pub open spec fn varint_bits(n: nat) -> Seq<bool> {
    slot_prefix(slot_of(n)) + value_bits(n, slot_width(slot_of(n)))
}

/// The 64-bit two's-complement pattern of a value.
pub open spec fn int_code(value: i64) -> nat {
    if value >= 0 {
        value as nat
    } else {
        (value + 0x1_0000_0000_0000_0000) as nat
    }
}

/// The value of a 64-bit two's-complement pattern.
pub open spec fn code_int(n: nat) -> i64 {
    if n < 0x8000_0000_0000_0000 {
        n as i64
    } else {
        (n - 0x1_0000_0000_0000_0000) as i64
    }
}

/// The bits that a value is written as.
pub open spec fn int_bits(value: i64) -> Seq<bool> {
    varint_bits(int_code(value))
}

/// Reads a prefix at `pos`, of which `ones` ones are already counted: the slot and
/// the position behind the prefix, or `None` where the stream ends inside it.
pub open spec fn parse_slot(stream: Seq<bool>, pos: int, ones: nat) -> Option<(nat, int)>
    decreases 6 - ones,
{
    if ones >= 6 {
        Some((6nat, pos))
    } else if pos < 0 || pos >= stream.len() {
        None
    } else if stream[pos] {
        parse_slot(stream, pos + 1, ones + 1)
    } else {
        Some((ones, pos + 1))
    }
}

/// Reads a 64-bit pattern at `pos`: the pattern and the position behind it, or
/// `None` where the stream ends first.
pub open spec fn varint_parse(stream: Seq<bool>, pos: int) -> Option<(nat, int)> {
    match parse_slot(stream, pos, 0) {
        Some((slot, start)) => {
            let width = slot_width(slot);
            if start + width <= stream.len() {
                Some((bits_value(stream.subrange(start, start + width)), start + width))
            } else {
                None
            }
        },
        None => None,
    }
}

/// Reads a value at `pos`: the value and the position behind it, or `None` where
/// the stream ends first.
pub open spec fn int_parse(stream: Seq<bool>, pos: int) -> Option<(i64, int)> {
    match varint_parse(stream, pos) {
        Some((n, next)) => Some((code_int(n), next)),
        None => None,
    }
}

/// The powers of two that bound the slots.
pub proof fn lemma_slot_bounds()
    ensures
        pow2(3) == 8,
        pow2(7) == 128,
        pow2(9) == 512,
        pow2(15) == 32768,
        pow2(24) == 16777216,
        pow2(45) == 35184372088832,
        pow2(63) == 0x8000_0000_0000_0000,
        pow2(64) == 0x1_0000_0000_0000_0000,
{
    lemma2_to64();
    lemma2_to64_rest();
}

/// A value cast to 64 unsigned bits is its two's-complement pattern.
proof fn lemma_int_code(value: i64)
    by (bit_vector)
    ensures
        value >= 0 ==> (value as u64) == value,
        value < 0 ==> (value as u64) == value + 0x1_0000_0000_0000_0000,
{
}

/// A pattern cast to a signed value is the value of the pattern.
proof fn lemma_code_int(n: u64)
    by (bit_vector)
    ensures
        n < 0x8000_0000_0000_0000 ==> (n as i64) == n,
        n >= 0x8000_0000_0000_0000 ==> (n as i64) == n - 0x1_0000_0000_0000_0000,
{
}

/// A 64-bit pattern is the little-endian number of its eight bytes.
proof fn lemma_le_bytes(n: u64)
    by (bit_vector)
    ensures
        n == (n & 0xff) + 0x100 * (((n >> 8) & 0xff) + 0x100 * (((n >> 16) & 0xff) + 0x100 * (((n
            >> 24) & 0xff) + 0x100 * (((n >> 32) & 0xff) + 0x100 * (((n >> 40) & 0xff) + 0x100 * (((n
            >> 48) & 0xff) + 0x100 * ((n >> 56) & 0xff))))))),
        n & 0xff < 256,
        (n >> 8) & 0xff < 256,
        (n >> 16) & 0xff < 256,
        (n >> 24) & 0xff < 256,
        (n >> 32) & 0xff < 256,
        (n >> 40) & 0xff < 256,
        (n >> 48) & 0xff < 256,
        (n >> 56) & 0xff < 256,
{
}

/// The eight bytes of a 64-bit pattern, least significant first.
pub fn le_bytes(n: u64) -> (bytes: [u8; 8])
    ensures
        le_value(bytes@) == n,
{
    proof {
        lemma_le_bytes(n);
    }
    let bytes = [
        (n & 0xff) as u8,
        ((n >> 8) & 0xff) as u8,
        ((n >> 16) & 0xff) as u8,
        ((n >> 24) & 0xff) as u8,
        ((n >> 32) & 0xff) as u8,
        ((n >> 40) & 0xff) as u8,
        ((n >> 48) & 0xff) as u8,
        ((n >> 56) & 0xff) as u8,
    ];
    proof {
        let s = bytes@;
        reveal_with_fuel(le_value, 9);
        assert(s.skip(1)[0] == s[1]);
        assert(s.skip(1).skip(1)[0] == s[2]);
        assert(s.skip(1).skip(1).skip(1)[0] == s[3]);
        assert(s.skip(1).skip(1).skip(1).skip(1)[0] == s[4]);
        assert(s.skip(1).skip(1).skip(1).skip(1).skip(1)[0] == s[5]);
        assert(s.skip(1).skip(1).skip(1).skip(1).skip(1).skip(1)[0] == s[6]);
        assert(s.skip(1).skip(1).skip(1).skip(1).skip(1).skip(1).skip(1)[0] == s[7]);
        assert(s.skip(1).skip(1).skip(1).skip(1).skip(1).skip(1).skip(1).skip(1).len() == 0);
    }
    bytes
}

/// The slot of a pattern and its payload width.
pub fn select_slot(n: u64) -> (chosen: (u8, u8))
    ensures
        chosen.0 == slot_of(n as nat),
        chosen.1 == slot_width(slot_of(n as nat)),
{
    proof {
        lemma_slot_bounds();
    }
    if n < 8 {
        (0, 3)
    } else if n < 128 {
        (1, 7)
    } else if n < 512 {
        (2, 9)
    } else if n < 32768 {
        (3, 15)
    } else if n < 16777216 {
        (4, 24)
    } else if n < 35184372088832 {
        (5, 45)
    } else {
        (6, 64)
    }
}

/// The payload width of a slot.
pub fn width_of_slot(slot: u8) -> (width: u8)
    ensures
        width == slot_width(slot as nat),
{
    if slot == 0 {
        3
    } else if slot == 1 {
        7
    } else if slot == 2 {
        9
    } else if slot == 3 {
        15
    } else if slot == 4 {
        24
    } else if slot == 5 {
        45
    } else {
        64
    }
}

/// The 64-bit two's-complement pattern of a value.
pub fn int_to_pattern(value: i64) -> (n: u64)
    ensures
        n == int_code(value),
{
    proof {
        lemma_int_code(value);
    }
    #[verifier::truncate]
    (value as u64)
}

/// The value of a 64-bit two's-complement pattern.
pub fn pattern_to_int(n: u64) -> (value: i64)
    ensures
        value == code_int(n as nat),
{
    proof {
        lemma_code_int(n);
    }
    #[verifier::truncate]
    (n as i64)
}

/// A value is the value of its own pattern, and a pattern the pattern of its own value.
pub proof fn lemma_pattern_roundtrip(value: i64, n: u64)
    ensures
        code_int(int_code(value)) == value,
        int_code(code_int(n as nat)) == n,
        int_code(value) < pow2(64),
{
    lemma_slot_bounds();
}

/// The number of bits that a 64-bit pattern is written as.
pub fn varint_len(n: u64) -> (count: u8)
    ensures
        count == varint_bits(n as nat).len(),
        4 <= count <= 70,
{
    let (slot, width) = select_slot(n);
    if slot < 6 {
        slot + 1 + width
    } else {
        6 + width
    }
}

/// The number of bits that a value is written as.
pub fn encoded_bits(value: i64) -> (count: u8)
    ensures
        count == int_bits(value).len(),
        4 <= count <= 70,
{
    proof {
        lemma_int_code(value);
    }
    varint_len(
        #[verifier::truncate]
        (value as u64),
    )
}

impl BitPacker {
    /// Appends a 64-bit pattern: the prefix of its slot, then its payload.
    pub fn write_varint(&mut self, n: u64)
        requires
            old(self).wf(),
        ensures
            final(self).wf(),
            final(self)@ == old(self)@ + varint_bits(n as nat),
    {
        let (slot, width) = select_slot(n);
        let mut ones: u8 = 0;
        proof {
            assert(self@ + Seq::new(0, |i: int| true) =~= self@);
        }
        while ones < slot
            invariant
                ones <= slot,
                self.wf(),
                self@ == old(self)@ + Seq::new(ones as nat, |i: int| true),
            decreases slot - ones,
        {
            proof {
                assert((old(self)@ + Seq::new(ones as nat, |i: int| true)).push(true) =~= old(
                    self,
                )@ + Seq::new((ones + 1) as nat, |i: int| true));
            }
            self.write_bit(true);
            ones += 1;
        }
        if slot < 6 {
            self.write_bit(false);
        }
        proof {
            assert(self@ =~= old(self)@ + slot_prefix(slot as nat));
        }
        let bytes = le_bytes(n);
        self.write_bytes_width(bytes.as_slice(), width);
        proof {
            let prefix = slot_prefix(slot as nat);
            let payload = value_bits(n as nat, width as nat);
            assert((old(self)@ + prefix) + payload =~= old(self)@ + (prefix + payload));
        }
    }

    /// Appends a value as the 64-bit pattern of its two's complement.
    pub fn write_int(&mut self, value: i64)
        requires
            old(self).wf(),
        ensures
            final(self).wf(),
            final(self)@ == old(self)@ + int_bits(value),
    {
        proof {
            lemma_int_code(value);
        }
        self.write_varint(
            #[verifier::truncate]
            (value as u64),
        );
    }
}

impl<'a> BitUnpacker<'a> {
    /// Reads a 64-bit pattern: counts the ones of the prefix, then reads the slot's
    /// payload.
    pub fn read_varint(&mut self) -> (result: Option<u64>)
        ensures
            final(self).stream() == old(self).stream(),
            match varint_parse(old(self).stream(), old(self).position() as int) {
                Some((n, next)) => result == Some(n as u64) && n <= u64::MAX
                    && final(self).position() == next,
                None => result.is_none() && final(self).position() == old(self).position(),
            },
    {
        let saved = *self;
        let ghost stream = self.stream();
        let ghost start = self.position() as int;
        let mut slot: u8 = 0;
        let mut open = true;
        while open && slot < 6
            invariant
                slot <= 6,
                self.stream() == stream,
                old(self).stream() == stream,
                old(self).position() == start,
                saved.stream() == stream,
                saved.position() == start,
                open ==> parse_slot(stream, start, 0) == parse_slot(
                    stream,
                    self.position() as int,
                    slot as nat,
                ),
                !open ==> parse_slot(stream, start, 0) == Some(
                    (slot as nat, self.position() as int),
                ),
            decreases
                    (if open {
                        1int
                    } else {
                        0int
                    }),
                    6 - slot,
        {
            match self.read_bit() {
                Some(bit) => {
                    if bit {
                        slot += 1;
                    } else {
                        open = false;
                    }
                },
                None => {
                    *self = saved;
                    return None;
                },
            }
        }
        let width = width_of_slot(slot);
        match self.read_bytes_width(width) {
            Some(n) => Some(n),
            None => {
                *self = saved;
                None
            },
        }
    }

    /// Reads a value written as the 64-bit pattern of its two's complement.
    pub fn read_int(&mut self) -> (result: Option<i64>)
        ensures
            final(self).stream() == old(self).stream(),
            match int_parse(old(self).stream(), old(self).position() as int) {
                Some((value, next)) => result == Some(value) && final(self).position() == next,
                None => result.is_none() && final(self).position() == old(self).position(),
            },
    {
        match self.read_varint() {
            Some(n) => {
                proof {
                    lemma_code_int(n);
                }
                Some(
                    #[verifier::truncate]
                    (n as i64),
                )
            },
            None => None,
        }
    }
}

/// A prefix that stands in a stream is read back as its slot.
proof fn lemma_prefix_roundtrip(stream: Seq<bool>, pos: int, slot: nat, ones: nat)
    requires
        ones <= slot <= 6,
        holds_at(stream, pos, slot_prefix(slot)),
    ensures
        parse_slot(stream, pos + ones, ones) == Some((slot, pos + slot_prefix(slot).len())),
    decreases slot - ones,
{
    let prefix = slot_prefix(slot);
    if ones < 6 {
        assert(stream[pos + ones] == stream.subrange(pos, pos + prefix.len())[ones as int]);
        if ones < slot {
            lemma_prefix_roundtrip(stream, pos, slot, ones + 1);
        }
    }
}

/// A written pattern is read back as it was, and the reader ends just behind it.
pub proof fn lemma_varint_roundtrip(stream: Seq<bool>, pos: int, n: nat)
    requires
        n < pow2(64),
        holds_at(stream, pos, varint_bits(n)),
    ensures
        varint_parse(stream, pos) == Some((n, pos + varint_bits(n).len())),
{
    let slot = slot_of(n);
    let prefix = slot_prefix(slot);
    let width = slot_width(slot);
    lemma_holds_at_concat(stream, pos, prefix, value_bits(n, width));
    lemma_prefix_roundtrip(stream, pos, slot, 0);
    lemma_value_bits_roundtrip(n, width);
    lemma_small_mod(n, pow2(width));
}

/// A written value is read back as it was, and the reader ends just behind it.
pub proof fn lemma_int_roundtrip(stream: Seq<bool>, pos: int, value: i64)
    requires
        holds_at(stream, pos, int_bits(value)),
    ensures
        int_parse(stream, pos) == Some((value, pos + int_bits(value).len())),
{
    lemma_slot_bounds();
    lemma_varint_roundtrip(stream, pos, int_code(value));
}

/// The length of a written pattern: the prefix of its slot and the slot's payload.
/// A pattern below 8 takes 4 bits, one below 128 takes 9, one below 512 takes 12,
/// and one below `2^15` takes 19.
pub proof fn lemma_varint_len(n: nat)
    ensures
        varint_bits(n).len() == slot_prefix(slot_of(n)).len() + slot_width(slot_of(n)),
        n < 8 ==> varint_bits(n).len() == 4,
        n < 128 ==> varint_bits(n).len() <= 10,
        n < 512 ==> varint_bits(n).len() <= 18,
        n < 32768 ==> varint_bits(n).len() <= 19,
{
    lemma_slot_bounds();
}

} // verus!
