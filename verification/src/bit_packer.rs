//! Bit streams over a byte buffer: a writer that appends bits and a reader that
//! consumes them, both most significant bit first.

use crate::bits::{
    bit_of, bits_value, bytes_bits, le_value, lemma_bit_of_shift, lemma_bits_roundtrip,
    lemma_bits_value_bound, lemma_bits_value_concat, lemma_bytes_bits_push,
    lemma_value_bits_drop_last, lemma_value_bits_mod, lemma_value_bits_roundtrip,
    lemma_value_bits_split, pack_bits, packed_len, value_bits, window,
};
use vstd::arithmetic::div_mod::*;
use vstd::arithmetic::power2::*;
use vstd::prelude::*;

verus! {

/// The powers of two up to `2^8`.
pub proof fn lemma_pow2_byte(k: nat)
    requires
        k <= 8,
    ensures
        pow2(k) == if k == 0 {
            1nat
        } else if k == 1 {
            2
        } else if k == 2 {
            4
        } else if k == 3 {
            8
        } else if k == 4 {
            16
        } else if k == 5 {
            32
        } else if k == 6 {
            64
        } else if k == 7 {
            128
        } else {
            256
        },
{
    lemma2_to64();
}

/// A number that is a multiple of `2^m` has its low `m` bits clear.
pub proof fn lemma_low_bits_clear(v: nat, m: nat, k: nat)
    requires
        v % pow2(m) == 0,
        k < m,
    ensures
        !bit_of(v, k),
{
    lemma_value_bits_mod(v, m);
    assert(value_bits(v, m)[m - 1 - k] == bit_of(v, k));
    assert(value_bits(0, m)[m - 1 - k] == bit_of(0, k));
    lemma_pow2_pos(k);
    assert(0nat / pow2(k) == 0) by (nonlinear_arith)
        requires
            pow2(k) > 0,
    ;
}

/// Setting bits in a byte whose low bits below `m` are clear, with a value below
/// `m`, adds the value.
proof fn lemma_or_fields(a: u8, b: u8, m: u16)
    by (bit_vector)
    requires
        m == 1 || m == 2 || m == 4 || m == 8 || m == 16 || m == 32 || m == 64 || m == 128 || m
            == 256,
        (a as u16) % m == 0,
        (b as u16) < m,
    ensures
        a | b == a + b,
{
}

/// A left shift of a byte drops the bits that leave it; the powers of two that a
/// shift below 8 stands for.
proof fn lemma_shl_byte(v: u8, s: u8)
    by (bit_vector)
    requires
        s < 8,
    ensures
        (v << s) as u16 == ((v as u16) % (256u16 >> s)) * (1u16 << s),
        1u16 << s == if s == 0 {
            1u16
        } else if s == 1 {
            2
        } else if s == 2 {
            4
        } else if s == 3 {
            8
        } else if s == 4 {
            16
        } else if s == 5 {
            32
        } else if s == 6 {
            64
        } else {
            128
        },
        256u16 >> s == if s == 0 {
            256u16
        } else if s == 1 {
            128
        } else if s == 2 {
            64
        } else if s == 3 {
            32
        } else if s == 4 {
            16
        } else if s == 5 {
            8
        } else if s == 6 {
            4
        } else {
            2
        },
{
}

/// A right shift of a byte divides it by the power of two of the shift.
proof fn lemma_shr_byte(v: u8, s: u8)
    by (bit_vector)
    requires
        s < 8,
    ensures
        (v >> s) as u16 == (v as u16) / (1u16 << s),
{
}

/// Masking a byte with the low `w` bits of `0xff` reduces it modulo the power of two of `w`.
proof fn lemma_mask_byte(v: u8, w: u8)
    by (bit_vector)
    requires
        1 <= w <= 8,
    ensures
        (v & (0xffu8 >> ((8 - w) as u8))) as u16 == (v as u16) % (256u16 >> ((8 - w) as u8)),
{
}

/// `v << s` on a byte keeps the low `8 - s` bits of `v`, moved up by `s`.
proof fn lemma_shl_byte_arith(v: u8, s: u8)
    requires
        s < 8,
    ensures
        (v << s) as nat == (v as nat % pow2((8 - s) as nat)) * pow2(s as nat),
{
    lemma_shl_byte(v, s);
    lemma_pow2_byte(s as nat);
    lemma_pow2_byte((8 - s) as nat);
}

/// `v >> s` on a byte is `v` divided by `2^s`.
proof fn lemma_shr_byte_arith(v: u8, s: u8)
    requires
        s < 8,
    ensures
        (v >> s) as nat == v as nat / pow2(s as nat),
{
    lemma_shr_byte(v, s);
    lemma_shl_byte(v, s);
    lemma_pow2_byte(s as nat);
}

/// Masking a byte to its low `w` bits is taking it modulo `2^w`.
proof fn lemma_mask_byte_arith(v: u8, w: u8)
    requires
        1 <= w <= 8,
    ensures
        (v & (0xffu8 >> ((8 - w) as u8))) as nat == v as nat % pow2(w as nat),
{
    lemma_mask_byte(v, w);
    lemma_pow2_byte(w as nat);
    lemma_shl_byte(v, (8 - w) as u8);
}

/// Setting a field of a byte whose place is still clear adds the field.
proof fn lemma_or_byte_arith(a: u8, b: u8, k: nat)
    requires
        k <= 8,
        a as nat % pow2(k) == 0,
        (b as nat) < pow2(k),
    ensures
        (a | b) as nat == a as nat + b as nat,
        a as nat + b as nat <= 255,
{
    lemma_pow2_byte(k);
    lemma_or_fields(a, b, pow2(k) as u16);
}

/// Appending `w` bits below an `o`-bit number.
pub proof fn lemma_value_bits_append(a: nat, o: nat, v: nat, w: nat)
    requires
        v < pow2(w),
    ensures
        value_bits(a * pow2(w) + v, o + w) == value_bits(a, o) + value_bits(v, w),
{
    let x = a * pow2(w) + v;
    lemma_pow2_pos(w);
    lemma_value_bits_split(x, o, w);
    lemma_value_bits_mod(x, w);
    lemma_fundamental_div_mod_converse(x as int, pow2(w) as int, a as int, v as int);
}

/// A number below the modulus is its own remainder.
proof fn lemma_small_mod(v: nat, m: nat)
    requires
        v < m,
    ensures
        v % m == v,
{
    vstd::arithmetic::div_mod::lemma_small_mod(v, m);
}

/// Dividing a number below `2^(hi + lo)` by `2^lo` leaves a number below `2^hi`.
proof fn lemma_div_bound(v: nat, hi: nat, lo: nat)
    requires
        v < pow2(hi + lo),
    ensures
        v / pow2(lo) < pow2(hi),
{
    lemma_pow2_adds(hi, lo);
    lemma_pow2_pos(lo);
    lemma_pow2_pos(hi);
    let d = pow2(lo) as int;
    let h = pow2(hi) as int;
    lemma_fundamental_div_mod(v as int, d);
    lemma_mod_bound(v as int, d);
    assert(v as int / d < h) by (nonlinear_arith)
        requires
            (v as int) < h * d,
            d > 0,
            h > 0,
            v as int == d * (v as int / d) + (v as int) % d,
            0 <= (v as int) % d,
    ;
}

/// Placing a `w`-bit field just below the used part of a byte whose low `rem` bits are clear.
proof fn lemma_merge(cur: nat, rem: nat, v: nat, w: nat)
    requires
        w <= rem,
        cur % pow2(rem) == 0,
        v < pow2(w),
    ensures
        v * pow2((rem - w) as nat) < pow2(rem),
        (cur + v * pow2((rem - w) as nat)) / pow2((rem - w) as nat) == (cur / pow2(rem)) * pow2(w)
            + v,
        (cur + v * pow2((rem - w) as nat)) % pow2((rem - w) as nat) == 0,
{
    let s = (rem - w) as nat;
    lemma_pow2_adds(w, s);
    lemma_pow2_pos(s);
    lemma_pow2_pos(w);
    lemma_pow2_pos(rem);
    let ps = pow2(s) as int;
    let pw = pow2(w) as int;
    let a = cur as int / pow2(rem) as int;
    lemma_fundamental_div_mod(cur as int, pow2(rem) as int);
    assert(cur as int + v * ps == (a * pw + v) * ps + 0) by (nonlinear_arith)
        requires
            cur as int == (pw * ps) * a,
    ;
    assert(v * ps < pw * ps) by (nonlinear_arith)
        requires
            (v as int) < pw,
            ps > 0,
    ;
    lemma_fundamental_div_mod_converse(cur as int + v * ps, ps, a * pw + v, 0);
}

/// Byte `j` of a little-endian number.
pub proof fn lemma_le_value_byte(bytes: Seq<u8>, j: int)
    requires
        0 <= j < bytes.len(),
    ensures
        (le_value(bytes) / pow2((8 * j) as nat)) % 256 == bytes[j],
    decreases j,
{
    lemma2_to64();
    let value = le_value(bytes);
    let rest = le_value(bytes.skip(1));
    assert(value == bytes[0] as nat + 256 * rest);
    if j > 0 {
        let p = pow2((8 * (j - 1)) as nat);
        lemma_le_value_byte(bytes.skip(1), j - 1);
        lemma_pow2_pos((8 * (j - 1)) as nat);
        lemma_pow2_adds(8, (8 * (j - 1)) as nat);
        assert(pow2((8 * j) as nat) == 256 * p);
        lemma_div_denominator(value as int, 256, p as int);
        assert(value / 256 == rest);
    } else {
        assert(value / 1 == value);
    }
}

/// The low `w` bits of a little-endian number above its byte `j` are those of byte `j`.
pub proof fn lemma_le_value_bits(bytes: Seq<u8>, j: int, w: nat)
    requires
        0 <= j < bytes.len(),
        w <= 8,
    ensures
        value_bits(le_value(bytes) / pow2((8 * j) as nat), w) == value_bits(bytes[j] as nat, w),
{
    let x = le_value(bytes) / pow2((8 * j) as nat);
    lemma_le_value_byte(bytes, j);
    lemma_pow2_byte(w);
    lemma_pow2_byte((8 - w) as nat);
    lemma_pow2_adds(w, (8 - w) as nat);
    lemma_pow2_pos(w);
    lemma_pow2_pos((8 - w) as nat);
    lemma_mod_mod(x as int, pow2(w) as int, pow2((8 - w) as nat) as int);
    lemma_value_bits_mod(x, w);
    lemma_value_bits_mod(bytes[j] as nat, w);
}

/// The bits held by a writer's buffer whose last byte has `off` bits written: those
/// of the full bytes, then the top `off` bits of the last byte.
pub open spec fn stream_of(buffer: Seq<u8>, off: nat) -> Seq<bool> {
    bytes_bits(buffer.drop_last()) + value_bits(
        buffer.last() as nat / pow2((8 - off) as nat),
        off,
    )
}

/// A buffer whose last byte is full holds the bits of all its bytes.
proof fn lemma_stream_full(buffer: Seq<u8>)
    requires
        buffer.len() >= 1,
    ensures
        stream_of(buffer, 8) == bytes_bits(buffer),
{
    lemma2_to64();
    assert(buffer.last() as nat / 1 == buffer.last() as nat);
    lemma_bytes_bits_push(buffer.drop_last(), buffer.last());
    assert(buffer =~= buffer.drop_last().push(buffer.last()));
}

/// Starting a new byte behind a full buffer.
proof fn lemma_stream_push(buffer: Seq<u8>, byte: u8, w: nat)
    requires
        buffer.len() >= 1,
        w <= 8,
    ensures
        stream_of(buffer.push(byte), w) == stream_of(buffer, 8) + value_bits(
            byte as nat / pow2((8 - w) as nat),
            w,
        ),
{
    lemma_stream_full(buffer);
    assert(buffer.push(byte).drop_last() =~= buffer);
}

/// A fresh byte that holds a `w`-bit field at its top.
proof fn lemma_field_fresh(v: u8, w: u8)
    requires
        1 <= w <= 8,
        (v as nat) < pow2(w as nat),
    ensures
        (v << ((8 - w) as u8)) as nat % pow2((8 - w) as nat) == 0,
        (v << ((8 - w) as u8)) as nat / pow2((8 - w) as nat) == v,
{
    lemma_shl_byte_arith(v, (8 - w) as u8);
    lemma_small_mod(v as nat, pow2(w as nat));
    lemma_pow2_pos(8);
    lemma_merge(0, 8, v as nat, w as nat);
}

/// A `w`-bit field placed below the `off` bits already in a byte, where it fits.
proof fn lemma_field_same(cur: u8, off: u8, v: u8, w: u8)
    requires
        off < 8,
        1 <= w <= 8 - off,
        cur as nat % pow2((8 - off) as nat) == 0,
        (v as nat) < pow2(w as nat),
    ensures
        ({
            let merged = cur | (v << ((8 - off - w) as u8));
            &&& merged as nat % pow2((8 - off - w) as nat) == 0
            &&& value_bits(merged as nat / pow2((8 - off - w) as nat), (off + w) as nat)
                == value_bits(cur as nat / pow2((8 - off) as nat), off as nat) + value_bits(
                v as nat,
                w as nat,
            )
        }),
{
    let rem = (8 - off) as nat;
    let s = (8 - off - w) as u8;
    let field = v << s;
    lemma_shl_byte_arith(v, s);
    lemma_pow2_adds(w as nat, s as nat);
    lemma_pow2_adds(rem, off as nat);
    lemma_pow2_strictly_increases_or_equal(w as nat, (8 - s) as nat);
    lemma_small_mod(v as nat, pow2((8 - s) as nat));
    lemma_merge(cur as nat, rem, v as nat, w as nat);
    lemma_or_byte_arith(cur, field, rem);
    lemma_value_bits_append(cur as nat / pow2(rem), off as nat, v as nat, w as nat);
}

/// A `w`-bit field that fills the rest of a byte and spills into the next one.
proof fn lemma_field_split(cur: u8, off: u8, v: u8, w: u8)
    requires
        off < 8,
        8 - off < w <= 8,
        cur as nat % pow2((8 - off) as nat) == 0,
        (v as nat) < pow2(w as nat),
    ensures
        ({
            let sw = (w - (8 - off)) as u8;
            let merged = cur | (v >> sw);
            let second = v << ((8 - sw) as u8);
            &&& value_bits(merged as nat, 8) == value_bits(
                cur as nat / pow2((8 - off) as nat),
                off as nat,
            ) + value_bits(v as nat / pow2(sw as nat), (8 - off) as nat)
            &&& second as nat % pow2((8 - sw) as nat) == 0
            &&& value_bits(second as nat / pow2((8 - sw) as nat), sw as nat) == value_bits(
                v as nat,
                sw as nat,
            )
            &&& value_bits(v as nat / pow2(sw as nat), (8 - off) as nat) + value_bits(
                v as nat,
                sw as nat,
            ) == value_bits(v as nat, w as nat)
        }),
{
    let rem = (8 - off) as nat;
    let sw = (w - (8 - off)) as u8;
    let field = v >> sw;
    let merged = cur | field;
    let second = v << ((8 - sw) as u8);
    lemma_shr_byte_arith(v, sw);
    lemma_shl_byte_arith(v, (8 - sw) as u8);
    lemma_pow2_pos(sw as nat);
    lemma_pow2_pos(rem);
    lemma_div_bound(v as nat, rem, sw as nat);
    lemma_or_byte_arith(cur, field, rem);
    lemma_fundamental_div_mod(cur as int, pow2(rem) as int);
    let a = cur as nat / pow2(rem);
    assert(merged as nat == a * pow2(rem) + field as nat) by (nonlinear_arith)
        requires
            merged as nat == cur as nat + field as nat,
            cur as int == pow2(rem) as int * (cur as int / pow2(rem) as int),
            a == cur as nat / pow2(rem),
    ;
    lemma_value_bits_append(a, off as nat, field as nat, rem);
    assert(value_bits(merged as nat, 8) == value_bits(a, off as nat) + value_bits(
        field as nat,
        rem,
    ));
    let low = v as nat % pow2(sw as nat);
    lemma_mod_bound(v as int, pow2(sw as nat) as int);
    lemma_pow2_pos(8);
    lemma_merge(0, 8, low, sw as nat);
    assert(second as nat == low * pow2((8 - sw) as nat));
    assert(second as nat / pow2((8 - sw) as nat) == low) by {
        assert(0nat / pow2(8) == 0);
        assert(0 * pow2(sw as nat) == 0);
    }
    lemma_value_bits_mod(v as nat, sw as nat);
    lemma_value_bits_split(v as nat, rem, sw as nat);
}

/// Powers of two do not fall as the exponent grows.
proof fn lemma_pow2_strictly_increases_or_equal(a: nat, b: nat)
    requires
        a <= b,
    ensures
        pow2(a) <= pow2(b),
{
    if a < b {
        lemma_pow2_strictly_increases(a, b);
    }
}

/// An MSB-first bit writer over a byte buffer that it owns.
///
/// The buffer always holds at least one byte. `bit_offset` counts the bits already
/// written into the last byte; the bits of that byte that are not yet written are zero.
pub struct BitPacker {
    buffer: Vec<u8>,
    bit_offset: u8,
}

impl View for BitPacker {
    type V = Seq<bool>;

    /// The bits written so far, in the order they were written.
    closed spec fn view(&self) -> Seq<bool> {
        stream_of(self.buffer@, self.bit_offset as nat)
    }
}

impl BitPacker {
    /// The buffer is in step with the bit count: it holds at least one byte, and the
    /// bits of its last byte that are not yet written are zero.
    pub closed spec fn wf(&self) -> bool {
        &&& self.buffer@.len() >= 1
        &&& self.bit_offset <= 8
        &&& self.bit_offset == 0 ==> self.buffer@.len() == 1
        &&& self.buffer@.last() as nat % pow2((8 - self.bit_offset) as nat) == 0
    }

    /// The written bits, as the bits of the buffer cut off at the bit count.
    proof fn lemma_view_take(self)
        requires
            self.wf(),
        ensures
            self@ == bytes_bits(self.buffer@).take(
                8 * (self.buffer@.len() - 1) + self.bit_offset,
            ),
            self@.len() == 8 * (self.buffer@.len() - 1) + self.bit_offset,
    {
        let o = self.bit_offset as nat;
        let last = self.buffer@.last() as nat;
        let cut = bytes_bits(self.buffer@).take(8 * (self.buffer@.len() - 1) + self.bit_offset);
        assert forall|i: int| 0 <= i < cut.len() implies cut[i] == self@[i] by {
            if i >= 8 * (self.buffer@.len() - 1) {
                let t = i - 8 * (self.buffer@.len() - 1);
                lemma_bit_of_shift(last, (8 - o) as nat, (o - 1 - t) as nat);
            }
        }
        assert(self@ =~= cut);
    }

    /// Starts a stream in `buffer`, whose old contents are dropped.
    pub fn new(buffer: Vec<u8>) -> (packer: Self)
        ensures
            packer.wf(),
            packer@ == Seq::<bool>::empty(),
    {
        let mut buffer = buffer;
        buffer.clear();
        buffer.push(0);
        proof {
            lemma_pow2_byte(8);
        }
        let packer = BitPacker { buffer, bit_offset: 0 };
        assert(packer.buffer@ =~= seq![0u8]);
        assert(packer.buffer@.last() == 0);
        assert(0nat % pow2(8) == 0);
        assert(packer.wf());
        assert(packer@ =~= Seq::<bool>::empty());
        packer
    }

    /// The bytes written so far; the unwritten bits of the last byte are zero.
    pub fn buffer(&self) -> (bytes: &Vec<u8>)
        requires
            self.wf(),
        ensures
            bytes@ == pack_bits(self@),
    {
        proof {
            self.lemma_packed();
        }
        &self.buffer
    }

    /// The number of bits written into the last byte of the buffer.
    pub fn bit_offset(&self) -> (offset: u8)
        requires
            self.wf(),
        ensures
            offset <= 8,
            self@.len() > 0 ==> offset == (self@.len() - 1) % 8 + 1,
            self@.len() == 0 ==> offset == 0,
    {
        proof {
            self.lemma_view_take();
        }
        self.bit_offset
    }

    /// Appends one bit.
    pub fn write_bit(&mut self, bit: bool)
        requires
            old(self).wf(),
        ensures
            final(self).wf(),
            final(self)@ == old(self)@.push(bit),
    {
        self.write_bits(if bit { 1 } else { 0 }, 1);
        proof {
            lemma2_to64();
            assert(bit_of(1, 0) && !bit_of(0, 0));
            assert(value_bits(if bit { 1nat } else { 0nat }, 1) =~= seq![bit]);
            assert(old(self)@ + seq![bit] =~= old(self)@.push(bit));
        }
    }

    /// Appends the low `width` bits of `bits`, most significant first.
    pub fn write_bits(&mut self, bits: u8, width: u8)
        requires
            old(self).wf(),
            width <= 8,
        ensures
            final(self).wf(),
            final(self)@ == old(self)@ + value_bits(bits as nat, width as nat),
    {
        if width == 0 {
            assert(self@ + value_bits(bits as nat, 0) =~= self@);
            return ;
        }
        let v = bits & (0xffu8 >> (8 - width));
        let off = self.bit_offset;
        let last = self.buffer.len() - 1;
        let cur = self.buffer[last];
        proof {
            lemma_mask_byte_arith(bits, width);
            lemma_value_bits_mod(bits as nat, width as nat);
            lemma_pow2_pos(width as nat);
            lemma_mod_bound(bits as int, pow2(width as nat) as int);
        }
        if off == 8 {
            let byte = v << (8 - width);
            proof {
                lemma_field_fresh(v, width);
            }
            self.buffer.push(byte);
            self.bit_offset = width;
            proof {
                lemma_stream_push(old(self).buffer@, byte, width as nat);
            }
        } else {
            let remaining = 8 - off;
            if width <= remaining {
                let merged = cur | (v << (remaining - width));
                proof {
                    lemma_field_same(cur, off, v, width);
                }
                self.buffer.set(last, merged);
                self.bit_offset = off + width;
                proof {
                    assert(self.buffer@.drop_last() =~= old(self).buffer@.drop_last());
                    let full = bytes_bits(self.buffer@.drop_last());
                    let used = value_bits(cur as nat / pow2((8 - off) as nat), off as nat);
                    let grown = value_bits(v as nat, width as nat);
                    assert(full + (used + grown) =~= (full + used) + grown);
                }
            } else {
                let second_width = width - remaining;
                let merged = cur | (v >> second_width);
                let second = v << (8 - second_width);
                proof {
                    lemma_field_split(cur, off, v, width);
                    lemma_bytes_bits_push(old(self).buffer@.drop_last(), merged);
                }
                self.buffer.set(last, merged);
                self.buffer.push(second);
                self.bit_offset = second_width;
                proof {
                    assert(self.buffer@.drop_last() =~= old(self).buffer@.drop_last().push(merged));
                    let full = bytes_bits(old(self).buffer@.drop_last());
                    let used = value_bits(cur as nat / pow2((8 - off) as nat), off as nat);
                    let high = value_bits(v as nat / pow2(second_width as nat), remaining as nat);
                    let low = value_bits(v as nat, second_width as nat);
                    assert((full + (used + high)) + low =~= (full + used) + (high + low));
                }
            }
        }
    }

    /// Appends the eight bits of `byte`.
    pub fn write_byte(&mut self, byte: u8)
        requires
            old(self).wf(),
        ensures
            final(self).wf(),
            final(self)@ == old(self)@ + value_bits(byte as nat, 8),
    {
        if self.bit_offset == 8 {
            self.buffer.push(byte);
            proof {
                lemma2_to64();
                assert(byte as nat / 1 == byte as nat);
                lemma_stream_push(old(self).buffer@, byte, 8);
            }
        } else {
            self.write_bits(byte, 8);
        }
    }

    /// Appends a run of bytes, eight bits each.
    pub fn write_bytes(&mut self, bytes: &[u8])
        requires
            old(self).wf(),
        ensures
            final(self).wf(),
            final(self)@ == old(self)@ + bytes_bits(bytes@),
    {
        let mut i: usize = 0;
        proof {
            assert(self@ + bytes_bits(bytes@.take(0)) =~= self@);
        }
        while i < bytes.len()
            invariant
                i <= bytes.len(),
                self.wf(),
                self@ == old(self)@ + bytes_bits(bytes@.take(i as int)),
            decreases bytes.len() - i,
        {
            proof {
                lemma_bytes_bits_push(bytes@.take(i as int), bytes[i as int]);
                assert(bytes@.take(i + 1) =~= bytes@.take(i as int).push(bytes[i as int]));
                assert(old(self)@ + (bytes_bits(bytes@.take(i as int)) + value_bits(
                    bytes[i as int] as nat,
                    8,
                )) =~= (old(self)@ + bytes_bits(bytes@.take(i as int))) + value_bits(
                    bytes[i as int] as nat,
                    8,
                ));
            }
            self.write_byte(bytes[i]);
            i += 1;
        }
        proof {
            assert(bytes@.take(bytes.len() as int) =~= bytes@);
        }
    }

    /// Appends the low `width` bits of the little-endian number in `bytes`, most
    /// significant bit first: the partial high byte, then the full bytes from the
    /// most significant down.
    pub fn write_bytes_width(&mut self, bytes: &[u8], width: u8)
        requires
            old(self).wf(),
            width <= 8 * bytes.len(),
        ensures
            final(self).wf(),
            final(self)@ == old(self)@ + value_bits(le_value(bytes@), width as nat),
    {
        let full: usize = (width / 8) as usize;
        let fragment: u8 = width % 8;
        let ghost value = le_value(bytes@);
        proof {
            lemma_value_bits_split(value, fragment as nat, (8 * full) as nat);
            assert(self@ + value_bits(value / pow2((8 * full) as nat), 0) =~= self@);
        }
        if fragment > 0 {
            proof {
                lemma_le_value_bits(bytes@, full as int, fragment as nat);
            }
            self.write_bits(bytes[full], fragment);
        }
        let mut j: usize = full;
        while j > 0
            invariant
                j <= full,
                full < bytes.len() || (full == bytes.len() && fragment == 0),
                8 * full + fragment == width,
                value == le_value(bytes@),
                self.wf(),
                self@ == old(self)@ + value_bits(value / pow2((8 * j) as nat), (width - 8 * j) as nat),
            decreases j,
        {
            j -= 1;
            proof {
                let rest = value / pow2((8 * (j + 1)) as nat);
                let here = value / pow2((8 * j) as nat);
                lemma_pow2_pos((8 * j) as nat);
                lemma_pow2_pos(8);
                lemma_pow2_adds((8 * j) as nat, 8);
                lemma_div_denominator(value as int, pow2((8 * j) as nat) as int, pow2(8) as int);
                lemma_value_bits_split(here, (width - 8 * (j + 1)) as nat, 8);
                lemma_le_value_bits(bytes@, j as int, 8);
                assert(old(self)@ + (value_bits(rest, (width - 8 * (j + 1)) as nat) + value_bits(
                    here,
                    8,
                )) =~= (old(self)@ + value_bits(rest, (width - 8 * (j + 1)) as nat)) + value_bits(
                    here,
                    8,
                ));
            }
            self.write_byte(bytes[j]);
        }
        proof {
            lemma2_to64();
            assert(value / 1 == value);
        }
    }

    /// Appends the low `width` bits of `bits`, most significant first, one bit at a time.
    pub fn write_bits_u32(&mut self, bits: u32, width: u8)
        requires
            old(self).wf(),
            width <= 32,
        ensures
            final(self).wf(),
            final(self)@ == old(self)@ + value_bits(bits as nat, width as nat),
    {
        let mut i: u8 = width;
        proof {
            assert(self@ + value_bits(bits as nat / pow2(width as nat), 0) =~= self@);
        }
        while i > 0
            invariant
                i <= width <= 32,
                self.wf(),
                self@ == old(self)@ + value_bits(
                    bits as nat / pow2(i as nat),
                    (width - i) as nat,
                ),
            decreases i,
        {
            i -= 1;
            let bit = (bits >> i) & 1 != 0;
            proof {
                let here = bits as nat / pow2(i as nat);
                vstd::bits::lemma_u32_shr_is_div(bits, i as u32);
                let shifted = bits >> i;
                assert((shifted & 1 != 0) == (shifted % 2 == 1)) by (bit_vector);
                lemma_pow2_pos(i as nat);
                lemma2_to64();
                lemma_pow2_adds(i as nat, 1);
                lemma_div_denominator(bits as int, pow2(i as nat) as int, 2);
                lemma_value_bits_drop_last(here, (width - i) as nat);
                let grown = value_bits(here, (width - i) as nat);
                assert(grown =~= grown.drop_last().push(bit));
                assert(old(self)@ + grown =~= (old(self)@ + grown.drop_last()).push(bit));
            }
            self.write_bit(bit);
        }
        proof {
            lemma2_to64();
        }
    }

    /// Ends the stream and hands out its bytes; the last byte is filled up with zeros.
    pub fn finish(self) -> (bytes: Vec<u8>)
        requires
            self.wf(),
        ensures
            bytes@ == pack_bits(self@),
    {
        proof {
            self.lemma_packed();
        }
        self.buffer
    }

    /// The buffer of a well-formed writer holds its bits, packed.
    proof fn lemma_packed(self)
        requires
            self.wf(),
        ensures
            self.buffer@ == pack_bits(self@),
    {
        self.lemma_view_take();
        let bytes = self.buffer@;
        let n = self@.len();
        let o = self.bit_offset as nat;
        assert(packed_len(n) == bytes.len());
        assert forall|j: int| 0 <= j < bytes.len() implies bytes[j] == pack_bits(self@)[j] by {
            let w = window(self@, 8 * j, 8);
            assert forall|i: int| 0 <= i < 8 implies w[i] == value_bits(bytes[j] as nat, 8)[i] by {
                assert(value_bits(bytes[j] as nat, 8)[i] == bytes_bits(bytes)[8 * j + i]);
                if 8 * j + i >= n {
                    assert(j == bytes.len() - 1);
                    lemma_low_bits_clear(bytes[j] as nat, (8 - o) as nat, (7 - i) as nat);
                }
            }
            assert(w =~= value_bits(bytes[j] as nat, 8));
            lemma_value_bits_roundtrip(bytes[j] as nat, 8);
            lemma_pow2_byte(8);
        }
        assert(self.buffer@ =~= pack_bits(self@));
    }
}

/// The field of `w` bits that starts `off` bits into byte `idx` of a run of bytes.
proof fn lemma_stream_field(bytes: Seq<u8>, idx: int, off: nat, w: nat)
    requires
        0 <= idx < bytes.len(),
        off + w <= 8,
    ensures
        bits_value(bytes_bits(bytes).subrange(8 * idx + off, 8 * idx + off + w)) == (bytes[idx] as nat
            / pow2((8 - off - w) as nat)) % pow2(w),
{
    let byte = bytes[idx] as nat;
    let s = (8 - off - w) as nat;
    let field = bytes_bits(bytes).subrange(8 * idx + off, 8 * idx + off + w);
    let shifted = value_bits(byte / pow2(s), w);
    assert forall|i: int| 0 <= i < w implies #[trigger] field[i] == shifted[i] by {
        lemma_bit_of_shift(byte, s, (w - 1 - i) as nat);
    }
    assert(field =~= shifted);
    lemma_value_bits_roundtrip(byte / pow2(s), w);
}

/// One bit of a byte, counted from the most significant end.
fn bit_at(byte: u8, i: u8) -> (bit: bool)
    requires
        i < 8,
    ensures
        bit == bit_of(byte as nat, (7 - i) as nat),
{
    let shifted = byte >> (7 - i);
    proof {
        lemma_shr_byte_arith(byte, (7 - i) as u8);
        assert((shifted & 1 != 0) == (shifted % 2 == 1)) by (bit_vector);
    }
    shifted & 1 != 0
}

/// An MSB-first bit reader over a borrowed run of bytes.
///
/// A read that finds too few bits left returns `None` and leaves the reader where it was.
#[derive(Clone, Copy)]
pub struct BitUnpacker<'a> {
    buffer: &'a [u8],
    byte_index: usize,
    bit_offset: u8,
}

impl<'a> BitUnpacker<'a> {
    #[verifier::type_invariant]
    /// The position is inside the buffer or at its end, and at the end it is at a byte boundary.
    spec fn inv(self) -> bool {
        &&& self.bit_offset < 8
        &&& self.byte_index <= self.buffer@.len()
        &&& self.byte_index == self.buffer@.len() ==> self.bit_offset == 0
    }

    /// All the bits of the bytes that are read from.
    pub closed spec fn stream(&self) -> Seq<bool> {
        bytes_bits(self.buffer@)
    }

    /// The number of bits consumed so far.
    pub closed spec fn position(&self) -> nat {
        (8 * self.byte_index + self.bit_offset) as nat
    }

    /// The number written by the `w` bits at the reader's position.
    pub open spec fn next_value(&self, w: nat) -> nat {
        bits_value(self.stream().subrange(self.position() as int, self.position() as int + w))
    }

    /// Starts reading at the first bit of `buffer`.
    pub fn new(buffer: &'a [u8]) -> (unpacker: Self)
        ensures
            unpacker.stream() == bytes_bits(buffer@),
            unpacker.position() == 0,
    {
        BitUnpacker { buffer, byte_index: 0, bit_offset: 0 }
    }

    /// The number of bits consumed so far.
    pub fn bits_read(&self) -> (count: u128)
        ensures
            count == self.position(),
    {
        self.byte_index as u128 * 8 + self.bit_offset as u128
    }

    /// Whether `n` more bits can be read.
    pub fn has_bits(&self, n: usize) -> (enough: bool)
        ensures
            enough == (self.position() + n <= self.stream().len()),
            self.position() <= self.stream().len(),
    {
        proof {
            use_type_invariant(self);
        }
        let left = self.buffer.len() - self.byte_index;
        (left as u128) * 8 >= n as u128 + self.bit_offset as u128
    }

    /// Moves on by `n` bits that are known to be there.
    fn advance(&mut self, n: u8)
        requires
            n <= 8,
            old(self).position() + n <= old(self).stream().len(),
        ensures
            final(self).stream() == old(self).stream(),
            final(self).position() == old(self).position() + n,
            final(self).buffer == old(self).buffer,
    {
        proof {
            use_type_invariant(&*self);
            assert(self.stream().len() == 8 * self.buffer@.len());
        }
        let total = self.bit_offset + n;
        if total >= 8 {
            assert(self.byte_index < self.buffer.len());
            let next = self.byte_index + 1;
            self.bit_offset = 0;
            self.byte_index = next;
            self.bit_offset = total - 8;
        } else {
            self.bit_offset = total;
        }
    }

    /// Reads one bit.
    pub fn read_bit(&mut self) -> (bit: Option<bool>)
        ensures
            final(self).stream() == old(self).stream(),
            match bit {
                Some(b) => {
                    &&& old(self).position() < old(self).stream().len()
                    &&& b == old(self).stream()[old(self).position() as int]
                    &&& final(self).position() == old(self).position() + 1
                },
                None => {
                    &&& old(self).position() >= old(self).stream().len()
                    &&& final(self).position() == old(self).position()
                },
            },
    {
        proof {
            use_type_invariant(&*self);
        }
        if !self.has_bits(1) {
            return None;
        }
        let bit = bit_at(self.buffer[self.byte_index], self.bit_offset);
        self.advance(1);
        Some(bit)
    }

    /// Reads `width` bits as a number, most significant bit first.
    pub fn read_bits(&mut self, width: u8) -> (bits: Option<u8>)
        requires
            width <= 8,
        ensures
            final(self).stream() == old(self).stream(),
            match bits {
                Some(v) => {
                    &&& old(self).position() + width <= old(self).stream().len()
                    &&& v == old(self).next_value(width as nat)
                    &&& final(self).position() == old(self).position() + width
                },
                None => {
                    &&& old(self).position() + width > old(self).stream().len()
                    &&& final(self).position() == old(self).position()
                },
            },
    {
        proof {
            use_type_invariant(&*self);
        }
        if !self.has_bits(width as usize) {
            return None;
        }
        if width == 0 {
            proof {
                assert(self.stream().subrange(
                    self.position() as int,
                    self.position() as int + 0,
                ) =~= Seq::<bool>::empty());
            }
            return Some(0);
        }
        let off = self.bit_offset;
        let remaining = 8 - off;
        let byte = self.buffer[self.byte_index];
        let ghost pos = self.position() as int;
        let ghost stream = self.stream();
        if width <= remaining {
            let shift = remaining - width;
            let result = (byte >> shift) & (0xffu8 >> (8 - width));
            proof {
                lemma_stream_field(self.buffer@, self.byte_index as int, off as nat, width as nat);
                lemma_shr_byte_arith(byte, shift);
                lemma_mask_byte_arith(byte >> shift, width);
            }
            self.advance(width);
            Some(result)
        } else {
            let second_width = width - remaining;
            let first_part = byte & (0xffu8 >> (8 - remaining));
            let second_byte = self.buffer[self.byte_index + 1];
            let second_part = second_byte >> (8 - second_width);
            let result = (first_part << second_width) | second_part;
            proof {
                let idx = self.byte_index as int;
                lemma2_to64();
                lemma_stream_field(self.buffer@, idx, off as nat, remaining as nat);
                lemma_stream_field(self.buffer@, idx + 1, 0, second_width as nat);
                lemma_mask_byte_arith(byte, remaining);
                assert(byte as nat / 1 == byte as nat);
                lemma_shr_byte_arith(second_byte, (8 - second_width) as u8);
                lemma_pow2_pos(remaining as nat);
                lemma_pow2_pos(second_width as nat);
                lemma_mod_bound(byte as int, pow2(remaining as nat) as int);
                lemma_pow2_adds(second_width as nat, (8 - second_width) as nat);
                lemma_div_bound(second_byte as nat, second_width as nat, (8 - second_width) as nat);
                lemma_join_fields(first_part, remaining, second_part, second_width);
                let high = stream.subrange(pos, pos + remaining);
                let low = stream.subrange(pos + remaining, pos + width);
                assert(stream.subrange(pos, pos + width) =~= high + low);
                lemma_bits_value_concat(high, low);
                lemma_small_mod(second_part as nat, pow2(second_width as nat));
            }
            self.advance(remaining);
            self.advance(second_width);
            Some(result)
        }
    }

    /// Reads eight bits as a byte.
    pub fn read_byte(&mut self) -> (byte: Option<u8>)
        ensures
            final(self).stream() == old(self).stream(),
            match byte {
                Some(v) => {
                    &&& old(self).position() + 8 <= old(self).stream().len()
                    &&& v == old(self).next_value(8)
                    &&& final(self).position() == old(self).position() + 8
                },
                None => {
                    &&& old(self).position() + 8 > old(self).stream().len()
                    &&& final(self).position() == old(self).position()
                },
            },
    {
        self.read_bits(8)
    }

    /// Reads `n` bytes, eight bits each.
    pub fn read_bytes(&mut self, n: usize) -> (bytes: Option<Vec<u8>>)
        ensures
            final(self).stream() == old(self).stream(),
            match bytes {
                Some(v) => {
                    &&& old(self).position() + 8 * n <= old(self).stream().len()
                    &&& v@.len() == n
                    &&& bytes_bits(v@) == old(self).stream().subrange(
                        old(self).position() as int,
                        old(self).position() + 8 * n,
                    )
                    &&& final(self).position() == old(self).position() + 8 * n
                },
                None => {
                    &&& old(self).position() + 8 * n > old(self).stream().len()
                    &&& final(self).position() == old(self).position()
                },
            },
    {
        proof {
            use_type_invariant(&*self);
            assert(self.stream().len() == 8 * self.buffer@.len());
        }
        let left = self.buffer.len() - self.byte_index;
        let enough = if self.bit_offset == 0 {
            n <= left
        } else {
            n < left
        };
        if !enough {
            return None;
        }
        let ghost start = self.position() as int;
        let ghost stream = self.stream();
        let mut result: Vec<u8> = Vec::new();
        let mut i: usize = 0;
        proof {
            assert(bytes_bits(result@) =~= stream.subrange(start, start + 0));
        }
        while i < n
            invariant
                i <= n,
                0 <= start,
                start + 8 * n <= stream.len(),
                self.stream() == stream,
                self.position() == start + 8 * i,
                result@.len() == i,
                bytes_bits(result@) == stream.subrange(start, start + 8 * i),
            decreases n - i,
        {
            let ghost here = self.position() as int;
            match self.read_byte() {
                Some(byte) => {
                    proof {
                        let piece = stream.subrange(here, here + 8);
                        lemma_bits_roundtrip(piece);
                        lemma_bytes_bits_push(result@, byte);
                        assert(stream.subrange(start, here) + piece =~= stream.subrange(
                            start,
                            here + 8,
                        ));
                    }
                    result.push(byte);
                },
                None => {
                    return None;
                },
            }
            i += 1;
        }
        Some(result)
    }

    /// Reads `width` bits as a number, most significant bit first: the inverse of
    /// writing the low `width` bits of a little-endian number.
    pub fn read_bytes_width(&mut self, width: u8) -> (value: Option<u64>)
        requires
            width <= 64,
        ensures
            final(self).stream() == old(self).stream(),
            match value {
                Some(v) => {
                    &&& old(self).position() + width <= old(self).stream().len()
                    &&& v == old(self).next_value(width as nat)
                    &&& final(self).position() == old(self).position() + width
                },
                None => {
                    &&& old(self).position() + width > old(self).stream().len()
                    &&& final(self).position() == old(self).position()
                },
            },
    {
        if !self.has_bits(width as usize) {
            return None;
        }
        let ghost start = self.position() as int;
        let ghost stream = self.stream();
        let full: u8 = width / 8;
        let fragment: u8 = width % 8;
        let mut value: u64 = 0;
        if fragment > 0 {
            match self.read_bits(fragment) {
                Some(high) => {
                    value = high as u64;
                },
                None => {
                    return None;
                },
            }
        }
        proof {
            lemma_bits_value_bound(stream.subrange(start, start + fragment));
        }
        let mut i: u8 = 0;
        while i < full
            invariant
                i <= full,
                8 * full + fragment == width <= 64,
                fragment < 8,
                0 <= start,
                start + width <= stream.len(),
                self.stream() == stream,
                self.position() == start + fragment + 8 * i,
                value == bits_value(stream.subrange(start, start + fragment + 8 * i)),
                value < pow2((fragment + 8 * i) as nat),
            decreases full - i,
        {
            let ghost here = self.position() as int;
            match self.read_byte() {
                Some(byte) => {
                    proof {
                        let seen = stream.subrange(start, here);
                        let piece = stream.subrange(here, here + 8);
                        lemma_bits_value_concat(seen, piece);
                        assert(seen + piece =~= stream.subrange(start, here + 8));
                        lemma_bits_value_bound(stream.subrange(start, here + 8));
                        lemma2_to64();
                        lemma_pow2_strictly_increases_or_equal((fragment + 8 * i + 8) as nat, 64);
                    }
                    value = value * 256 + byte as u64;
                },
                None => {
                    return None;
                },
            }
            i += 1;
        }
        Some(value)
    }

    /// The number written by the next `width` bits, reading zeros past the end of
    /// the stream; nothing is consumed.
    pub fn peek_bits(&self, width: u8) -> (value: usize)
        requires
            width <= 32,
        ensures
            value == bits_value(window(self.stream(), self.position() as int, width as nat)),
    {
        proof {
            use_type_invariant(self);
            assert(self.stream().len() == 8 * self.buffer@.len());
        }
        let mut result: usize = 0;
        let mut byte_pos = self.byte_index;
        let mut bit_pos = self.bit_offset;
        let ghost stream = self.stream();
        let ghost start = self.position() as int;
        let mut i: u8 = 0;
        proof {
            lemma2_to64();
        }
        while i < width
            invariant
                i <= width <= 32,
                0 <= start,
                bit_pos < 8,
                byte_pos <= self.buffer@.len(),
                stream == bytes_bits(self.buffer@),
                byte_pos < self.buffer@.len() ==> 8 * byte_pos + bit_pos == start + i,
                byte_pos == self.buffer@.len() ==> start + i >= stream.len(),
                result == bits_value(window(stream, start, i as nat)),
                result < pow2(i as nat),
            decreases width - i,
        {
            let ghost seen = window(stream, start, i as nat);
            let ghost grown = window(stream, start, (i + 1) as nat);
            proof {
                assert(grown.drop_last() =~= seen);
                lemma_pow2_unfold((i + 1) as nat);
                lemma2_to64();
                lemma_pow2_strictly_increases_or_equal((i + 1) as nat, 32);
            }
            let old_result = result;
            if byte_pos >= self.buffer.len() {
                result = result << 1;
                proof {
                    assert(old_result < 0x8000_0000usize ==> (old_result << 1) == old_result * 2)
                        by (bit_vector);
                }
            } else {
                let bit: usize = if bit_at(self.buffer[byte_pos], bit_pos) {
                    1
                } else {
                    0
                };
                result = (result << 1) | bit;
                proof {
                    assert(old_result < 0x8000_0000usize && bit <= 1 ==> ((old_result << 1) | bit)
                        == old_result * 2 + bit) by (bit_vector);
                }
                bit_pos += 1;
                if bit_pos == 8 {
                    byte_pos += 1;
                    bit_pos = 0;
                }
            }
            i += 1;
        }
        result
    }

    /// Moves on by `n` bits.
    pub fn skip_bits(&mut self, n: u8) -> (skipped: Option<()>)
        ensures
            final(self).stream() == old(self).stream(),
            match skipped {
                Some(_) => {
                    &&& old(self).position() + n <= old(self).stream().len()
                    &&& final(self).position() == old(self).position() + n
                },
                None => {
                    &&& old(self).position() + n > old(self).stream().len()
                    &&& final(self).position() == old(self).position()
                },
            },
    {
        if !self.has_bits(n as usize) {
            return None;
        }
        let mut left: u8 = n;
        while left > 8
            invariant
                left <= n,
                self.stream() == old(self).stream(),
                self.position() + left == old(self).position() + n,
                old(self).position() + n <= old(self).stream().len(),
            decreases left,
        {
            self.advance(8);
            left -= 8;
        }
        self.advance(left);
        Some(())
    }
}

/// Joining a high field with a `low_width`-bit low field.
proof fn lemma_join_fields(high: u8, high_width: u8, low: u8, low_width: u8)
    requires
        high_width + low_width <= 8,
        1 <= low_width < 8,
        (high as nat) < pow2(high_width as nat),
        (low as nat) < pow2(low_width as nat),
    ensures
        ((high << low_width) | low) as nat == high as nat * pow2(low_width as nat) + low as nat,
{
    lemma_shl_byte_arith(high, low_width);
    lemma_pow2_strictly_increases_or_equal(high_width as nat, (8 - low_width) as nat);
    lemma_small_mod(high as nat, pow2((8 - low_width) as nat));
    lemma_pow2_pos(low_width as nat);
    let shifted = high << low_width;
    assert(shifted as nat % pow2(low_width as nat) == 0) by {
        lemma_mod_multiples_basic(high as int, pow2(low_width as nat) as int);
    }
    lemma_or_byte_arith(shifted, low, low_width as nat);
}

} // verus!
