//! The mathematical model of a bit stream: sequences of bits, the numbers they
//! spell, and the bytes they are packed into.
//!
//! Bits are ordered most significant first, both inside a number and inside a
//! byte: the first bit of a stream is bit 7 of byte 0.

use vstd::arithmetic::div_mod::*;
use vstd::arithmetic::power2::*;
use vstd::prelude::*;

verus! {

/// Bit `k` of `v`, counted from the least significant end.
pub open spec fn bit_of(v: nat, k: nat) -> bool {
    (v / pow2(k)) % 2 == 1
}

/// The low `w` bits of `v`, most significant first.
pub open spec fn value_bits(v: nat, w: nat) -> Seq<bool> {
    Seq::new(w, |i: int| bit_of(v, (w - 1 - i) as nat))
}

/// The number spelled by `bits`, most significant first.
pub open spec fn bits_value(bits: Seq<bool>) -> nat
    decreases bits.len(),
{
    if bits.len() == 0 {
        0
    } else {
        2 * bits_value(bits.drop_last()) + if bits.last() {
            1nat
        } else {
            0nat
        }
    }
}

/// The bits held by a run of bytes, eight per byte.
pub open spec fn bytes_bits(bytes: Seq<u8>) -> Seq<bool> {
    Seq::new(8 * bytes.len(), |i: int| bit_of(bytes[i / 8] as nat, (7 - i % 8) as nat))
}

/// Bit `i` of `bits`, reading as zero past the end.
pub open spec fn padded_bit(bits: Seq<bool>, i: int) -> bool {
    0 <= i < bits.len() && bits[i]
}

/// The `w` bits of `bits` that start at `pos`, with zeros past the end.
pub open spec fn window(bits: Seq<bool>, pos: int, w: nat) -> Seq<bool> {
    Seq::new(w, |i: int| padded_bit(bits, pos + i))
}

/// The number of bytes that `n` bits are packed into: at least one.
pub open spec fn packed_len(n: nat) -> nat {
    if n == 0 {
        1
    } else {
        ((n + 7) / 8) as nat
    }
}

/// The bytes that a bit stream is packed into: the last byte is filled up with
/// zeros, and an empty stream still takes one zero byte.
pub open spec fn pack_bits(bits: Seq<bool>) -> Seq<u8> {
    Seq::new(packed_len(bits.len()), |j: int| bits_value(window(bits, 8 * j, 8)) as u8)
}

/// The little-endian number held by a run of bytes.
pub open spec fn le_value(bytes: Seq<u8>) -> nat
    decreases bytes.len(),
{
    if bytes.len() == 0 {
        0
    } else {
        bytes[0] as nat + 256 * le_value(bytes.skip(1))
    }
}

/// `piece` stands in `stream` at bit `pos`.
pub open spec fn holds_at(stream: Seq<bool>, pos: int, piece: Seq<bool>) -> bool {
    &&& 0 <= pos
    &&& pos + piece.len() <= stream.len()
    &&& stream.subrange(pos, pos + piece.len()) == piece
}

/// Bit `k` of a number shifted down by `a` bits is bit `a + k` of the number.
pub proof fn lemma_bit_of_shift(v: nat, a: nat, k: nat)
    ensures
        bit_of(v / pow2(a), k) == bit_of(v, a + k),
{
    lemma_pow2_pos(a);
    lemma_pow2_pos(k);
    lemma_pow2_adds(a, k);
    lemma_div_denominator(v as int, pow2(a) as int, pow2(k) as int);
}

/// The low `w` bits of `v` are the low `w - 1` bits of its half, then its lowest bit.
pub proof fn lemma_value_bits_drop_last(v: nat, w: nat)
    requires
        w > 0,
    ensures
        value_bits(v, w).drop_last() == value_bits(v / 2, (w - 1) as nat),
        value_bits(v, w).last() == (v % 2 == 1),
{
    lemma2_to64();
    let whole = value_bits(v, w);
    let half = value_bits(v / 2, (w - 1) as nat);
    assert forall|i: int| 0 <= i < w - 1 implies #[trigger] whole[i] == half[i] by {
        lemma_bit_of_shift(v, 1, (w - 2 - i) as nat);
    }
    assert(whole.drop_last() =~= half);
}

/// Spelling the low `w` bits of `v` and reading them back gives `v` modulo `2^w`.
pub proof fn lemma_value_bits_roundtrip(v: nat, w: nat)
    ensures
        bits_value(value_bits(v, w)) == v % pow2(w),
    decreases w,
{
    lemma2_to64();
    if w > 0 {
        lemma_value_bits_drop_last(v, w);
        lemma_value_bits_roundtrip(v / 2, (w - 1) as nat);
        lemma_pow2_unfold(w);
        lemma_pow2_pos((w - 1) as nat);
        lemma_mod_breakdown(v as int, 2, pow2((w - 1) as nat) as int);
    }
}

/// A run of `n` bits spells a number below `2^n`.
pub proof fn lemma_bits_value_bound(bits: Seq<bool>)
    ensures
        bits_value(bits) < pow2(bits.len()),
    decreases bits.len(),
{
    lemma2_to64();
    if bits.len() > 0 {
        lemma_bits_value_bound(bits.drop_last());
        lemma_pow2_unfold(bits.len());
    }
}

/// Reading a run of bits as a number and spelling that number gives the bits back.
pub proof fn lemma_bits_roundtrip(bits: Seq<bool>)
    ensures
        value_bits(bits_value(bits), bits.len()) == bits,
    decreases bits.len(),
{
    let n = bits.len();
    if n > 0 {
        lemma_bits_roundtrip(bits.drop_last());
        lemma_value_bits_drop_last(bits_value(bits), n);
        let v = bits_value(bits);
        assert(v / 2 == bits_value(bits.drop_last()));
        assert(value_bits(v, n) =~= value_bits(v, n).drop_last().push(value_bits(v, n).last()));
        assert(bits =~= bits.drop_last().push(bits.last()));
    }
    assert(value_bits(bits_value(bits), n) =~= bits);
}

/// The low `w` bits of a number depend on the number modulo `2^w` only.
pub proof fn lemma_value_bits_mod(v: nat, w: nat)
    ensures
        value_bits(v % pow2(w), w) == value_bits(v, w),
{
    lemma_value_bits_roundtrip(v, w);
    lemma_bits_roundtrip(value_bits(v, w));
}

/// The number spelled by two runs of bits, one behind the other.
pub proof fn lemma_bits_value_concat(a: Seq<bool>, b: Seq<bool>)
    ensures
        bits_value(a + b) == bits_value(a) * pow2(b.len()) + bits_value(b),
    decreases b.len(),
{
    lemma2_to64();
    if b.len() == 0 {
        assert(a + b =~= a);
    } else {
        assert((a + b).drop_last() =~= a + b.drop_last());
        lemma_bits_value_concat(a, b.drop_last());
        lemma_pow2_unfold(b.len());
        assert(bits_value(a) * pow2(b.len()) == 2 * (bits_value(a) * pow2((b.len() - 1) as nat)))
            by (nonlinear_arith)
            requires
                pow2(b.len()) == 2 * pow2((b.len() - 1) as nat),
        ;
    }
}

/// The low `hi + lo` bits of `v` are the `hi` bits above bit `lo`, then the low `lo` bits.
pub proof fn lemma_value_bits_split(v: nat, hi: nat, lo: nat)
    ensures
        value_bits(v, hi + lo) == value_bits(v / pow2(lo), hi) + value_bits(v, lo),
{
    let whole = value_bits(v, hi + lo);
    let high = value_bits(v / pow2(lo), hi);
    assert forall|i: int| 0 <= i < hi implies #[trigger] whole[i] == high[i] by {
        lemma_bit_of_shift(v, lo, (hi - 1 - i) as nat);
    }
    assert(whole =~= high + value_bits(v, lo));
}

/// A piece that stands in a stream is read back as the number it spells.
pub proof fn lemma_read_back(stream: Seq<bool>, pos: int, v: nat, w: nat)
    requires
        holds_at(stream, pos, value_bits(v, w)),
    ensures
        bits_value(stream.subrange(pos, pos + w)) == v % pow2(w),
{
    lemma_value_bits_roundtrip(v, w);
}

/// Two pieces stand in a stream one behind the other exactly if both stand there.
pub proof fn lemma_holds_at_concat(stream: Seq<bool>, pos: int, a: Seq<bool>, b: Seq<bool>)
    ensures
        holds_at(stream, pos, a + b) <==> holds_at(stream, pos, a) && holds_at(
            stream,
            pos + a.len(),
            b,
        ),
{
    if holds_at(stream, pos, a + b) {
        assert(stream.subrange(pos, pos + a.len()) =~= (a + b).subrange(0, a.len() as int));
        assert((a + b).subrange(0, a.len() as int) =~= a);
        assert(stream.subrange(pos + a.len(), pos + a.len() + b.len()) =~= (a + b).subrange(
            a.len() as int,
            (a + b).len() as int,
        ));
        assert((a + b).subrange(a.len() as int, (a + b).len() as int) =~= b);
    }
    if holds_at(stream, pos, a) && holds_at(stream, pos + a.len(), b) {
        assert(stream.subrange(pos, pos + a.len() + b.len()) =~= stream.subrange(
            pos,
            pos + a.len(),
        ) + stream.subrange(pos + a.len(), pos + a.len() + b.len()));
    }
}

/// Appending a byte to a run of bytes appends its eight bits.
pub proof fn lemma_bytes_bits_push(bytes: Seq<u8>, b: u8)
    ensures
        bytes_bits(bytes.push(b)) == bytes_bits(bytes) + value_bits(b as nat, 8),
{
    assert(bytes_bits(bytes.push(b)) =~= bytes_bits(bytes) + value_bits(b as nat, 8));
}

/// The eight bits of byte `j` of a run of bytes.
pub proof fn lemma_bytes_bits_byte(bytes: Seq<u8>, j: int)
    requires
        0 <= j < bytes.len(),
    ensures
        bytes_bits(bytes).subrange(8 * j, 8 * j + 8) == value_bits(bytes[j] as nat, 8),
{
    assert(bytes_bits(bytes).subrange(8 * j, 8 * j + 8) =~= value_bits(bytes[j] as nat, 8));
}

/// Packing a bit stream into bytes keeps every bit and pads with zeros.
pub proof fn lemma_pack_bits(bits: Seq<bool>)
    ensures
        bytes_bits(pack_bits(bits)).len() == 8 * packed_len(bits.len()),
        bits.len() <= 8 * packed_len(bits.len()) < bits.len() + 8 || bits.len() == 0,
        forall|i: int|
            0 <= i < 8 * packed_len(bits.len()) ==> #[trigger] bytes_bits(pack_bits(bits))[i]
                == padded_bit(bits, i),
{
    lemma2_to64();
    let bytes = pack_bits(bits);
    assert forall|i: int| 0 <= i < 8 * packed_len(bits.len()) implies #[trigger] bytes_bits(
        bytes,
    )[i] == padded_bit(bits, i) by {
        let j = i / 8;
        let w = window(bits, 8 * j, 8);
        lemma_bits_value_bound(w);
        lemma_bits_roundtrip(w);
        assert(bytes[j] as nat == bits_value(w));
        assert(value_bits(bits_value(w), 8)[i % 8] == w[i % 8]);
    }
}

/// The packed bytes of a bit stream, read as bits, start with the stream itself and
/// go on for fewer than eight bits more, or for eight where the stream is empty.
pub proof fn lemma_packed_holds(bits: Seq<bool>)
    ensures
        holds_at(bytes_bits(pack_bits(bits)), 0, bits),
        bits.len() > 0 ==> bytes_bits(pack_bits(bits)).len() < bits.len() + 8,
        bits.len() == 0 ==> bytes_bits(pack_bits(bits)).len() == 8,
{
    lemma_pack_bits(bits);
    let stream = bytes_bits(pack_bits(bits));
    assert(stream.subrange(0, bits.len() as int) =~= bits);
}

/// Two runs of bytes that hold the same bits are the same.
pub proof fn lemma_bytes_bits_injective(a: Seq<u8>, b: Seq<u8>)
    requires
        bytes_bits(a) == bytes_bits(b),
    ensures
        a == b,
{
    lemma2_to64();
    assert(a.len() == b.len()) by {
        assert(bytes_bits(a).len() == 8 * a.len());
        assert(bytes_bits(b).len() == 8 * b.len());
    }
    assert forall|j: int| 0 <= j < a.len() implies a[j] == b[j] by {
        lemma_bytes_bits_byte(a, j);
        lemma_bytes_bits_byte(b, j);
        lemma_value_bits_roundtrip(a[j] as nat, 8);
        lemma_value_bits_roundtrip(b[j] as nat, 8);
    }
    assert(a =~= b);
}

} // verus!
