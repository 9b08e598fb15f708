//! Base-N digit bundling: a run of digits below `m` is packed into one number in
//! base `m`, which is written with exactly as many bits as the largest such number
//! needs. This recovers the fraction of a bit per digit that a fixed power-of-two
//! width wastes when `m` is not a power of two.

use crate::bit_packer::{BitPacker, BitUnpacker};
use crate::bits::{bits_value, holds_at, lemma_read_back, value_bits};
use crate::varint::le_bytes;
use vstd::arithmetic::div_mod::{
    lemma_div_denominator, lemma_fundamental_div_mod_converse,
};
use vstd::arithmetic::power2::{lemma_pow2_unfold, lemma2_to64, pow2};
use vstd::prelude::*;
use vstd::std_specs::bits::{axiom_u64_leading_zeros, u64_leading_zeros};

verus! {

/// The largest bundle size that is tried.
pub const MAX_BUNDLE_SIZE: u8 = 40;

/// `m` to the power `k`.
pub open spec fn power(m: nat, k: nat) -> nat
    decreases k,
{
    if k == 0 {
        1
    } else {
        m * power(m, (k - 1) as nat)
    }
}

/// The number of bits that `x` needs: the least `b` with `x < 2^b`.
pub open spec fn bit_width(x: nat) -> nat
    decreases x,
{
    if x == 0 {
        0
    } else {
        1 + bit_width(x / 2)
    }
}

/// A bundle of `k` digits below `m` fits a 64-bit word.
pub open spec fn bundle_fits(m: nat, k: nat) -> bool {
    power(m, k) <= u64::MAX
}

/// The width of a bundle of `k` digits below `m`: the bits of the largest bundle.
pub open spec fn bundle_bits(m: nat, k: nat) -> nat {
    bit_width((power(m, k) - 1) as nat)
}

/// Bundle size `k` costs no more bits per digit than `j`, and on a tie is no larger.
pub open spec fn no_worse(m: nat, k: nat, j: nat) -> bool {
    ||| bundle_bits(m, k) * j < bundle_bits(m, j) * k
    ||| (bundle_bits(m, k) * j == bundle_bits(m, j) * k && k <= j)
}

/// `k` is the best bundle size for digits below `m`: among the sizes from 1 to 40
/// whose bundles fit a 64-bit word it costs the fewest bits per digit, and it is the
/// smallest such size.
pub open spec fn is_optimal_bundle(m: nat, k: nat) -> bool {
    &&& 1 <= k <= MAX_BUNDLE_SIZE
    &&& bundle_fits(m, k)
    &&& forall|j: nat| 1 <= j <= MAX_BUNDLE_SIZE && bundle_fits(m, j) ==> no_worse(m, k, j)
}

/// The number that a run of digits spells in base `m`, first digit most significant.
pub open spec fn digits_value(digits: Seq<u64>, m: nat) -> nat
    decreases digits.len(),
{
    if digits.len() == 0 {
        0
    } else {
        digits_value(digits.drop_last(), m) * m + digits.last() as nat
    }
}

/// The low `k` digits of `v` in base `m`, most significant first.
pub open spec fn value_digits(v: nat, m: nat, k: nat) -> Seq<u64> {
    Seq::new(k, |i: int| ((v / power(m, (k - 1 - i) as nat)) % m) as u64)
}

/// Every digit of a run is below `m`.
pub open spec fn digits_below(digits: Seq<u64>, m: nat) -> bool {
    forall|i: int| 0 <= i < digits.len() ==> (#[trigger] digits[i] as nat) < m
}

/// A power of a number that is at least 1 is at least 1.
pub proof fn lemma_power_positive(m: nat, k: nat)
    requires
        m >= 1,
    ensures
        power(m, k) >= 1,
    decreases k,
{
    if k > 0 {
        lemma_power_positive(m, (k - 1) as nat);
        assert(m * power(m, (k - 1) as nat) >= 1) by (nonlinear_arith)
            requires
                m >= 1,
                power(m, (k - 1) as nat) >= 1,
        ;
    }
}

/// Powers of a number that is at least 1 do not fall as the exponent grows.
pub proof fn lemma_power_increases(m: nat, j: nat, k: nat)
    requires
        m >= 1,
        j <= k,
    ensures
        power(m, j) <= power(m, k),
    decreases k,
{
    if j < k {
        lemma_power_increases(m, j, (k - 1) as nat);
        lemma_power_positive(m, (k - 1) as nat);
        assert(power(m, (k - 1) as nat) <= m * power(m, (k - 1) as nat)) by (nonlinear_arith)
            requires
                m >= 1,
        ;
    }
}

/// A number is below two to the power of its width, and not below half of that.
pub proof fn lemma_bit_width(x: nat)
    ensures
        x < pow2(bit_width(x)),
        x > 0 ==> pow2((bit_width(x) - 1) as nat) <= x,
    decreases x,
{
    lemma2_to64();
    if x > 0 {
        lemma_bit_width(x / 2);
        lemma_pow2_unfold(bit_width(x));
        if x / 2 > 0 {
            lemma_pow2_unfold(bit_width(x / 2));
        }
    }
}

/// The width of a 64-bit word is 64 less its leading zeros.
pub proof fn lemma_leading_zeros_width(x: u64)
    ensures
        64 - u64_leading_zeros(x) == bit_width(x as nat),
        bit_width(x as nat) <= 64,
    decreases x,
{
    reveal(u64_leading_zeros);
    axiom_u64_leading_zeros(x);
    if x != 0 {
        lemma_leading_zeros_width(x / 2);
    }
}

/// The number that a run of digits below `m` spells is below `m` to their count.
pub proof fn lemma_digits_value_bound(digits: Seq<u64>, m: nat)
    requires
        digits_below(digits, m),
    ensures
        digits_value(digits, m) < power(m, digits.len()),
    decreases digits.len(),
{
    if digits.len() > 0 {
        let front = digits.drop_last();
        lemma_digits_value_bound(front, m);
        assert(digits_value(front, m) * m + (digits.last() as nat) < m * power(m, front.len()))
            by (nonlinear_arith)
            requires
                digits_value(front, m) < power(m, front.len()),
                (digits.last() as nat) < m,
        ;
    }
}

/// Spelling a run of digits below `m` as a number and taking the number's digits
/// gives the run back.
pub proof fn lemma_digits_roundtrip(digits: Seq<u64>, m: nat)
    requires
        digits_below(digits, m),
    ensures
        value_digits(digits_value(digits, m), m, digits.len()) == digits,
    decreases digits.len(),
{
    let k = digits.len();
    let v = digits_value(digits, m);
    if k > 0 {
        let front = digits.drop_last();
        let high = digits_value(front, m);
        lemma_digits_roundtrip(front, m);
        lemma_fundamental_div_mod_converse(v as int, m as int, high as int, digits.last() as int);
        assert forall|i: int| 0 <= i < k implies #[trigger] value_digits(v, m, k)[i]
            == digits[i] by {
            if i < k - 1 {
                let p = power(m, (k - 2 - i) as nat);
                lemma_power_positive(m, (k - 2 - i) as nat);
                lemma_div_denominator(v as int, m as int, p as int);
                assert(value_digits(high, m, (k - 1) as nat)[i] == front[i]);
            } else {
                assert(v / 1 == v);
            }
        }
    }
    assert(value_digits(v, m, k) =~= digits);
}

/// The width of a value itself: what a fixed-width packing of values below
/// `max_value` spends on each.
pub fn naive_bits(max_value: u64) -> (bits: u8)
    requires
        max_value >= 1,
    ensures
        bits == bit_width((max_value - 1) as nat),
{
    proof {
        lemma_leading_zeros_width((max_value - 1) as u64);
    }
    (64 - (max_value - 1).leading_zeros()) as u8
}

/// The best bundle size for values below `max_value`, and the width of such a bundle.
pub fn find_optimal_bundle(max_value: u64) -> (best: (u8, u8))
    requires
        max_value >= 1,
    ensures
        is_optimal_bundle(max_value as nat, best.0 as nat),
        best.1 == bundle_bits(max_value as nat, best.0 as nat),
        best.1 <= 64,
{
    let ghost m = max_value as nat;
    let mut best_k: u8 = 1;
    let mut best_bits: u8 = naive_bits(max_value);
    let mut bundle: u64 = max_value;
    let mut k: u8 = 1;
    let mut fits = true;
    proof {
        assert(power(m, 1) == m) by {
            assert(power(m, 0) == 1);
            assert(m * 1 == m);
        }
        lemma_leading_zeros_width((max_value - 1) as u64);
    }
    while fits && k < MAX_BUNDLE_SIZE
        invariant
            m == max_value >= 1,
            1 <= best_k <= k <= MAX_BUNDLE_SIZE,
            fits ==> bundle == power(m, k as nat),
            !fits ==> !bundle_fits(m, (k + 1) as nat),
            bundle_fits(m, best_k as nat),
            best_bits == bundle_bits(m, best_k as nat),
            best_bits <= 64,
            forall|j: nat| 1 <= j <= k && bundle_fits(m, j) ==> no_worse(m, best_k as nat, j),
        decreases
                (if fits {
                    1int
                } else {
                    0int
                }),
                MAX_BUNDLE_SIZE - k,
    {
        match bundle.checked_mul(max_value) {
            Some(next) => {
                proof {
                    assert(bundle * max_value == max_value * bundle) by (nonlinear_arith);
                    lemma_power_positive(m, (k + 1) as nat);
                    lemma_leading_zeros_width((next - 1) as u64);
                }
                bundle = next;
                k += 1;
                let bits_needed: u8 = (64 - (bundle - 1).leading_zeros()) as u8;
                let ghost previous = best_k as nat;
                proof {
                    assert(bits_needed * best_k <= 255 * 40) by (nonlinear_arith)
                        requires
                            bits_needed <= 255,
                            best_k <= 40,
                    ;
                    assert(best_bits * k <= 255 * 40) by (nonlinear_arith)
                        requires
                            best_bits <= 255,
                            k <= 40,
                    ;
                }
                if (bits_needed as u32) * (best_k as u32) < (best_bits as u32) * (k as u32) {
                    proof {
                        assert forall|j: nat| 1 <= j <= k && bundle_fits(m, j) implies no_worse(
                            m,
                            k as nat,
                            j,
                        ) by {
                            if j < k {
                                lemma_ratio_chain(
                                    bits_needed as nat,
                                    k as nat,
                                    bundle_bits(m, previous),
                                    previous,
                                    bundle_bits(m, j),
                                    j,
                                );
                            }
                        }
                    }
                    best_k = k;
                    best_bits = bits_needed;
                }
            },
            None => {
                proof {
                    assert(bundle * max_value == max_value * bundle) by (nonlinear_arith);
                }
                fits = false;
            },
        }
    }
    proof {
        assert forall|j: nat| 1 <= j <= MAX_BUNDLE_SIZE && bundle_fits(m, j) implies no_worse(
            m,
            best_k as nat,
            j,
        ) by {
            if j > k {
                lemma_power_increases(m, (k + 1) as nat, j);
            }
        }
    }
    (best_k, best_bits)
}

/// A ratio strictly below a second one, which is not above a third, is strictly
/// below the third.
proof fn lemma_ratio_chain(b1: nat, k1: nat, b2: nat, k2: nat, b3: nat, k3: nat)
    requires
        k1 >= 1,
        k2 >= 1,
        k3 >= 1,
        b1 * k2 < b2 * k1,
        b2 * k3 <= b3 * k2,
    ensures
        b1 * k3 < b3 * k1,
{
    assert(b1 * k3 < b3 * k1) by (nonlinear_arith)
        requires
            k1 >= 1,
            k2 >= 1,
            k3 >= 1,
            b1 * k2 < b2 * k1,
            b2 * k3 <= b3 * k2,
    {
        assert((b1 * k2) * k3 < (b2 * k1) * k3);
        assert((b2 * k3) * k1 <= (b3 * k2) * k1);
        assert((b1 * k3) * k2 < (b3 * k1) * k2);
    }
}

/// The best bundle size for values below `max_value`.
pub fn find_optimal_bundle_size(max_value: u64) -> (bundle_size: u8)
    requires
        max_value >= 1,
    ensures
        is_optimal_bundle(max_value as nat, bundle_size as nat),
{
    let (bundle_size, _) = find_optimal_bundle(max_value);
    bundle_size
}

/// The width of a bundle of the best size for values below `max_value`.
pub fn find_optimal_bits_per_bundle(max_value: u64) -> (bits_per_bundle: u8)
    requires
        max_value >= 1,
    ensures
        bits_per_bundle <= 64,
        exists|k: nat|
            is_optimal_bundle(max_value as nat, k) && bits_per_bundle == bundle_bits(
                max_value as nat,
                k,
            ),
{
    let (_, bits_per_bundle) = find_optimal_bundle(max_value);
    bits_per_bundle
}

/// The width of a bundle of `bundle_size` values below `max_value`.
pub fn bits_for_bundle(max_value: u64, bundle_size: u8) -> (bits: u8)
    requires
        max_value >= 1,
        bundle_fits(max_value as nat, bundle_size as nat),
    ensures
        bits == bundle_bits(max_value as nat, bundle_size as nat),
        bits <= 64,
{
    let ghost m = max_value as nat;
    let mut bundle: u64 = 1;
    let mut i: u8 = 0;
    while i < bundle_size
        invariant
            i <= bundle_size,
            m == max_value >= 1,
            bundle_fits(m, bundle_size as nat),
            bundle == power(m, i as nat),
        decreases bundle_size - i,
    {
        proof {
            lemma_power_increases(m, (i + 1) as nat, bundle_size as nat);
            assert(bundle * max_value == max_value * bundle) by (nonlinear_arith);
        }
        bundle = bundle * max_value;
        i += 1;
    }
    proof {
        lemma_power_positive(m, bundle_size as nat);
        lemma_leading_zeros_width((bundle - 1) as u64);
    }
    (64 - (bundle - 1).leading_zeros()) as u8
}

/// Packs a run of values below `max_value` into one bundle.
pub fn encode(bundle_size: u8, max_value: u64, values: &[u64]) -> (bundle: u64)
    requires
        values@.len() == bundle_size,
        digits_below(values@, max_value as nat),
        bundle_fits(max_value as nat, bundle_size as nat),
    ensures
        bundle == digits_value(values@, max_value as nat),
        bundle < power(max_value as nat, bundle_size as nat),
{
    let ghost m = max_value as nat;
    let mut bundle: u64 = 0;
    let mut i: usize = 0;
    while i < values.len()
        invariant
            i <= values@.len() == bundle_size,
            m == max_value,
            digits_below(values@, m),
            bundle_fits(m, bundle_size as nat),
            bundle == digits_value(values@.take(i as int), m),
        decreases values@.len() - i,
    {
        proof {
            let seen = values@.take(i + 1);
            assert(seen.drop_last() =~= values@.take(i as int));
            assert(digits_below(seen, m));
            lemma_digits_value_bound(seen, m);
            lemma_power_increases(m, (i + 1) as nat, bundle_size as nat);
        }
        bundle = bundle * max_value + values[i];
        i += 1;
    }
    proof {
        assert(values@.take(values@.len() as int) =~= values@);
        lemma_digits_value_bound(values@, m);
    }
    bundle
}

/// Unpacks the `bundle_size` low digits of a bundle in base `max_value`.
pub fn decode(bundle_size: u8, max_value: u64, bundle: u64) -> (values: Vec<u64>)
    requires
        max_value >= 1,
    ensures
        values@ == value_digits(bundle as nat, max_value as nat, bundle_size as nat),
{
    let ghost m = max_value as nat;
    let ghost k = bundle_size as nat;
    let ghost whole = bundle as nat;
    let mut values: Vec<u64> = Vec::new();
    let mut n: usize = 0;
    while n < bundle_size as usize
        invariant
            n <= bundle_size,
            values@.len() == n,
        decreases bundle_size - n,
    {
        values.push(0);
        n += 1;
    }
    let mut rest = bundle;
    let mut i: usize = bundle_size as usize;
    proof {
        assert(whole / 1 == whole);
    }
    while i > 0
        invariant
            i <= k == bundle_size,
            m == max_value >= 1,
            values@.len() == k,
            rest == whole / power(m, (k - i) as nat),
            forall|j: int| i <= j < k ==> #[trigger] values@[j] == value_digits(whole, m, k)[j],
        decreases i,
    {
        i -= 1;
        proof {
            let p = power(m, (k - 1 - i) as nat);
            lemma_power_positive(m, (k - 1 - i) as nat);
            lemma_div_denominator(whole as int, p as int, m as int);
            assert(p * m == m * p) by (nonlinear_arith);
        }
        values.set(i, rest % max_value);
        rest = rest / max_value;
    }
    proof {
        assert(values@ =~= value_digits(whole, m, k));
    }
    values
}

/// Appends a bundle with exactly `bits_per_bundle` bits.
pub fn write_bundle(packer: &mut BitPacker, bits_per_bundle: u8, bundle: u64)
    requires
        old(packer).wf(),
        bits_per_bundle <= 64,
    ensures
        final(packer).wf(),
        final(packer)@ == old(packer)@ + value_bits(bundle as nat, bits_per_bundle as nat),
{
    let bytes = le_bytes(bundle);
    packer.write_bytes_width(bytes.as_slice(), bits_per_bundle);
}

/// Reads a bundle of `bits_per_bundle` bits.
pub fn read_bundle(unpacker: &mut BitUnpacker, bits_per_bundle: u8) -> (bundle: Option<u64>)
    requires
        bits_per_bundle <= 64,
    ensures
        final(unpacker).stream() == old(unpacker).stream(),
        match bundle {
            Some(v) => {
                &&& old(unpacker).position() + bits_per_bundle <= old(unpacker).stream().len()
                &&& v == old(unpacker).next_value(bits_per_bundle as nat)
                &&& final(unpacker).position() == old(unpacker).position() + bits_per_bundle
            },
            None => {
                &&& old(unpacker).position() + bits_per_bundle > old(unpacker).stream().len()
                &&& final(unpacker).position() == old(unpacker).position()
            },
        },
{
    unpacker.read_bytes_width(bits_per_bundle)
}

/// The width of a bundle is the least number of bits that holds every bundle of
/// its size: `2^width` is at least `m^k`, and `2^(width - 1)` is less.
pub proof fn lemma_bundle_bits_tight(m: nat, k: nat)
    requires
        m >= 1,
    ensures
        power(m, k) <= pow2(bundle_bits(m, k)),
        bundle_bits(m, k) >= 1 ==> pow2((bundle_bits(m, k) - 1) as nat) < power(m, k),
{
    lemma_power_positive(m, k);
    lemma_bit_width((power(m, k) - 1) as nat);
}

/// A bundle that stands in a stream with the width of its size is read back as the
/// digits that were packed into it.
pub proof fn lemma_bundle_roundtrip(stream: Seq<bool>, pos: int, digits: Seq<u64>, m: nat)
    requires
        m >= 1,
        digits_below(digits, m),
        holds_at(
            stream,
            pos,
            value_bits(digits_value(digits, m), bundle_bits(m, digits.len())),
        ),
    ensures
        value_digits(
            bits_value(stream.subrange(pos, pos + bundle_bits(m, digits.len()))),
            m,
            digits.len(),
        ) == digits,
{
    let k = digits.len();
    let v = digits_value(digits, m);
    let w = bundle_bits(m, k);
    lemma_digits_value_bound(digits, m);
    lemma_bundle_bits_tight(m, k);
    lemma_read_back(stream, pos, v, w);
    vstd::arithmetic::div_mod::lemma_small_mod(v, pow2(w));
    lemma_digits_roundtrip(digits, m);
}

/// Among the bundle sizes up to `n`, one is the best.
proof fn lemma_best_upto(m: nat, n: nat) -> (k: nat)
    requires
        1 <= m <= u64::MAX,
        1 <= n <= MAX_BUNDLE_SIZE,
    ensures
        1 <= k <= n,
        bundle_fits(m, k),
        forall|j: nat| 1 <= j <= n && bundle_fits(m, j) ==> no_worse(m, k, j),
    decreases n,
{
    if n == 1 {
        assert(power(m, 1) == m) by {
            assert(power(m, 0) == 1);
            assert(m * 1 == m);
        }
        1
    } else {
        let previous = lemma_best_upto(m, (n - 1) as nat);
        if bundle_fits(m, n) && bundle_bits(m, n) * previous < bundle_bits(m, previous) * n {
            assert forall|j: nat| 1 <= j <= n && bundle_fits(m, j) implies no_worse(m, n, j) by {
                if j < n {
                    lemma_ratio_chain(
                        bundle_bits(m, n),
                        n,
                        bundle_bits(m, previous),
                        previous,
                        bundle_bits(m, j),
                        j,
                    );
                }
            }
            n
        } else {
            previous
        }
    }
}

/// Every alphabet size that fits a 64-bit word has a best bundle size.
pub proof fn lemma_optimal_exists(m: nat)
    requires
        1 <= m <= u64::MAX,
    ensures
        exists|k: nat| is_optimal_bundle(m, k),
{
    let k = lemma_best_upto(m, MAX_BUNDLE_SIZE as nat);
    assert(is_optimal_bundle(m, k));
}

} // verus!
