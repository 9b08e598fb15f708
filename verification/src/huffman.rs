//! A canonical, length-limited Huffman code over bytes.
//!
//! Code lengths come from symbol counts: the ideal length of a symbol is the least
//! `l` with `count * 2^l >= total`, cut off at twelve bits; lengths are then raised,
//! least probable symbol first, until the Kraft sum is at most one, and lowered,
//! most probable symbol first, while the slack allows. Codes are assigned in the
//! order of (length, byte). The Kraft sum is counted in units of `2^-12`.

use crate::bit_packer::{BitPacker, BitUnpacker};
use crate::bits::{
    bits_value, holds_at, lemma_bits_value_bound, lemma_bits_value_concat,
    lemma_value_bits_roundtrip, value_bits, window,
};
use crate::sums::{
    lemma_sum_add, lemma_sum_bound, lemma_sum_le, lemma_sum_scale, lemma_sum_take,
    lemma_sum_update, sum,
};
use vstd::arithmetic::power2::{lemma2_to64, lemma_pow2_pos, lemma_pow2_unfold, pow2};
use vstd::prelude::*;

verus! {

/// The longest code, in bits.
pub const MAX_CODE_LEN: u8 = 12;

/// The number of entries of the decode table: one for each window of twelve bits.
pub const TABLE_SIZE: usize = 4096;

/// The share of the code space that a code of `len` bits takes, in units of `2^-12`;
/// a symbol without a code takes none.
pub open spec fn unit(len: u8) -> nat {
    if 1 <= len <= 12 {
        pow2((12 - len) as nat)
    } else {
        0
    }
}

/// The shares of the code space that the codes of all symbols take.
pub open spec fn shares(lens: Seq<u8>) -> Seq<nat> {
    Seq::new(lens.len(), |i: int| unit(lens[i]))
}

/// The Kraft sum of a list of code lengths, in units of `2^-12`.
pub open spec fn kraft_units(lens: Seq<u8>) -> nat {
    sum(shares(lens))
}

/// The counts as natural numbers.
pub open spec fn count_values(counts: Seq<u64>) -> Seq<nat> {
    Seq::new(counts.len(), |i: int| counts[i] as nat)
}

/// The sum of all counts.
pub open spec fn total_count(counts: Seq<u64>) -> nat {
    sum(count_values(counts))
}

/// The least length from `len` on with `count * 2^len >= total`, and at most 12.
pub open spec fn first_fit(count: nat, total: nat, len: nat) -> nat
    decreases 12 - len,
{
    if len >= 12 || count * pow2(len) >= total {
        len
    } else {
        first_fit(count, total, len + 1)
    }
}

/// The ideal code length of a symbol: none for a symbol that does not occur, else
/// the least length from 1 to 12 with `count * 2^len >= total`.
pub open spec fn ideal_length(count: nat, total: nat) -> u8 {
    if count == 0 {
        0
    } else {
        first_fit(count, total, 1) as u8
    }
}

/// The ideal code lengths of all symbols.
pub open spec fn ideal_lengths(counts: Seq<u64>) -> Seq<u8> {
    Seq::new(counts.len(), |i: int| ideal_length(counts[i] as nat, total_count(counts)))
}

/// Symbol `t` has a code that can still grow.
pub open spec fn can_lengthen(lens: Seq<u8>, t: int) -> bool {
    0 < lens[t] < 12
}

/// Among the first `n` symbols, the least probable one whose code can still grow;
/// of several equally probable ones, the first.
pub open spec fn least_probable(counts: Seq<u64>, lens: Seq<u8>, n: nat) -> Option<int>
    decreases n,
{
    if n == 0 {
        None
    } else {
        let rest = least_probable(counts, lens, (n - 1) as nat);
        let t = n - 1;
        if can_lengthen(lens, t) && (rest.is_none() || counts[t] < counts[rest.unwrap()]) {
            Some(t)
        } else {
            rest
        }
    }
}

/// How far the codes can still grow: the sum over all symbols of what each lacks to
/// twelve bits.
pub open spec fn room(lens: Seq<u8>) -> nat {
    sum(rooms(lens))
}

/// What each symbol's code lacks to twelve bits.
pub open spec fn rooms(lens: Seq<u8>) -> Seq<nat> {
    Seq::new(
        lens.len(),
        |i: int|
            if lens[i] < 12 {
                (12 - lens[i]) as nat
            } else {
                0
            },
    )
}

/// Raises code lengths until the Kraft sum is at most one: each step adds a bit to
/// the least probable symbol whose code can still grow.
pub open spec fn lengthen(counts: Seq<u64>, lens: Seq<u8>) -> Seq<u8>
    decreases room(lens),
{
    if lens.len() != 256 || counts.len() != 256 || kraft_units(lens) <= 4096 {
        lens
    } else {
        match least_probable(counts, lens, 256) {
            None => lens,
            Some(t) => {
                proof {
                    lemma_least_probable(counts, lens, 256);
                    lemma_room_falls(lens, t);
                }
                lengthen(counts, lens.update(t, (lens[t] + 1) as u8))
            },
        }
    }
}

/// Symbol `t` has a code that can lose a bit within the slack: dropping a bit from a
/// code of `len` bits costs the share of a code of `len` bits.
pub open spec fn can_shorten(lens: Seq<u8>, slack: nat, t: int) -> bool {
    1 < lens[t] <= 12 && unit(lens[t]) <= slack
}

/// Among the first `n` symbols, the most probable one whose code can lose a bit
/// within the slack; of several equally probable ones, the first.
pub open spec fn most_probable(counts: Seq<u64>, lens: Seq<u8>, slack: nat, n: nat) -> Option<
    int,
>
    decreases n,
{
    if n == 0 {
        None
    } else {
        let rest = most_probable(counts, lens, slack, (n - 1) as nat);
        let t = n - 1;
        if can_shorten(lens, slack, t) && (rest.is_none() || counts[t] > counts[rest.unwrap()]) {
            Some(t)
        } else {
            rest
        }
    }
}

/// Lowers code lengths while the Kraft sum is below one: each step drops a bit from
/// the most probable symbol for which the slack allows it.
pub open spec fn shorten(counts: Seq<u64>, lens: Seq<u8>) -> Seq<u8>
    decreases 4096 - kraft_units(lens),
{
    if lens.len() != 256 || counts.len() != 256 || kraft_units(lens) >= 4096 {
        lens
    } else {
        let slack = (4096 - kraft_units(lens)) as nat;
        match most_probable(counts, lens, slack, 256) {
            None => lens,
            Some(t) => {
                proof {
                    lemma_most_probable(counts, lens, slack, 256);
                    lemma_kraft_shorten(lens, t);
                }
                shorten(counts, lens.update(t, (lens[t] - 1) as u8))
            },
        }
    }
}

/// The code lengths for a list of 256 counts.
pub open spec fn code_lengths(counts: Seq<u64>) -> Seq<u8> {
    shorten(counts, lengthen(counts, ideal_lengths(counts)))
}

/// A list of code lengths for 256 symbols: a symbol has a code, of at most twelve
/// bits, exactly if it occurs.
pub open spec fn lengths_match(counts: Seq<u64>, lens: Seq<u8>) -> bool {
    &&& counts.len() == 256
    &&& lens.len() == 256
    &&& forall|i: int| 0 <= i < 256 ==> #[trigger] lens[i] <= 12 && (lens[i] > 0 <==> counts[i] > 0)
}

/// One for each of the first `n` symbols whose code has `len` bits, zero for the others.
pub open spec fn len_marks(lens: Seq<u8>, len: u8, n: int) -> Seq<nat> {
    Seq::new(
        n as nat,
        |i: int|
            if lens[i] == len {
                1nat
            } else {
                0nat
            },
    )
}

/// The number of symbols among the first `n` whose code has `len` bits.
pub open spec fn count_len(lens: Seq<u8>, len: u8, n: int) -> nat {
    sum(len_marks(lens, len, n))
}

/// The first code of `len` bits: twice the sum of the first code of one bit less and
/// the number of codes of that length.
pub open spec fn first_code(lens: Seq<u8>, len: nat) -> nat
    decreases len,
{
    if len == 0 {
        0
    } else {
        2 * (first_code(lens, (len - 1) as nat) + if len == 1 {
            0
        } else {
            count_len(lens, (len - 1) as u8, 256)
        })
    }
}

/// The code of symbol `s`: the first code of its length, plus the number of symbols
/// before it that have the same length.
pub open spec fn canonical_code(lens: Seq<u8>, s: int) -> nat {
    first_code(lens, lens[s] as nat) + count_len(lens, lens[s], s)
}

/// The bits of the code of symbol `s`, most significant first; none for a symbol
/// without a code.
pub open spec fn code_bits(lens: Seq<u8>, s: int) -> Seq<bool> {
    value_bits(canonical_code(lens, s), lens[s] as nat)
}

/// The window `w` of twelve bits starts with the code of symbol `s`.
pub open spec fn covers(lens: Seq<u8>, s: int, w: int) -> bool {
    &&& 0 <= s < 256
    &&& 1 <= lens[s] <= 12
    &&& canonical_code(lens, s) * unit(lens[s]) <= w < (canonical_code(lens, s) + 1) * unit(
        lens[s],
    )
}

/// Some symbol's code starts the window `w`.
pub open spec fn covered(lens: Seq<u8>, w: int) -> bool {
    exists|s: int| covers(lens, s, w)
}

/// The symbol whose code starts the window `w`.
pub open spec fn covering(lens: Seq<u8>, w: int) -> int {
    choose|s: int| covers(lens, s, w)
}

/// The shares of the codes shorter than `len`, zero for the other symbols.
pub open spec fn shares_below(lens: Seq<u8>, len: nat) -> Seq<nat> {
    Seq::new(
        256,
        |i: int|
            if 0 < lens[i] < len {
                unit(lens[i])
            } else {
                0
            },
    )
}

/// The sum of the shares of all codes shorter than `len`.
pub open spec fn units_below(lens: Seq<u8>, len: nat) -> nat {
    sum(shares_below(lens, len))
}

/// The powers of two up to `2^12`.
pub proof fn lemma_unit_values()
    ensures
        unit(0) == 0,
        unit(1) == 2048,
        unit(2) == 1024,
        unit(3) == 512,
        unit(4) == 256,
        unit(5) == 128,
        unit(6) == 64,
        unit(7) == 32,
        unit(8) == 16,
        unit(9) == 8,
        unit(10) == 4,
        unit(11) == 2,
        unit(12) == 1,
        forall|len: u8| len > 12 ==> unit(len) == 0,
        forall|len: u8| 1 <= len <= 12 ==> 1 <= #[trigger] unit(len) <= 2048,
{
    lemma2_to64();
    assert forall|len: u8| 1 <= len <= 12 implies 1 <= #[trigger] unit(len) <= 2048 by {
        assert(len == 1 || len == 2 || len == 3 || len == 4 || len == 5 || len == 6 || len == 7
            || len == 8 || len == 9 || len == 10 || len == 11 || len == 12);
    }
}

/// A symbol picked to grow is one of the first `n`, its code can grow, and no
/// symbol before it is as improbable, none at all less probable.
pub proof fn lemma_least_probable(counts: Seq<u64>, lens: Seq<u8>, n: nat)
    ensures
        match least_probable(counts, lens, n) {
            Some(t) => {
                &&& 0 <= t < n
                &&& can_lengthen(lens, t)
                &&& forall|i: int|
                    0 <= i < n && can_lengthen(lens, i) ==> counts[t] < counts[i] || (counts[t]
                        == counts[i] && t <= i)
            },
            None => forall|i: int| 0 <= i < n ==> !can_lengthen(lens, i),
        },
    decreases n,
{
    if n > 0 {
        lemma_least_probable(counts, lens, (n - 1) as nat);
    }
}

/// A symbol picked to shrink is one of the first `n`, its code can lose a bit within
/// the slack, and no symbol before it is as probable, none at all more probable.
pub proof fn lemma_most_probable(counts: Seq<u64>, lens: Seq<u8>, slack: nat, n: nat)
    ensures
        match most_probable(counts, lens, slack, n) {
            Some(t) => {
                &&& 0 <= t < n
                &&& can_shorten(lens, slack, t)
                &&& forall|i: int|
                    0 <= i < n && can_shorten(lens, slack, i) ==> counts[t] > counts[i] || (
                    counts[t] == counts[i] && t <= i)
            },
            None => forall|i: int| 0 <= i < n ==> !can_shorten(lens, slack, i),
        },
    decreases n,
{
    if n > 0 {
        lemma_most_probable(counts, lens, slack, (n - 1) as nat);
    }
}

/// Adding a bit to a code that can grow takes one from the room.
pub proof fn lemma_room_falls(lens: Seq<u8>, t: int)
    requires
        0 <= t < lens.len(),
        can_lengthen(lens, t),
    ensures
        room(lens.update(t, (lens[t] + 1) as u8)) + 1 == room(lens),
{
    let grown = lens.update(t, (lens[t] + 1) as u8);
    let before = rooms(lens);
    let after = rooms(grown);
    assert(after =~= before.update(t, (11 - lens[t]) as nat));
    lemma_sum_update(before, t, (11 - lens[t]) as nat);
}

/// Dropping a bit from a code adds the code's share to the Kraft sum.
pub proof fn lemma_kraft_shorten(lens: Seq<u8>, t: int)
    requires
        0 <= t < lens.len(),
        1 < lens[t] <= 12,
    ensures
        kraft_units(lens.update(t, (lens[t] - 1) as u8)) == kraft_units(lens) + unit(lens[t]),
        unit(lens[t]) >= 1,
{
    let cut = lens.update(t, (lens[t] - 1) as u8);
    let before = shares(lens);
    let after = shares(cut);
    assert(after =~= before.update(t, unit((lens[t] - 1) as u8)));
    lemma_sum_update(before, t, unit((lens[t] - 1) as u8));
    lemma_pow2_unfold((13 - lens[t]) as nat);
    lemma_pow2_pos((12 - lens[t]) as nat);
}

/// The first fit from a length on is no shorter than that length and at most 12.
pub proof fn lemma_first_fit(count: nat, total: nat, len: nat)
    requires
        len <= 12,
    ensures
        len <= first_fit(count, total, len) <= 12,
    decreases 12 - len,
{
    if !(len >= 12 || count * pow2(len) >= total) {
        lemma_first_fit(count, total, len + 1);
    }
}

/// The ideal lengths give a code of at most twelve bits to exactly the symbols that occur.
pub proof fn lemma_ideal_lengths(counts: Seq<u64>)
    requires
        counts.len() == 256,
    ensures
        lengths_match(counts, ideal_lengths(counts)),
{
    let lens = ideal_lengths(counts);
    assert forall|i: int| 0 <= i < 256 implies #[trigger] lens[i] <= 12 && (lens[i] > 0
        <==> counts[i] > 0) by {
        lemma_first_fit(counts[i] as nat, total_count(counts), 1);
    }
}

/// Raising the lengths keeps them matched to the counts and ends with a Kraft sum
/// of at most one.
pub proof fn lemma_lengthen(counts: Seq<u64>, lens: Seq<u8>)
    requires
        lengths_match(counts, lens),
    ensures
        lengths_match(counts, lengthen(counts, lens)),
        kraft_units(lengthen(counts, lens)) <= 4096,
    decreases room(lens),
{
    if kraft_units(lens) > 4096 {
        lemma_least_probable(counts, lens, 256);
        match least_probable(counts, lens, 256) {
            None => {
                lemma_unit_values();
                let all = shares(lens);
                assert forall|i: int| 0 <= i < all.len() implies all[i] <= 1 by {
                    assert(!can_lengthen(lens, i));
                    assert(lens[i] <= 12);
                }
                lemma_sum_bound(all, 1);
            },
            Some(t) => {
                let grown = lens.update(t, (lens[t] + 1) as u8);
                lemma_room_falls(lens, t);
                assert forall|i: int| 0 <= i < 256 implies #[trigger] grown[i] <= 12 && (grown[i]
                    > 0 <==> counts[i] > 0) by {
                    assert(lens[i] <= 12);
                }
                lemma_lengthen(counts, grown);
            },
        }
    }
}

/// Lowering the lengths keeps them matched to the counts and the Kraft sum at most one.
pub proof fn lemma_shorten(counts: Seq<u64>, lens: Seq<u8>)
    requires
        lengths_match(counts, lens),
        kraft_units(lens) <= 4096,
    ensures
        lengths_match(counts, shorten(counts, lens)),
        kraft_units(shorten(counts, lens)) <= 4096,
    decreases 4096 - kraft_units(lens),
{
    if kraft_units(lens) < 4096 {
        let slack = (4096 - kraft_units(lens)) as nat;
        lemma_most_probable(counts, lens, slack, 256);
        match most_probable(counts, lens, slack, 256) {
            None => {},
            Some(t) => {
                let cut = lens.update(t, (lens[t] - 1) as u8);
                lemma_kraft_shorten(lens, t);
                assert forall|i: int| 0 <= i < 256 implies #[trigger] cut[i] <= 12 && (cut[i] > 0
                    <==> counts[i] > 0) by {
                    assert(lens[i] <= 12);
                }
                lemma_shorten(counts, cut);
            },
        }
    }
}

/// The code lengths for any counts satisfy the Kraft inequality, none is above
/// twelve bits, and exactly the symbols that occur have a code.
pub proof fn lemma_code_lengths(counts: Seq<u64>)
    requires
        counts.len() == 256,
    ensures
        lengths_match(counts, code_lengths(counts)),
        kraft_units(code_lengths(counts)) <= 4096,
{
    lemma_ideal_lengths(counts);
    lemma_lengthen(counts, ideal_lengths(counts));
    lemma_shorten(counts, lengthen(counts, ideal_lengths(counts)));
}

/// Counting one symbol more.
pub proof fn lemma_count_step(lens: Seq<u8>, len: u8, n: int)
    requires
        0 <= n,
    ensures
        count_len(lens, len, n + 1) == count_len(lens, len, n) + if lens[n] == len {
            1nat
        } else {
            0nat
        },
        count_len(lens, len, n) <= n,
    decreases n,
{
    let longer = len_marks(lens, len, n + 1);
    let shorter = len_marks(lens, len, n);
    assert(longer.drop_last() =~= shorter);
    lemma_sum_bound(shorter, 1);
}

/// A count over more symbols is no smaller.
pub proof fn lemma_count_increases(lens: Seq<u8>, len: u8, n: int, m: int)
    requires
        0 <= n <= m,
    ensures
        count_len(lens, len, n) <= count_len(lens, len, m),
    decreases m - n,
{
    if n < m {
        lemma_count_step(lens, len, n);
        lemma_count_increases(lens, len, n + 1, m);
    }
}

/// The shares of the codes shorter than `len + 1` are those of the codes shorter than
/// `len` and those of the codes of `len` bits.
pub proof fn lemma_units_split(lens: Seq<u8>, len: u8)
    requires
        1 <= len <= 12,
    ensures
        units_below(lens, (len + 1) as nat) == units_below(lens, len as nat) + count_len(
            lens,
            len,
            256,
        ) * unit(len),
{
    let below = shares_below(lens, len as nat);
    let here = Seq::new(
        256,
        |i: int|
            if lens[i] == len {
                unit(len)
            } else {
                0
            },
    );
    let both = shares_below(lens, (len + 1) as nat);
    let ones = len_marks(lens, len, 256);
    lemma_sum_add(below, here, both);
    assert forall|i: int| 0 <= i < 256 implies here[i] == unit(len) * ones[i] by {
        assert(unit(len) * 1 == unit(len));
        assert(unit(len) * 0 == 0);
    }
    lemma_sum_scale(ones, here, unit(len));
    assert(unit(len) * sum(ones) == sum(ones) * unit(len)) by (nonlinear_arith);
}

/// The shares of the codes shorter than a length are no more than those of the
/// codes shorter than a greater length, and no more than the Kraft sum.
pub proof fn lemma_units_increase(lens: Seq<u8>, len: nat, longer: nat)
    requires
        lens.len() == 256,
        len <= longer,
    ensures
        units_below(lens, len) <= units_below(lens, longer) <= kraft_units(lens),
{
    let a = shares_below(lens, len);
    let b = shares_below(lens, longer);
    let c = shares(lens);
    lemma_sum_le(a, b);
    lemma_sum_le(b, c);
}

/// The first code of a length, moved up to twelve bits, stands where the shares of
/// all shorter codes end.
pub proof fn lemma_first_code_units(lens: Seq<u8>, len: nat)
    requires
        len <= 12,
    ensures
        first_code(lens, len) * pow2((12 - len) as nat) == units_below(lens, len),
    decreases len,
{
    lemma_unit_values();
    if len == 0 {
        let none = shares_below(lens, 0);
        lemma_sum_bound(none, 0);
        assert(0 * pow2(12) == 0);
    } else {
        let shorter = (len - 1) as nat;
        lemma_first_code_units(lens, shorter);
        lemma_pow2_unfold((12 - shorter) as nat);
        let p = pow2((12 - len) as nat);
        let f = first_code(lens, shorter);
        if len == 1 {
            let none = shares_below(lens, 0);
            let still_none = shares_below(lens, 1);
            assert(none =~= still_none);
            assert((2 * (f + 0)) * p == f * (2 * p)) by (nonlinear_arith);
        } else {
            let c = count_len(lens, shorter as u8, 256);
            lemma_units_split(lens, shorter as u8);
            assert((2 * (f + c)) * p == f * (2 * p) + c * (2 * p)) by (nonlinear_arith);
        }
    }
}

/// Where the code of symbol `s` starts in the code space, in units of `2^-12`.
pub open spec fn code_start(lens: Seq<u8>, s: int) -> nat {
    canonical_code(lens, s) * unit(lens[s])
}

/// The code of a symbol starts behind the shares of all shorter codes and of the
/// earlier symbols of its length, and ends within the Kraft sum.
pub proof fn lemma_code_place(lens: Seq<u8>, s: int)
    requires
        lens.len() == 256,
        0 <= s < 256,
        1 <= lens[s] <= 12,
    ensures
        code_start(lens, s) == units_below(lens, lens[s] as nat) + count_len(lens, lens[s], s)
            * unit(lens[s]),
        code_start(lens, s) + unit(lens[s]) <= units_below(lens, (lens[s] + 1) as nat),
        code_start(lens, s) + unit(lens[s]) <= kraft_units(lens),
{
    let len = lens[s];
    let u = unit(len);
    let f = first_code(lens, len as nat);
    let r = count_len(lens, len, s);
    let c = count_len(lens, len, 256);
    lemma_first_code_units(lens, len as nat);
    assert((f + r) * u == f * u + r * u) by (nonlinear_arith);
    lemma_count_step(lens, len, s);
    lemma_count_increases(lens, len, s + 1, 256);
    lemma_units_split(lens, len);
    assert(r * u + u <= c * u) by (nonlinear_arith)
        requires
            r + 1 <= c,
    ;
    lemma_units_increase(lens, (len + 1) as nat, (len + 1) as nat);
}

/// Symbol `s` comes before symbol `t` in the order of (length, byte).
pub open spec fn precedes(lens: Seq<u8>, s: int, t: int) -> bool {
    lens[s] < lens[t] || (lens[s] == lens[t] && s < t)
}

/// The code of a symbol ends where that of a later symbol starts, or before.
pub proof fn lemma_code_order(lens: Seq<u8>, s: int, t: int)
    requires
        lens.len() == 256,
        0 <= s < 256,
        0 <= t < 256,
        1 <= lens[s] <= 12,
        1 <= lens[t] <= 12,
        precedes(lens, s, t),
    ensures
        code_start(lens, s) + unit(lens[s]) <= code_start(lens, t),
{
    lemma_code_place(lens, s);
    lemma_code_place(lens, t);
    if lens[s] < lens[t] {
        lemma_units_increase(lens, (lens[s] + 1) as nat, lens[t] as nat);
    } else {
        let len = lens[s];
        let u = unit(len);
        let rs = count_len(lens, len, s);
        let rt = count_len(lens, len, t);
        lemma_count_step(lens, len, s);
        lemma_count_increases(lens, len, s + 1, t);
        assert(rs * u + u <= rt * u) by (nonlinear_arith)
            requires
                rs + 1 <= rt,
        ;
    }
}

/// No window of twelve bits starts with the codes of two symbols.
pub proof fn lemma_covers_unique(lens: Seq<u8>, s: int, t: int, w: int)
    requires
        lens.len() == 256,
        covers(lens, s, w),
        covers(lens, t, w),
    ensures
        s == t,
{
    assert((canonical_code(lens, s) + 1) * unit(lens[s]) == code_start(lens, s) + unit(lens[s]))
        by (nonlinear_arith);
    assert((canonical_code(lens, t) + 1) * unit(lens[t]) == code_start(lens, t) + unit(lens[t]))
        by (nonlinear_arith);
    if s != t {
        if precedes(lens, s, t) {
            lemma_code_order(lens, s, t);
        } else {
            lemma_code_order(lens, t, s);
        }
    }
}

/// Under the Kraft inequality a code fits its length, and its windows are among the
/// 4096 of the decode table.
pub proof fn lemma_code_fits(lens: Seq<u8>, s: int)
    requires
        lens.len() == 256,
        kraft_units(lens) <= 4096,
        0 <= s < 256,
        1 <= lens[s] <= 12,
    ensures
        canonical_code(lens, s) < pow2(lens[s] as nat),
        (canonical_code(lens, s) + 1) * unit(lens[s]) <= 4096,
{
    lemma_code_place(lens, s);
    let c = canonical_code(lens, s);
    let u = unit(lens[s]);
    let p = pow2(lens[s] as nat);
    assert((c + 1) * u == c * u + u) by (nonlinear_arith);
    vstd::arithmetic::power2::lemma_pow2_adds(lens[s] as nat, (12 - lens[s]) as nat);
    lemma2_to64();
    lemma_pow2_pos((12 - lens[s]) as nat);
    assert(c < p) by (nonlinear_arith)
        requires
            (c + 1) * u <= p * u,
            u > 0,
    ;
}

/// The share of the code space that a code of `len` bits takes.
fn share(len: u8) -> (units: u64)
    ensures
        units == unit(len),
        units <= 2048,
{
    proof {
        lemma_unit_values();
    }
    if 1 <= len && len <= 12 {
        proof {
            vstd::bits::lemma_u64_shl_is_mul(1, (12 - len) as u64);
        }
        1u64 << (12 - len)
    } else {
        0
    }
}

/// The Kraft sum of a list of code lengths, in units of `2^-12`.
pub fn kraft_sum(lengths: &[u8; 256]) -> (units: u64)
    ensures
        units == kraft_units(lengths@),
{
    let mut units: u64 = 0;
    let mut i: usize = 0;
    while i < 256
        invariant
            i <= 256,
            units == sum(shares(lengths@).take(i as int)),
            units <= 2048 * i,
        decreases 256 - i,
    {
        proof {
            lemma_sum_take(shares(lengths@), i as int);
        }
        units = units + share(lengths[i]);
        i += 1;
    }
    proof {
        assert(shares(lengths@).take(256) =~= shares(lengths@));
    }
    units
}

/// The sum of all counts.
fn sum_counts(counts: &[u64; 256]) -> (total: u128)
    ensures
        total == total_count(counts@),
{
    let mut total: u128 = 0;
    let mut i: usize = 0;
    while i < 256
        invariant
            i <= 256,
            total == sum(count_values(counts@).take(i as int)),
            total <= 0xffff_ffff_ffff_ffff * i,
        decreases 256 - i,
    {
        proof {
            lemma_sum_take(count_values(counts@), i as int);
        }
        total = total + counts[i] as u128;
        i += 1;
    }
    proof {
        assert(count_values(counts@).take(256) =~= count_values(counts@));
    }
    total
}

/// The ideal code length of a symbol that occurs `count` times among `total`.
fn ideal_code_length(count: u64, total: u128) -> (len: u8)
    ensures
        len == ideal_length(count as nat, total as nat),
{
    if count == 0 {
        return 0;
    }
    let mut len: u8 = 1;
    let mut scaled: u128 = count as u128 * 2;
    proof {
        lemma2_to64();
        lemma_first_fit(count as nat, total as nat, 1);
    }
    while len < 12 && scaled < total
        invariant
            1 <= len <= 12,
            scaled == count * pow2(len as nat),
            scaled <= 0xffff_ffff_ffff_ffff * pow2(len as nat),
            pow2(len as nat) <= 4096,
            first_fit(count as nat, total as nat, len as nat) == first_fit(
                count as nat,
                total as nat,
                1,
            ),
        decreases 12 - len,
    {
        proof {
            lemma2_to64();
            lemma_pow2_unfold((len + 1) as nat);
            vstd::arithmetic::power2::lemma_pow2_strictly_increases(len as nat, 12);
            assert(count * (2 * pow2(len as nat)) == 2 * (count * pow2(len as nat)))
                by (nonlinear_arith);
            if len + 1 < 12 {
                vstd::arithmetic::power2::lemma_pow2_strictly_increases((len + 1) as nat, 12);
            }
        }
        scaled = scaled * 2;
        len += 1;
    }
    len
}

/// The least probable symbol whose code can still grow; of several, the first.
fn pick_least_probable(counts: &[u64; 256], lengths: &[u8; 256]) -> (picked: Option<usize>)
    ensures
        match picked {
            Some(t) => least_probable(counts@, lengths@, 256) == Some(t as int),
            None => least_probable(counts@, lengths@, 256).is_none(),
        },
{
    let mut best: Option<usize> = None;
    let mut i: usize = 0;
    while i < 256
        invariant
            i <= 256,
            match best {
                Some(t) => t < 256 && least_probable(counts@, lengths@, i as nat) == Some(t as int),
                None => least_probable(counts@, lengths@, i as nat).is_none(),
            },
        decreases 256 - i,
    {
        let len = lengths[i];
        if 0 < len && len < 12 {
            match best {
                Some(t) => {
                    if counts[i] < counts[t] {
                        best = Some(i);
                    }
                },
                None => {
                    best = Some(i);
                },
            }
        }
        i += 1;
    }
    best
}

/// The most probable symbol whose code can lose a bit within the slack; of several,
/// the first.
fn pick_most_probable(counts: &[u64; 256], lengths: &[u8; 256], slack: u64) -> (picked: Option<
    usize,
>)
    ensures
        match picked {
            Some(t) => most_probable(counts@, lengths@, slack as nat, 256) == Some(t as int),
            None => most_probable(counts@, lengths@, slack as nat, 256).is_none(),
        },
{
    let mut best: Option<usize> = None;
    let mut i: usize = 0;
    while i < 256
        invariant
            i <= 256,
            match best {
                Some(t) => t < 256 && most_probable(counts@, lengths@, slack as nat, i as nat)
                    == Some(t as int),
                None => most_probable(counts@, lengths@, slack as nat, i as nat).is_none(),
            },
        decreases 256 - i,
    {
        let len = lengths[i];
        if 1 < len && len <= 12 && share(len) <= slack {
            match best {
                Some(t) => {
                    if counts[i] > counts[t] {
                        best = Some(i);
                    }
                },
                None => {
                    best = Some(i);
                },
            }
        }
        i += 1;
    }
    best
}

/// The first code of a length is small enough for what is added to it.
pub proof fn lemma_first_code_bound(lens: Seq<u8>, len: nat)
    requires
        len <= 12,
    ensures
        first_code(lens, len) + 512 <= 512 * pow2(len),
    decreases len,
{
    lemma2_to64();
    if len > 0 {
        lemma_first_code_bound(lens, (len - 1) as nat);
        lemma_pow2_unfold(len);
        lemma_count_step(lens, (len - 1) as u8, 256);
    }
}

/// Some symbol among the first `n` has a code that starts the window `w`.
pub open spec fn covered_by_first(lens: Seq<u8>, n: int, w: int) -> bool {
    exists|s: int| s < n && covers(lens, s, w)
}

/// Reads one symbol at `pos`: looks up the window of twelve bits that starts there,
/// with zeros past the end of the stream. The symbol whose code starts the window is
/// read if the stream holds the whole code; `None` where no code starts the window
/// or the stream ends inside the code.
pub open spec fn symbol_parse(lens: Seq<u8>, stream: Seq<bool>, pos: int) -> Option<(u8, int)> {
    let w = bits_value(window(stream, pos, 12)) as int;
    if covered(lens, w) {
        let s = covering(lens, w);
        if pos + lens[s] <= stream.len() {
            Some((s as u8, pos + lens[s]))
        } else {
            None
        }
    } else {
        None
    }
}

/// Reads `n` symbols from `pos` on: the symbols and the position behind them, or
/// `None` where one of them cannot be read.
pub open spec fn symbols_parse(lens: Seq<u8>, stream: Seq<bool>, pos: int, n: nat) -> Option<
    (Seq<u8>, int),
>
    decreases n,
{
    if n == 0 {
        Some((Seq::<u8>::empty(), pos))
    } else {
        match symbols_parse(lens, stream, pos, (n - 1) as nat) {
            Some((front, mid)) => match symbol_parse(lens, stream, mid) {
                Some((symbol, next)) => Some((front.push(symbol), next)),
                None => None,
            },
            None => None,
        }
    }
}

/// The codes of a run of symbols, one behind the other.
pub open spec fn codes_bits(lens: Seq<u8>, data: Seq<u8>) -> Seq<bool>
    decreases data.len(),
{
    if data.len() == 0 {
        Seq::<bool>::empty()
    } else {
        codes_bits(lens, data.drop_last()) + code_bits(lens, data.last() as int)
    }
}

/// How often a byte is taken to occur in configuration text: lowercase letters and
/// the space by their frequency in English, the punctuation of paths and names and
/// the brackets above the other printable characters, which all count the same, and
/// nothing else at all.
pub open spec fn common_count(byte: u8) -> u64 {
    if byte == 32 {
        // the space
        18000
    } else if byte == 101 {
        // e
        10000
    } else if byte == 116 {
        // t
        7000
    } else if byte == 97 {
        // a
        6500
    } else if byte == 111 {
        // o
        6000
    } else if byte == 105 || byte == 110 {
        // i n
        5500
    } else if byte == 115 {
        // s
        5000
    } else if byte == 104 {
        // h
        4800
    } else if byte == 114 {
        // r
        4700
    } else if byte == 100 || byte == 108 {
        // d l
        3500
    } else if byte == 99 || byte == 117 {
        // c u
        2500
    } else if byte == 109 || byte == 119 {
        // m w
        2000
    } else if byte == 102 {
        // f
        1800
    } else if byte == 103 || byte == 121 {
        // g y
        1600
    } else if byte == 112 {
        // p
        1500
    } else if byte == 98 {
        // b
        1200
    } else if byte == 118 {
        // v
        800
    } else if byte == 107 {
        // k
        600
    } else if byte == 47 || byte == 45 || byte == 95 || byte == 46 {
        // / - _ .
        400
    } else if byte == 91 || byte == 93 || byte == 123 || byte == 125
        || byte == 40 || byte == 41 || byte == 92 {
        // [ ] { } ( ) \
        300
    } else if byte == 106 || byte == 120 {
        // j x
        100
    } else if byte == 113 {
        // q
        80
    } else if byte == 122 {
        // z
        60
    } else if 32 <= byte < 127 {
        200
    } else {
        0
    }
}

/// The counts of all bytes in configuration text.
pub open spec fn common_counts() -> Seq<u64> {
    Seq::new(256, |i: int| common_count(i as u8))
}

/// A Huffman code for bytes: the code and length of each symbol, and a table that
/// maps each window of twelve bits to the symbol whose code starts it.
pub struct HuffmanTable {
    codes: [u32; 256],
    lengths: [u8; 256],
    decode_table: Vec<u8>,
    decode_lengths: Vec<u8>,
}

/// A list of code lengths that a table can be built from: one for each of the 256
/// symbols, none above twelve bits, with a Kraft sum of at most one.
pub open spec fn valid_lengths(lens: Seq<u8>) -> bool {
    &&& lens.len() == 256
    &&& forall|i: int| 0 <= i < 256 ==> #[trigger] lens[i] <= 12
    &&& kraft_units(lens) <= 4096
}

/// The decode table for a list of code lengths: a window that starts with a symbol's
/// code holds that symbol and the code's length, any other holds zero and zero.
pub open spec fn table_matches(lens: Seq<u8>, symbols: Seq<u8>, widths: Seq<u8>) -> bool {
    &&& symbols.len() == 4096
    &&& widths.len() == 4096
    &&& forall|w: int|
        0 <= w < 4096 ==> if covered(lens, w) {
            covers(lens, #[trigger] symbols[w] as int, w) && widths[w] == lens[symbols[w] as int]
        } else {
            symbols[w] == 0 && widths[w] == 0
        }
}

impl View for HuffmanTable {
    type V = Seq<u8>;

    /// The code length of each symbol; zero for a symbol without a code.
    closed spec fn view(&self) -> Seq<u8> {
        self.lengths@
    }
}

impl HuffmanTable {
    #[verifier::type_invariant]
    /// The lengths can be built from, the codes are the canonical ones, and the decode
    /// table is the one of the lengths.
    spec fn inv(self) -> bool {
        &&& valid_lengths(self.lengths@)
        &&& forall|i: int|
            0 <= i < 256 && self.lengths@[i] > 0 ==> #[trigger] self.codes@[i] == canonical_code(
                self.lengths@,
                i,
            )
        &&& table_matches(self.lengths@, self.decode_table@, self.decode_lengths@)
    }

    /// Raises code lengths until the Kraft sum is at most one: each step adds a bit
    /// to the least probable symbol whose code can still grow.
    pub fn limit_lengths(lengths: &mut [u8; 256], counts: &[u64; 256])
        ensures
            final(lengths)@ == lengthen(counts@, old(lengths)@),
    {
        let mut done = false;
        while !done
            invariant
                lengthen(counts@, lengths@) == lengthen(counts@, old(lengths)@),
                done ==> lengthen(counts@, lengths@) == lengths@,
            decreases
                    (if done {
                        0int
                    } else {
                        1int
                    }),
                    room(lengths@),
        {
            if kraft_sum(lengths) <= 4096 {
                done = true;
            } else {
                match pick_least_probable(counts, lengths) {
                    Some(t) => {
                        proof {
                            lemma_least_probable(counts@, lengths@, 256);
                            lemma_room_falls(lengths@, t as int);
                        }
                        lengths[t] = lengths[t] + 1;
                    },
                    None => {
                        done = true;
                    },
                }
            }
        }
    }

    /// Lowers code lengths while the Kraft sum is below one: each step drops a bit
    /// from the most probable symbol for which the slack allows it.
    pub fn reclaim_slack(lengths: &mut [u8; 256], counts: &[u64; 256])
        ensures
            final(lengths)@ == shorten(counts@, old(lengths)@),
    {
        let mut done = false;
        while !done
            invariant
                shorten(counts@, lengths@) == shorten(counts@, old(lengths)@),
                done ==> shorten(counts@, lengths@) == lengths@,
            decreases
                    (if done {
                        0int
                    } else {
                        1int
                    }),
                    4096 - kraft_units(lengths@),
        {
            let kraft = kraft_sum(lengths);
            if kraft >= 4096 {
                done = true;
            } else {
                match pick_most_probable(counts, lengths, 4096 - kraft) {
                    Some(t) => {
                        proof {
                            lemma_most_probable(counts@, lengths@, (4096 - kraft) as nat, 256);
                            lemma_kraft_shorten(lengths@, t as int);
                        }
                        lengths[t] = lengths[t] - 1;
                    },
                    None => {
                        done = true;
                    },
                }
            }
        }
    }

    /// Assigns the canonical codes: the symbols of each length, in the order of their
    /// bytes, get consecutive codes from the first code of that length on.
    pub fn build_codes(codes: &mut [u32; 256], lengths: &[u8; 256])
        ensures
            forall|i: int|
                0 <= i < 256 ==> #[trigger] final(codes)@[i] == if 1 <= lengths@[i] <= 12 {
                    canonical_code(lengths@, i) as u32
                } else {
                    old(codes)@[i]
                },
            forall|i: int|
                0 <= i < 256 && 1 <= lengths@[i] <= 12 ==> canonical_code(lengths@, i)
                    < 0x40_0000,
    {
        let ghost lens = lengths@;
        let mut bl_count = [0u32; 13];
        let mut sym: usize = 0;
        proof {
            assert forall|l: u8| 1 <= l <= 12 implies count_len(lens, l, 0) == 0 by {
                assert(len_marks(lens, l, 0) =~= Seq::<nat>::empty());
            }
        }
        while sym < 256
            invariant
                sym <= 256,
                lens == lengths@,
                bl_count@[0] == 0,
                forall|l: u8| 1 <= l <= 12 ==> #[trigger] bl_count@[l as int] == count_len(
                        lens,
                        l,
                        sym as int,
                    ),
            decreases 256 - sym,
        {
            let len = lengths[sym];
            proof {
                assert forall|l: u8| 1 <= l <= 12 implies count_len(lens, l, sym + 1) == count_len(
                    lens,
                    l,
                    sym as int,
                ) + if lens[sym as int] == l {
                    1nat
                } else {
                    0nat
                } && count_len(lens, l, sym as int) <= sym by {
                    lemma_count_step(lens, l, sym as int);
                }
            }
            if len > 0 && len <= MAX_CODE_LEN {
                bl_count[len as usize] = bl_count[len as usize] + 1;
            }
            sym += 1;
        }
        let mut next_code = [0u32; 13];
        let mut code: u32 = 0;
        let mut bits: usize = 1;
        proof {
            lemma2_to64();
        }
        while bits <= 12
            invariant
                1 <= bits <= 13,
                lens == lengths@,
                bl_count@[0] == 0,
                forall|l: u8| 1 <= l <= 12 ==> #[trigger] bl_count@[l as int] == count_len(
                        lens,
                        l,
                        256,
                    ),
                code == first_code(lens, (bits - 1) as nat),
                forall|l: int| 1 <= l < bits ==> #[trigger] next_code@[l] == first_code(
                        lens,
                        l as nat,
                    ),
            decreases 13 - bits,
        {
            proof {
                lemma_first_code_bound(lens, (bits - 1) as nat);
                lemma_first_code_bound(lens, bits as nat);
                lemma_count_step(lens, (bits - 1) as u8, 256);
                vstd::arithmetic::power2::lemma_pow2_strictly_increases((bits - 1) as nat, 12);
                lemma2_to64();
                if bits > 1 {
                    assert(bl_count@[((bits - 1) as u8) as int] == count_len(
                        lens,
                        (bits - 1) as u8,
                        256,
                    ));
                }
            }
            let sum = code + bl_count[bits - 1];
            proof {
                assert(sum < 0x4000_0000u32 ==> (sum << 1) == sum * 2) by (bit_vector);
            }
            code = sum << 1;
            next_code[bits] = code;
            bits += 1;
        }
        let mut sym: usize = 0;
        proof {
            assert forall|l: u8| 1 <= l <= 12 implies count_len(lens, l, 0) == 0 by {
                assert(len_marks(lens, l, 0) =~= Seq::<nat>::empty());
            }
            assert forall|i: int| 0 <= i < 256 && 1 <= lens[i] <= 12 implies canonical_code(
                lens,
                i,
            ) < 0x40_0000 by {
                lemma_first_code_bound(lens, lens[i] as nat);
                lemma_count_step(lens, lens[i], i);
                if lens[i] < 12 {
                    vstd::arithmetic::power2::lemma_pow2_strictly_increases(lens[i] as nat, 12);
                }
            }
        }
        while sym < 256
            invariant
                sym <= 256,
                lens == lengths@,
                forall|l: u8| 1 <= l <= 12 ==> #[trigger] next_code@[l as int] == first_code(
                        lens,
                        l as nat,
                    ) + count_len(lens, l, sym as int),
                forall|i: int|
                    0 <= i < 256 && 1 <= lens[i] <= 12 ==> canonical_code(lens, i) < 0x40_0000,
                forall|i: int|
                    0 <= i < 256 ==> #[trigger] codes@[i] == if i < sym && 1 <= lens[i] <= 12 {
                        canonical_code(lens, i) as u32
                    } else {
                        old(codes)@[i]
                    },
            decreases 256 - sym,
        {
            let len = lengths[sym];
            proof {
                assert forall|l: u8| 1 <= l <= 12 implies count_len(lens, l, sym + 1) == count_len(
                    lens,
                    l,
                    sym as int,
                ) + if lens[sym as int] == l {
                    1nat
                } else {
                    0nat
                } by {
                    lemma_count_step(lens, l, sym as int);
                }
                if 1 <= len <= 12 {
                    assert(next_code@[len as int] == canonical_code(lens, sym as int));
                }
            }
            if len > 0 && len <= MAX_CODE_LEN {
                codes[sym] = next_code[len as usize];
                next_code[len as usize] = next_code[len as usize] + 1;
            }
            sym += 1;
        }
    }

    /// Builds the decode table: the code of each symbol, filled up to twelve bits in
    /// every way, leads to the symbol and the code's length.
    pub fn build_table(codes: [u32; 256], lengths: [u8; 256]) -> (table: Self)
        requires
            valid_lengths(lengths@),
            forall|i: int|
                0 <= i < 256 && lengths@[i] > 0 ==> #[trigger] codes@[i] == canonical_code(
                    lengths@,
                    i,
                ),
        ensures
            table@ == lengths@,
    {
        let ghost lens = lengths@;
        let mut decode_table: Vec<u8> = Vec::new();
        let mut decode_lengths: Vec<u8> = Vec::new();
        let mut n: usize = 0;
        while n < TABLE_SIZE
            invariant
                n <= TABLE_SIZE,
                decode_table@.len() == n,
                decode_lengths@.len() == n,
                forall|w: int| 0 <= w < n ==> decode_table@[w] == 0 && decode_lengths@[w] == 0,
            decreases TABLE_SIZE - n,
        {
            decode_table.push(0);
            decode_lengths.push(0);
            n += 1;
        }
        let mut sym: usize = 0;
        while sym < 256
            invariant
                sym <= 256,
                lens == lengths@,
                valid_lengths(lens),
                forall|i: int|
                    0 <= i < 256 && lens[i] > 0 ==> #[trigger] codes@[i] == canonical_code(lens, i),
                decode_table@.len() == 4096,
                decode_lengths@.len() == 4096,
                forall|w: int|
                    0 <= w < 4096 ==> if covered_by_first(lens, sym as int, w) {
                        covers(lens, #[trigger] decode_table@[w] as int, w) && decode_lengths@[w]
                            == lens[decode_table@[w] as int]
                    } else {
                        decode_table@[w] == 0 && decode_lengths@[w] == 0
                    },
            decreases 256 - sym,
        {
            let len = lengths[sym];
            let ghost before_table = decode_table@;
            let ghost before_lengths = decode_lengths@;
            if len > 0 {
                let code = codes[sym];
                let count = share(len) as usize;
                proof {
                    lemma_code_fits(lens, sym as int);
                    lemma_unit_values();
                    assert(code * count <= 4096) by (nonlinear_arith)
                        requires
                            (code + 1) * count <= 4096,
                    ;
                    assert((code + 1) * count == code * count + count) by (nonlinear_arith);
                }
                let base = code as usize * count;
                let mut i: usize = 0;
                while i < count
                    invariant
                        i <= count,
                        base + count <= 4096,
                        decode_table@.len() == 4096,
                        decode_lengths@.len() == 4096,
                        forall|w: int|
                            0 <= w < 4096 ==> #[trigger] decode_table@[w] == if base <= w < base
                                + i {
                                sym as u8
                            } else {
                                before_table[w]
                            },
                        forall|w: int|
                            0 <= w < 4096 ==> #[trigger] decode_lengths@[w] == if base <= w < base
                                + i {
                                len
                            } else {
                                before_lengths[w]
                            },
                    decreases count - i,
                {
                    decode_table.set(base + i, sym as u8);
                    decode_lengths.set(base + i, len);
                    i += 1;
                }
            }
            proof {
                assert forall|w: int| 0 <= w < 4096 implies if covered_by_first(lens, sym + 1, w) {
                    covers(lens, #[trigger] decode_table@[w] as int, w) && decode_lengths@[w]
                        == lens[decode_table@[w] as int]
                } else {
                    decode_table@[w] == 0 && decode_lengths@[w] == 0
                } by {
                    let c = canonical_code(lens, sym as int);
                    let u = unit(lens[sym as int]);
                    assert((c + 1) * u == c * u + u) by (nonlinear_arith);
                    if covers(lens, sym as int, w) {
                        assert(covered_by_first(lens, sym + 1, w));
                    } else {
                        if covered_by_first(lens, sym + 1, w) {
                            let s = choose|s: int| s < sym + 1 && covers(lens, s, w);
                            assert(s < sym && covers(lens, s, w));
                            assert(covered_by_first(lens, sym as int, w));
                        }
                        if covered_by_first(lens, sym as int, w) {
                            let s = choose|s: int| s < sym && covers(lens, s, w);
                            assert(s < sym + 1 && covers(lens, s, w));
                        }
                        assert(decode_table@[w] == before_table[w]);
                    }
                }
            }
            sym += 1;
        }
        proof {
            assert forall|w: int| 0 <= w < 4096 implies covered(lens, w) == covered_by_first(
                lens,
                256,
                w,
            ) by {
                if covered(lens, w) {
                    let s = choose|s: int| covers(lens, s, w);
                    assert(s < 256 && covers(lens, s, w));
                }
                if covered_by_first(lens, 256, w) {
                    let s = choose|s: int| s < 256 && covers(lens, s, w);
                    assert(covers(lens, s, w));
                }
            }
        }
        HuffmanTable { codes, lengths, decode_table, decode_lengths }
    }

    /// The table for a list of counts, one for each byte.
    pub fn from_counts(counts: &[u64; 256]) -> (table: Self)
        ensures
            table@ == code_lengths(counts@),
    {
        let total = sum_counts(counts);
        let mut lengths = [0u8; 256];
        let mut i: usize = 0;
        while i < 256
            invariant
                i <= 256,
                total == total_count(counts@),
                forall|j: int| 0 <= j < i ==> #[trigger] lengths@[j] == ideal_lengths(counts@)[j],
            decreases 256 - i,
        {
            lengths[i] = ideal_code_length(counts[i], total);
            i += 1;
        }
        proof {
            assert(lengths@ =~= ideal_lengths(counts@));
            lemma_code_lengths(counts@);
        }
        Self::limit_lengths(&mut lengths, counts);
        Self::reclaim_slack(&mut lengths, counts);
        let mut codes = [0u32; 256];
        Self::build_codes(&mut codes, &lengths);
        Self::build_table(codes, lengths)
    }

    /// The table for configuration text: every printable ASCII character has a code.
    pub fn common_table() -> (table: Self)
        ensures
            table@ == code_lengths(common_counts()),
    {
        let mut counts = [0u64; 256];
        counts[32] = 18000;  // the space
        counts[101] = 10000;  // `e`
        counts[116] = 7000;  // `t`
        counts[97] = 6500;  // `a`
        counts[111] = 6000;  // `o`
        counts[105] = 5500;  // `i`
        counts[110] = 5500;  // `n`
        counts[115] = 5000;  // `s`
        counts[104] = 4800;  // `h`
        counts[114] = 4700;  // `r`
        counts[100] = 3500;  // `d`
        counts[108] = 3500;  // `l`
        counts[99] = 2500;  // `c`
        counts[117] = 2500;  // `u`
        counts[109] = 2000;  // `m`
        counts[119] = 2000;  // `w`
        counts[102] = 1800;  // `f`
        counts[103] = 1600;  // `g`
        counts[121] = 1600;  // `y`
        counts[112] = 1500;  // `p`
        counts[98] = 1200;  // `b`
        counts[118] = 800;  // `v`
        counts[107] = 600;  // `k`
        counts[47] = 400;  // `/`
        counts[45] = 400;  // `-`
        counts[95] = 400;  // `_`
        counts[46] = 400;  // `.`
        counts[91] = 300;  // `[`
        counts[93] = 300;  // `]`
        counts[123] = 300;  // `{`
        counts[125] = 300;  // `}`
        counts[40] = 300;  // `(`
        counts[41] = 300;  // `)`
        counts[92] = 300;  // `\`
        counts[106] = 100;  // `j`
        counts[120] = 100;  // `x`
        counts[113] = 80;  // `q`
        counts[122] = 60;  // `z`
        let mut i: usize = 32;
        while i < 127
            invariant
                32 <= i <= 127,
                forall|j: int|
                    0 <= j < 256 ==> #[trigger] counts@[j] == if 32 <= j < i || j >= 127 {
                        common_count(j as u8)
                    } else if common_count(j as u8) == 200 {
                        0
                    } else {
                        common_count(j as u8)
                    },
            decreases 127 - i,
        {
            if counts[i] == 0 {
                counts[i] = 200;
            }
            i += 1;
        }
        proof {
            assert(counts@ =~= common_counts());
        }
        Self::from_counts(&counts)
    }

    /// The code lengths of all symbols.
    pub fn lengths(&self) -> (lengths: &[u8; 256])
        ensures
            lengths@ == self@,
            valid_lengths(self@),
    {
        proof {
            use_type_invariant(self);
        }
        &self.lengths
    }

    /// The code of a symbol and its length; both are zero for a symbol without a code.
    pub fn get_code(&self, symbol: u8) -> (code: (u32, u8))
        ensures
            code.1 == self@[symbol as int],
            code.1 <= 12,
            code.0 == if code.1 > 0 {
                canonical_code(self@, symbol as int)
            } else {
                0
            },
    {
        proof {
            use_type_invariant(self);
        }
        let len = self.lengths[symbol as usize];
        if len > 0 {
            (self.codes[symbol as usize], len)
        } else {
            (0, 0)
        }
    }

    /// Reads one symbol: looks up the next twelve bits and moves on by the length of
    /// the code that starts them.
    pub fn decode_symbol(&self, unpacker: &mut BitUnpacker) -> (symbol: Option<u8>)
        ensures
            final(unpacker).stream() == old(unpacker).stream(),
            match symbol_parse(self@, old(unpacker).stream(), old(unpacker).position() as int) {
                Some((s, next)) => symbol == Some(s) && final(unpacker).position() == next,
                None => symbol.is_none() && final(unpacker).position() == old(unpacker).position(),
            },
    {
        let bits = unpacker.peek_bits(MAX_CODE_LEN);
        proof {
            use_type_invariant(self);
            lemma2_to64();
            crate::bits::lemma_bits_value_bound(
                window(unpacker.stream(), unpacker.position() as int, 12),
            );
            if covered(self@, bits as int) {
                lemma_covers_unique(
                    self@,
                    covering(self@, bits as int),
                    self.decode_table@[bits as int] as int,
                    bits as int,
                );
            }
        }
        let symbol = self.decode_table[bits];
        let len = self.decode_lengths[bits];
        if len == 0 {
            return None;
        }
        match unpacker.skip_bits(len) {
            Some(_) => Some(symbol),
            None => None,
        }
    }
}

/// Writes the codes of a run of bytes one behind the other and packs them into
/// bytes; a byte without a code adds nothing.
pub fn compress(data: &[u8], table: &HuffmanTable) -> (compressed: Vec<u8>)
    ensures
        compressed@ == crate::bits::pack_bits(codes_bits(table@, data@)),
{
    let mut packer = BitPacker::new(Vec::new());
    let mut i: usize = 0;
    while i < data.len()
        invariant
            i <= data.len(),
            packer.wf(),
            packer@ == codes_bits(table@, data@.take(i as int)),
        decreases data.len() - i,
    {
        let (code, len) = table.get_code(data[i]);
        proof {
            assert(data@.take(i + 1).drop_last() =~= data@.take(i as int));
        }
        packer.write_bits_u32(code, len);
        i += 1;
    }
    proof {
        assert(data@.take(data.len() as int) =~= data@);
    }
    packer.finish()
}

/// Reads `length` symbols from the start of `compressed`; `None` where one of them
/// cannot be read.
pub fn decompress(compressed: &[u8], length: usize, table: &HuffmanTable) -> (data: Option<
    Vec<u8>,
>)
    ensures
        match symbols_parse(table@, crate::bits::bytes_bits(compressed@), 0, length as nat) {
            Some((symbols, _)) => data.is_some() && data.unwrap()@ == symbols,
            None => data.is_none(),
        },
{
    let mut unpacker = BitUnpacker::new(compressed);
    let ghost stream = unpacker.stream();
    let mut result: Vec<u8> = Vec::new();
    let mut i: usize = 0;
    while i < length
        invariant
            i <= length,
            unpacker.stream() == stream,
            stream == crate::bits::bytes_bits(compressed@),
            symbols_parse(table@, stream, 0, i as nat) == Some(
                (result@, unpacker.position() as int),
            ),
        decreases length - i,
    {
        match table.decode_symbol(&mut unpacker) {
            Some(symbol) => {
                result.push(symbol);
            },
            None => {
                proof {
                    lemma_symbols_parse_fails(table@, stream, 0, (i + 1) as nat, length as nat);
                }
                return None;
            },
        }
        i += 1;
    }
    Some(result)
}

/// Where a number of symbols cannot be read, no greater number can.
pub proof fn lemma_symbols_parse_fails(
    lens: Seq<u8>,
    stream: Seq<bool>,
    pos: int,
    n: nat,
    m: nat,
)
    requires
        n <= m,
        symbols_parse(lens, stream, pos, n).is_none(),
    ensures
        symbols_parse(lens, stream, pos, m).is_none(),
    decreases m - n,
{
    if n < m {
        lemma_symbols_parse_fails(lens, stream, pos, n + 1, m);
    }
}

/// `a` is the start of `b`.
pub open spec fn is_prefix(a: Seq<bool>, b: Seq<bool>) -> bool {
    a.len() <= b.len() && b.take(a.len() as int) == a
}

/// A code that stands in a stream is read back as its symbol, and the reader ends
/// just behind it.
pub proof fn lemma_symbol_roundtrip(lens: Seq<u8>, stream: Seq<bool>, pos: int, s: int)
    requires
        valid_lengths(lens),
        0 <= s < 256,
        lens[s] >= 1,
        holds_at(stream, pos, code_bits(lens, s)),
    ensures
        symbol_parse(lens, stream, pos) == Some((s as u8, pos + lens[s])),
{
    let len = lens[s] as nat;
    let code = canonical_code(lens, s);
    let u = unit(lens[s]);
    let seen = window(stream, pos, 12);
    let head = seen.take(len as int);
    let tail = seen.skip(len as int);
    assert(lens[s] <= 12);
    assert(head =~= code_bits(lens, s)) by {
        assert forall|i: int| 0 <= i < len implies head[i] == code_bits(lens, s)[i] by {
            assert(stream.subrange(pos, pos + len)[i] == stream[pos + i]);
        }
    }
    assert(seen =~= head + tail);
    lemma_bits_value_concat(head, tail);
    lemma_bits_value_bound(tail);
    lemma_code_fits(lens, s);
    lemma_value_bits_roundtrip(code, len);
    vstd::arithmetic::div_mod::lemma_small_mod(code, pow2(len));
    let w = bits_value(seen) as int;
    assert((code + 1) * u == code * u + u) by (nonlinear_arith);
    assert(covers(lens, s, w));
    lemma_covers_unique(lens, covering(lens, w), s, w);
}

/// No code is the start of another symbol's code.
pub proof fn lemma_prefix_free(lens: Seq<u8>, s: int, t: int)
    requires
        valid_lengths(lens),
        0 <= s < 256,
        0 <= t < 256,
        s != t,
        lens[s] >= 1,
        lens[t] >= 1,
    ensures
        !is_prefix(code_bits(lens, s), code_bits(lens, t)),
{
    let short = code_bits(lens, s);
    let long = code_bits(lens, t);
    if is_prefix(short, long) {
        assert(long.subrange(0, long.len() as int) =~= long);
        assert(long.subrange(0, short.len() as int) =~= long.take(short.len() as int));
        lemma_symbol_roundtrip(lens, long, 0, t);
        lemma_symbol_roundtrip(lens, long, 0, s);
    }
}

/// A run of symbols that all have codes, written one behind the other, is read back
/// as it was, and the reader ends just behind the last code.
pub proof fn lemma_symbols_roundtrip(lens: Seq<u8>, stream: Seq<bool>, pos: int, data: Seq<u8>)
    requires
        valid_lengths(lens),
        forall|i: int| 0 <= i < data.len() ==> lens[#[trigger] data[i] as int] >= 1,
        holds_at(stream, pos, codes_bits(lens, data)),
    ensures
        symbols_parse(lens, stream, pos, data.len()) == Some(
            (data, pos + codes_bits(lens, data).len()),
        ),
    decreases data.len(),
{
    if data.len() > 0 {
        let front = data.drop_last();
        crate::bits::lemma_holds_at_concat(
            stream,
            pos,
            codes_bits(lens, front),
            code_bits(lens, data.last() as int),
        );
        lemma_symbols_roundtrip(lens, stream, pos, front);
        lemma_symbol_roundtrip(
            lens,
            stream,
            pos + codes_bits(lens, front).len(),
            data.last() as int,
        );
        assert(front.push(data.last()) =~= data);
    }
}

/// The table for configuration text has a code for every printable ASCII character.
pub proof fn lemma_common_lengths()
    ensures
        valid_lengths(code_lengths(common_counts())),
        forall|byte: u8| 32 <= byte <= 126 ==> #[trigger] code_lengths(common_counts())[byte as int]
                >= 1,
        forall|byte: u8|
            !(32 <= byte <= 126) ==> #[trigger] code_lengths(common_counts())[byte as int] == 0,
{
    lemma_code_lengths(common_counts());
    let lens = code_lengths(common_counts());
    assert forall|byte: u8| 32 <= byte <= 126 implies #[trigger] lens[byte as int] >= 1 by {
        assert(common_counts()[byte as int] > 0);
    }
    assert forall|byte: u8| !(32 <= byte <= 126) implies #[trigger] lens[byte as int] == 0 by {
        assert(common_counts()[byte as int] == 0);
    }
}

} // verus!
