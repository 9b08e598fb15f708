//! Sums over finite sequences of natural numbers.

use vstd::prelude::*;

verus! {

/// The sum of the members of `s`.
pub open spec fn sum(s: Seq<nat>) -> nat
    decreases s.len(),
{
    if s.len() == 0 {
        0
    } else {
        sum(s.drop_last()) + s.last()
    }
}

/// Replacing one member changes the sum by the difference.
pub proof fn lemma_sum_update(s: Seq<nat>, i: int, w: nat)
    requires
        0 <= i < s.len(),
    ensures
        sum(s.update(i, w)) + s[i] == sum(s) + w,
    decreases s.len(),
{
    let t = s.update(i, w);
    if i == s.len() - 1 {
        assert(t.drop_last() =~= s.drop_last());
    } else {
        lemma_sum_update(s.drop_last(), i, w);
        assert(t.drop_last() =~= s.drop_last().update(i, w));
    }
}

/// A sum grows with its members.
pub proof fn lemma_sum_le(a: Seq<nat>, b: Seq<nat>)
    requires
        a.len() == b.len(),
        forall|i: int| 0 <= i < a.len() ==> a[i] <= b[i],
    ensures
        sum(a) <= sum(b),
    decreases a.len(),
{
    if a.len() > 0 {
        lemma_sum_le(a.drop_last(), b.drop_last());
    }
}

/// The sum of member-wise sums is the sum of the sums.
pub proof fn lemma_sum_add(a: Seq<nat>, b: Seq<nat>, c: Seq<nat>)
    requires
        a.len() == b.len() == c.len(),
        forall|i: int| 0 <= i < a.len() ==> c[i] == a[i] + b[i],
    ensures
        sum(c) == sum(a) + sum(b),
    decreases a.len(),
{
    if a.len() > 0 {
        lemma_sum_add(a.drop_last(), b.drop_last(), c.drop_last());
    }
}

/// Scaling every member scales the sum.
pub proof fn lemma_sum_scale(a: Seq<nat>, b: Seq<nat>, k: nat)
    requires
        a.len() == b.len(),
        forall|i: int| 0 <= i < a.len() ==> b[i] == k * a[i],
    ensures
        sum(b) == k * sum(a),
    decreases a.len(),
{
    if a.len() > 0 {
        lemma_sum_scale(a.drop_last(), b.drop_last(), k);
        assert(k * (sum(a.drop_last()) + a.last()) == k * sum(a.drop_last()) + k * a.last())
            by (nonlinear_arith);
    } else {
        assert(k * 0 == 0);
    }
}

/// A sum of members that are each at most `k` is at most `k` for each member.
pub proof fn lemma_sum_bound(s: Seq<nat>, k: nat)
    requires
        forall|i: int| 0 <= i < s.len() ==> s[i] <= k,
    ensures
        sum(s) <= k * s.len(),
    decreases s.len(),
{
    if s.len() > 0 {
        lemma_sum_bound(s.drop_last(), k);
        assert(k * (s.len() - 1) + k == k * s.len()) by (nonlinear_arith);
    } else {
        assert(k * 0 == 0);
    }
}

/// The sum of a longer prefix is that of the shorter one and of the members between;
/// stated one member at a time, and against the whole.
pub proof fn lemma_sum_take(s: Seq<nat>, n: int)
    requires
        0 <= n < s.len(),
    ensures
        sum(s.take(n + 1)) == sum(s.take(n)) + s[n],
        sum(s.take(n + 1)) <= sum(s),
    decreases s.len() - n,
{
    assert(s.take(n + 1).drop_last() =~= s.take(n));
    if n + 1 < s.len() {
        lemma_sum_take(s, n + 1);
    } else {
        assert(s.take(n + 1) =~= s);
    }
}

} // verus!
