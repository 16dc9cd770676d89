//! Sums over a sequence of samples, and the inequalities between them.

use vstd::prelude::*;
use vstd::seq_lib::{to_multiset_build, to_multiset_contains, to_multiset_len, to_multiset_remove};

verus! {

/// The sum of the samples.
pub open spec fn total(s: Seq<u128>) -> nat
    decreases s.len(),
{
    if s.len() == 0 {
        0
    } else {
        total(s.drop_last()) + s.last() as nat
    }
}

/// The sum of the squares of the samples.
pub open spec fn total_squares(s: Seq<u128>) -> nat
    decreases s.len(),
{
    if s.len() == 0 {
        0
    } else {
        total_squares(s.drop_last()) + (s.last() as nat) * (s.last() as nat)
    }
}

/// One more sample adds itself to the sum and its square to the sum of
/// squares.
pub proof fn lemma_totals_step(s: Seq<u128>, k: int)
    requires
        0 <= k < s.len(),
    ensures
        total(s.take(k + 1)) == total(s.take(k)) + s[k],
        total_squares(s.take(k + 1)) == total_squares(s.take(k)) + s[k] * s[k],
{
    assert(s.take(k + 1).drop_last() =~= s.take(k));
}

/// The sums over a prefix never exceed the sums over the whole sequence.
pub proof fn lemma_totals_of_prefix(s: Seq<u128>, k: int)
    requires
        0 <= k <= s.len(),
    ensures
        total(s.take(k)) <= total(s),
        total_squares(s.take(k)) <= total_squares(s),
    decreases s.len() - k,
{
    if k < s.len() {
        lemma_totals_step(s, k);
        lemma_totals_of_prefix(s, k + 1);
    } else {
        assert(s.take(k) =~= s);
    }
}

/// A sum of natural numbers never exceeds the sum of their squares.
pub proof fn lemma_total_at_most_squares(s: Seq<u128>)
    ensures
        total(s) <= total_squares(s),
    decreases s.len(),
{
    if s.len() > 0 {
        lemma_total_at_most_squares(s.drop_last());
        let x = s.last() as int;
        assert(x <= x * x) by (nonlinear_arith)
            requires
                x >= 0,
        ;
    }
}

/// Where every sample lies between `low` and `high`, the sum lies between
/// `low` and `high` times the number of samples.
pub proof fn lemma_total_between(s: Seq<u128>, low: int, high: int)
    requires
        forall|i: int| 0 <= i < s.len() ==> low <= (#[trigger] s[i]) <= high,
    ensures
        s.len() * low <= total(s) <= s.len() * high,
    decreases s.len(),
{
    if s.len() > 0 {
        let rest = s.drop_last();
        assert forall|i: int| 0 <= i < rest.len() implies low <= (#[trigger] rest[i]) <= high by {
            assert(rest[i] == s[i]);
        }
        lemma_total_between(rest, low, high);
        let n = s.len() as int;
        assert(n * low == (n - 1) * low + low && n * high == (n - 1) * high + high)
            by (nonlinear_arith);
    } else {
        assert(0 * low == 0 && 0 * high == 0) by (nonlinear_arith);
    }
}

/// For every `x`: twice `x` times the sum is at most the sum of squares plus
/// `x` squared for each sample.
proof fn lemma_cross_term(s: Seq<u128>, x: int)
    ensures
        2 * x * total(s) <= total_squares(s) + s.len() * (x * x),
    decreases s.len(),
{
    if s.len() > 0 {
        let rest = s.drop_last();
        lemma_cross_term(rest, x);
        let y = s.last() as int;
        let t = total(rest) as int;
        let q = total_squares(rest) as int;
        let n = s.len() as int;
        assert(2 * x * (t + y) <= (q + y * y) + n * (x * x)) by (nonlinear_arith)
            requires
                2 * x * t <= q + (n - 1) * (x * x),
        {
            assert(0 <= (x - y) * (x - y));
        }
    } else {
        assert(2 * x * 0 == 0 && 0 * (x * x) == 0) by (nonlinear_arith);
    }
}

/// The square of the sum is at most the number of samples times the sum of
/// their squares.
pub proof fn lemma_square_of_total(s: Seq<u128>)
    ensures
        total(s) * total(s) <= s.len() * total_squares(s),
    decreases s.len(),
{
    if s.len() > 0 {
        let rest = s.drop_last();
        lemma_square_of_total(rest);
        let y = s.last() as int;
        lemma_cross_term(rest, y);
        let t = total(rest) as int;
        let q = total_squares(rest) as int;
        let n = s.len() as int;
        assert((t + y) * (t + y) <= n * (q + y * y)) by (nonlinear_arith)
            requires
                t * t <= (n - 1) * q,
                2 * y * t <= q + (n - 1) * (y * y),
        ;
    } else {
        assert(0 * total_squares(s) == 0) by (nonlinear_arith);
    }
}

/// Taking one sample out lowers the sum by that sample and the sum of
/// squares by its square.
proof fn lemma_totals_without(s: Seq<u128>, i: int)
    requires
        0 <= i < s.len(),
    ensures
        total(s) == total(s.remove(i)) + s[i],
        total_squares(s) == total_squares(s.remove(i)) + s[i] * s[i],
    decreases s.len(),
{
    if i == s.len() - 1 {
        assert(s.remove(i) =~= s.drop_last());
    } else {
        lemma_totals_without(s.drop_last(), i);
        assert(s.remove(i).drop_last() =~= s.drop_last().remove(i));
        assert(s.remove(i).last() == s.last());
    }
}

/// The sums do not depend on the order of the samples: two sequences that
/// hold the same samples, each equally often, have the same sum and the same
/// sum of squares.
pub proof fn lemma_totals_of_permutation(a: Seq<u128>, b: Seq<u128>)
    requires
        a.to_multiset() == b.to_multiset(),
    ensures
        total(a) == total(b),
        total_squares(a) == total_squares(b),
    decreases a.len(),
{
    to_multiset_len(a);
    to_multiset_len(b);
    if a.len() > 0 {
        let x = a.last();
        let rest = a.drop_last();
        assert(rest.push(x) =~= a);
        to_multiset_build(rest, x);
        to_multiset_contains(a, x);
        to_multiset_contains(b, x);
        assert(a.contains(x)) by {
            assert(a[a.len() - 1] == x);
        }
        let j = choose|j: int| 0 <= j < b.len() && b[j] == x;
        to_multiset_remove(b, j);
        assert(rest.to_multiset() =~= b.remove(j).to_multiset());
        lemma_totals_of_permutation(rest, b.remove(j));
        lemma_totals_without(b, j);
    }
}

} // verus!
