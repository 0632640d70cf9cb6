//! Weight rows and the arithmetic facts about their sums.

use vstd::prelude::*;

verus! {

/// The sum of a row of weights.
pub open spec fn weight_sum(s: Seq<int>) -> int
    decreases s.len(),
{
    if s.len() == 0 {
        0
    } else {
        weight_sum(s.drop_last()) + s.last()
    }
}

/// A row of `u32` weights read as integers.
pub open spec fn as_ints(s: Seq<u32>) -> Seq<int> {
    s.map_values(|w: u32| w as int)
}

/// A row of `usize` counts read as integers.
pub open spec fn counts_as_ints(s: Seq<usize>) -> Seq<int> {
    s.map_values(|w: usize| w as int)
}

/// Every weight of `s` is at least zero.
pub open spec fn non_negative(s: Seq<int>) -> bool {
    forall|k: int| 0 <= k < s.len() ==> #[trigger] s[k] >= 0
}

/// Adding one more weight to a prefix adds that weight to its sum.
pub proof fn lemma_weight_sum_step(s: Seq<int>, k: int)
    requires
        0 <= k < s.len(),
    ensures
        weight_sum(s.take(k + 1)) == weight_sum(s.take(k)) + s[k],
{
    assert(s.take(k + 1).drop_last() =~= s.take(k));
}

/// The sum of a prefix of non-negative weights is at most the sum of all.
pub proof fn lemma_weight_sum_prefix(s: Seq<int>, k: int)
    requires
        non_negative(s),
        0 <= k <= s.len(),
    ensures
        weight_sum(s.take(k)) <= weight_sum(s),
        weight_sum(s.take(k)) >= 0,
    decreases s.len() - k,
{
    if k < s.len() {
        lemma_weight_sum_step(s, k);
        assert(s[k] >= 0);
        lemma_weight_sum_prefix(s, k + 1);
        lemma_weight_sum_prefix_nonneg(s, k);
    } else {
        assert(s.take(k) =~= s);
        lemma_weight_sum_prefix_nonneg(s, k);
    }
}

/// The sum of a prefix of non-negative weights is not negative.
proof fn lemma_weight_sum_prefix_nonneg(s: Seq<int>, k: int)
    requires
        non_negative(s),
        0 <= k <= s.len(),
    ensures
        weight_sum(s.take(k)) >= 0,
    decreases k,
{
    if k > 0 {
        lemma_weight_sum_step(s, k - 1);
        lemma_weight_sum_prefix_nonneg(s, k - 1);
    }
}

/// No single non-negative weight exceeds the sum of its row.
pub proof fn lemma_weight_le_sum(s: Seq<int>, k: int)
    requires
        non_negative(s),
        0 <= k < s.len(),
    ensures
        s[k] <= weight_sum(s),
    decreases s.len(),
{
    if k == s.len() - 1 {
        lemma_weight_sum_prefix_nonneg(s, s.len() - 1);
        assert(s.take(s.len() - 1) =~= s.drop_last());
    } else {
        assert forall|j: int| 0 <= j < s.drop_last().len() implies #[trigger] s.drop_last()[j]
            >= 0 by {
            assert(s[j] >= 0);
        }
        lemma_weight_le_sum(s.drop_last(), k);
        assert(s.last() >= 0);
    }
}

/// With a positive divisor `d`, `n` exceeds `m / d` exactly when `n * d`
/// exceeds `m`.
pub proof fn lemma_exceeds_quotient(n: int, d: int, m: int)
    requires
        n >= 0,
        d > 0,
        m >= 0,
    ensures
        (n > m / d) <==> (n * d > m),
{
    let q = m / d;
    let r = m % d;
    vstd::arithmetic::div_mod::lemma_fundamental_div_mod(m, d);
    assert(m == d * q + r);
    assert(0 <= r < d);
    if n > q {
        assert(n * d >= (q + 1) * d) by (nonlinear_arith)
            requires
                n >= q + 1,
                d > 0,
        ;
        assert((q + 1) * d == q * d + d) by (nonlinear_arith);
        assert(d * q == q * d) by (nonlinear_arith);
    } else {
        assert(n * d <= q * d) by (nonlinear_arith)
            requires
                n <= q,
                d > 0,
        ;
        assert(d * q == q * d) by (nonlinear_arith);
    }
}

/// A row of zero weights sums to zero.
pub proof fn lemma_weight_sum_zeros(s: Seq<int>)
    requires
        forall|k: int| 0 <= k < s.len() ==> #[trigger] s[k] == 0,
    ensures
        weight_sum(s) == 0,
    decreases s.len(),
{
    if s.len() > 0 {
        assert forall|k: int| 0 <= k < s.drop_last().len() implies #[trigger] s.drop_last()[k]
            == 0 by {
            assert(s[k] == 0);
        }
        lemma_weight_sum_zeros(s.drop_last());
    }
}

/// Whether some count of `row` is positive, which is whether its sum is.
pub fn has_positive(row: &Vec<usize>) -> (r: bool)
    ensures
        r == (weight_sum(counts_as_ints(row@)) > 0),
{
    let ghost w = counts_as_ints(row@);
    assert(non_negative(w));
    let mut j: usize = 0;
    while j < row.len()
        invariant
            j <= row.len(),
            w == counts_as_ints(row@),
            non_negative(w),
            forall|k: int| 0 <= k < j ==> #[trigger] row@[k] == 0,
        decreases row.len() - j,
    {
        if row[j] > 0 {
            proof {
                lemma_weight_le_sum(w, j as int);
            }
            return true;
        }
        j = j + 1;
    }
    proof {
        assert forall|k: int| 0 <= k < w.len() implies #[trigger] w[k] == 0 by {
            assert(row@[k] == 0);
        }
        lemma_weight_sum_zeros(w);
    }
    false
}

} // verus!
