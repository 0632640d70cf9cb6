//! The cumulative-distribution sampler: a row of weights turned into its
//! running sums, sampled by a uniform draw below the row's total.

use rand::rngs::ThreadRng;
use vstd::prelude::*;
use crate::chain::uniform_below;
use crate::weights::{counts_as_ints, lemma_weight_sum_prefix, lemma_weight_sum_step, non_negative, weight_sum};

verus! {

/// Entry `j` of the cumulative table of `row`: the sum of the weights up
/// to and including column `j`.
pub open spec fn running_sum(row: Seq<usize>, j: int) -> int {
    weight_sum(counts_as_ints(row).take(j + 1))
}

/// `t` is the cumulative table of `row`.
pub open spec fn is_cumulative_of(t: Seq<usize>, row: Seq<usize>) -> bool {
    &&& t.len() == row.len()
    &&& forall|j: int| 0 <= j < t.len() ==> #[trigger] t[j] == running_sum(row, j)
}

/// `r` is the column that the draw `f` selects in the cumulative table `t`:
/// the first whose running sum exceeds `f`.
pub open spec fn selects(t: Seq<usize>, f: usize, r: int) -> bool {
    &&& 0 <= r < t.len()
    &&& forall|i: int| 0 <= i < r ==> #[trigger] t[i] <= f
    &&& f < t[r]
}

/// Builds the cumulative table of `row`. Its last entry is the row's total,
/// and a row of zero total gives a table of zeros. A row whose total does
/// not fit in `usize` has none.
pub fn cumulative_table(row: &Vec<usize>) -> (r: Option<Vec<usize>>)
    ensures
        r is None <==> weight_sum(counts_as_ints(row@)) > usize::MAX,
        r is Some ==> {
            let t = r->Some_0;
            &&& is_cumulative_of(t@, row@)
            &&& row.len() > 0 ==> t@.last() == weight_sum(counts_as_ints(row@))
            &&& weight_sum(counts_as_ints(row@)) == 0 ==> forall|j: int|
                0 <= j < t.len() ==> #[trigger] t@[j] == 0
            &&& forall|i: int, j: int| 0 <= i <= j < t.len() ==> t@[i] <= t@[j]
        },
{
    let ghost w = counts_as_ints(row@);
    assert(non_negative(w));
    assert(w.take(row.len() as int) =~= w);
    let mut t: Vec<usize> = Vec::new();
    let mut total: usize = 0;
    let mut j: usize = 0;
    while j < row.len()
        invariant
            w == counts_as_ints(row@),
            non_negative(w),
            w.take(row.len() as int) == w,
            j <= row.len(),
            t.len() == j,
            total == weight_sum(w.take(j as int)),
            forall|k: int| 0 <= k < j ==> #[trigger] t@[k] == running_sum(row@, k),
            forall|i: int, k: int| 0 <= i <= k < j ==> t@[i] <= t@[k],
            forall|k: int| 0 <= k < j ==> #[trigger] t@[k] <= total,
        decreases row.len() - j,
    {
        proof {
            lemma_weight_sum_step(w, j as int);
            lemma_weight_sum_prefix(w, j as int + 1);
        }
        if row[j] > usize::MAX - total {
            proof {
                lemma_weight_sum_prefix(w, j as int + 1);
            }
            return None;
        }
        total = total + row[j];
        t.push(total);
        j = j + 1;
    }
    proof {
        if weight_sum(w) == 0 {
            assert forall|k: int| 0 <= k < t.len() implies #[trigger] t@[k] == 0 by {
                lemma_weight_sum_prefix(w, k + 1);
            }
        }
    }
    Some(t)
}

/// The first column whose running sum exceeds `f`; the last column when
/// none does.
pub fn pick_cumulative(t: &Vec<usize>, f: usize) -> (r: usize)
    requires
        t.len() > 0,
    ensures
        r < t.len(),
        forall|i: int| 0 <= i < r ==> #[trigger] t@[i] <= f,
        (exists|j: int| 0 <= j < t.len() && f < #[trigger] t@[j]) ==> f < t@[r as int],
        (forall|j: int| 0 <= j < t.len() ==> #[trigger] t@[j] <= f) ==> r == t.len() - 1,
{
    let mut j: usize = 0;
    while j < t.len()
        invariant
            j <= t.len(),
            forall|i: int| 0 <= i < j ==> #[trigger] t@[i] <= f,
        decreases t.len() - j,
    {
        if f < t[j] {
            return j;
        }
        j = j + 1;
    }
    t.len() - 1
}

/// Draws a column of `row` from its cumulative table `t`: column `j` comes
/// with probability `row[j]` over the row's total, so a column of weight
/// zero never comes. A row of zero total has no column to give.
pub fn sample_cumulative(t: &Vec<usize>, row: &Vec<usize>, rng: &mut ThreadRng) -> (r: Option<usize>)
    requires
        is_cumulative_of(t@, row@),
    ensures
        r is None <==> row.len() == 0 || weight_sum(counts_as_ints(row@)) == 0,
        r is Some ==> r->Some_0 < row.len() && row@[r->Some_0 as int] > 0,
        r is Some ==> exists|f: usize| f < t@.last() && #[trigger] selects(t@, f, r->Some_0 as int),
{
    if t.len() == 0 {
        return None;
    }
    let total = t[t.len() - 1];
    proof {
        assert(counts_as_ints(row@).take(row.len() as int) =~= counts_as_ints(row@));
    }
    if total == 0 {
        return None;
    }
    let f = uniform_below(rng, total);
    let c = pick_cumulative(t, f);
    proof {
        assert(f < t@[t.len() - 1]);
        assert(f < t@.last() && selects(t@, f, c as int));
        let w = counts_as_ints(row@);
        assert(f < t@[t.len() - 1]);
        lemma_weight_sum_step(w, c as int);
        if c > 0 {
            assert(t@[c - 1] <= f);
            assert(w.take(c as int) =~= w.take((c - 1) + 1));
        } else {
            assert(w.take(0) =~= Seq::<int>::empty());
        }
        assert(exists|g: usize| g < t@.last() && #[trigger] selects(t@, g, c as int));
    }
    let r = Some(c);
    assert(r->Some_0 == c);
    r
}

} // verus!
