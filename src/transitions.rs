//! Counting the transitions between consecutive states.

use vstd::prelude::*;
use vstd::laws_cmp::obeys_cmp;
use crate::states::{
    covers, is_state_space, lemma_order_laws, lemma_unique_position, order_laws, same,
    state_index, strictly_ascending,
};

verus! {

/// How many times state `a` is immediately followed by state `b` in the
/// index sequence `s`.
pub open spec fn count_pairs(s: Seq<usize>, a: int, b: int) -> nat
    decreases s.len(),
{
    if s.len() < 2 {
        0
    } else {
        count_pairs(s.drop_last(), a, b) + if s[s.len() - 2] == a && s.last() == b {
            1nat
        } else {
            0nat
        }
    }
}

/// How many times an element equal to `a` is immediately followed by an
/// element equal to `b` in `s`.
pub open spec fn count_pairs_of<T: Ord>(s: Seq<T>, a: T, b: T) -> nat
    decreases s.len(),
{
    if s.len() < 2 {
        0
    } else {
        count_pairs_of(s.drop_last(), a, b) + if same(s[s.len() - 2], a) && same(s.last(), b) {
            1nat
        } else {
            0nat
        }
    }
}

/// A sequence of `n` elements holds fewer than `n` consecutive pairs.
pub proof fn lemma_count_pairs_bound(s: Seq<usize>, a: int, b: int)
    ensures
        count_pairs(s, a, b) <= s.len(),
    decreases s.len(),
{
    if s.len() >= 2 {
        lemma_count_pairs_bound(s.drop_last(), a, b);
    }
}

/// Counting over the indices of elements in an ascending state space is
/// counting over the elements themselves.
pub proof fn lemma_count_pairs_of_indices<T: Ord>(
    idx: Seq<usize>,
    elems: Seq<T>,
    states: Seq<T>,
    a: int,
    b: int,
)
    requires
        order_laws::<T>(),
        strictly_ascending(states),
        idx.len() == elems.len(),
        forall|k: int|
            0 <= k < idx.len() ==> #[trigger] idx[k] < states.len() && same(
                elems[k],
                states[idx[k] as int],
            ),
        0 <= a < states.len(),
        0 <= b < states.len(),
    ensures
        count_pairs(idx, a, b) == count_pairs_of(elems, states[a], states[b]),
    decreases idx.len(),
{
    if idx.len() >= 2 {
        let n = idx.len();
        assert forall|k: int| 0 <= k < n - 1 implies #[trigger] idx.drop_last()[k] < states.len()
            && same(elems.drop_last()[k], states[idx.drop_last()[k] as int]) by {
            assert(idx[k] < states.len());
        }
        lemma_count_pairs_of_indices(idx.drop_last(), elems.drop_last(), states, a, b);
        assert(idx[n - 2] < states.len());
        assert(idx[n - 1] < states.len());
        let p = elems[n - 2];
        let q = elems[n - 1];
        if same(p, states[a]) {
            assert(same(states[a], p));
            assert(same(states[idx[n - 2] as int], p));
            lemma_unique_position(states, p, a, idx[n - 2] as int);
        }
        if same(q, states[b]) {
            assert(same(states[b], q));
            assert(same(states[idx[n - 1] as int], q));
            lemma_unique_position(states, q, b, idx[n - 1] as int);
        }
        if idx[n - 2] == a {
            assert(same(p, states[a]));
        }
        if idx[n - 1] == b {
            assert(same(q, states[b]));
        }
    }
}

/// The transition matrix of an index sequence over `n` states: the entry
/// at row `a`, column `b` counts how often `a` is immediately followed by
/// `b`.
pub fn count_transitions(indices: &Vec<usize>, n: usize) -> (m: Vec<Vec<usize>>)
    requires
        forall|k: int| 0 <= k < indices.len() ==> #[trigger] indices@[k] < n,
    ensures
        m.len() == n,
        forall|a: int| 0 <= a < n ==> #[trigger] m@[a].len() == n,
        forall|a: int, b: int|
            0 <= a < n && 0 <= b < n ==> #[trigger] m@[a][b] == count_pairs(indices@, a, b),
{
    let mut m: Vec<Vec<usize>> = Vec::new();
    let mut a: usize = 0;
    while a < n
        invariant
            a <= n,
            m.len() == a,
            forall|k: int| 0 <= k < indices.len() ==> #[trigger] indices@[k] < n,
            forall|r: int| 0 <= r < a ==> #[trigger] m@[r].len() == n,
            forall|r: int, b: int|
                0 <= r < a && 0 <= b < n ==> #[trigger] m@[r][b] == count_pairs(indices@, r, b),
        decreases n - a,
    {
        let mut row: Vec<usize> = Vec::new();
        let mut b: usize = 0;
        while b < n
            invariant
                b <= n,
                row.len() == b,
                forall|c: int| 0 <= c < b ==> #[trigger] row@[c] == 0,
            decreases n - b,
        {
            row.push(0);
            b = b + 1;
        }
        let mut k: usize = 0;
        while k < indices.len()
            invariant
                k <= indices.len(),
                a < n,
                row.len() == n,
                forall|j: int| 0 <= j < indices.len() ==> #[trigger] indices@[j] < n,
                forall|c: int|
                    0 <= c < n ==> #[trigger] row@[c] == count_pairs(
                        indices@.take(k as int),
                        a as int,
                        c,
                    ),
            decreases indices.len() - k,
        {
            let ghost before_step = indices@.take(k as int);
            let ghost after_step = indices@.take(k as int + 1);
            assert(after_step.drop_last() =~= before_step);
            if k > 0 && indices[k - 1] == a {
                let c = indices[k];
                proof {
                    lemma_count_pairs_bound(before_step, a as int, c as int);
                }
                let v = row[c] + 1;
                row.set(c, v);
            }
            k = k + 1;
        }
        assert(indices@.take(k as int) =~= indices@);
        m.push(row);
        a = a + 1;
    }
    m
}

/// The transition matrix of `elements` over their state space `states`:
/// the entry at row `a`, column `b` counts how often an element equal to
/// `states[a]` is immediately followed by one equal to `states[b]`.
pub fn frequency_matrix<T: Copy + Ord>(elements: &[T], states: &Vec<T>) -> (matrix: Vec<Vec<usize>>)
    requires
        obeys_cmp::<T>(),
        is_state_space(states@, elements@),
    ensures
        matrix.len() == states.len(),
        forall|a: int| 0 <= a < states.len() ==> #[trigger] matrix@[a].len() == states.len(),
        forall|a: int, b: int|
            0 <= a < states.len() && 0 <= b < states.len() ==> #[trigger] matrix@[a][b]
                == count_pairs_of(elements@, states@[a], states@[b]),
{
    proof {
        lemma_order_laws::<T>();
    }
    let n = states.len();
        let mut indices: Vec<usize> = Vec::new();
        let mut k: usize = 0;
        while k < elements.len()
            invariant
                order_laws::<T>(),
                obeys_cmp::<T>(),
                k <= elements.len(),
                n == states.len(),
                is_state_space(states@, elements@),
                indices.len() == k,
                forall|j: int|
                    0 <= j < k ==> #[trigger] indices@[j] < n && same(
                        elements@[j],
                        states@[indices@[j] as int],
                    ),
            decreases elements.len() - k,
        {
            match state_index(&states, &elements[k]) {
                Some(i) => {
                    assert(same(elements@[k as int], states@[i as int]));
                    indices.push(i);
                },
                None => {
                    assert(covers(states@, elements@[k as int]));
                    assert(false);
                },
            }
            k = k + 1;
        }
        let matrix = count_transitions(&indices, n);
        assert forall|a: int, b: int| 0 <= a < n && 0 <= b < n implies #[trigger] matrix@[a][b]
            == count_pairs_of(elements@, states@[a], states@[b]) by {
            lemma_count_pairs_of_indices(indices@, elements@, states@, a, b);
        }
        matrix
}

} // verus!
