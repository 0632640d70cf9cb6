//! A Markov chain that samples each row through its cumulative table.

use rand::rngs::ThreadRng;
use vstd::laws_cmp::obeys_cmp;
use vstd::prelude::*;
use crate::chain::{current_rng, frequency_row, lemma_some_row_live, uniform_below, ChainError, Cursor};
use crate::cumulative::{cumulative_table, is_cumulative_of, sample_cumulative};
use crate::states::{covers, is_state_space, lemma_order_laws, same, state_space};
use crate::transitions::{count_pairs_of, frequency_matrix};
use crate::weights::{counts_as_ints, lemma_weight_le_sum, non_negative, weight_sum};

verus! {

/// A first-order Markov chain whose rows are sampled through cumulative
/// tables. A row of zero total is never sampled: where the cursor stands on
/// such a row, or is unset, the row is drawn uniformly among the rows of
/// positive total.
#[derive(Debug, PartialEq)]
pub struct CumulativeChain<T> {
    elements: Vec<T>,
    rows: Vec<Vec<usize>>,
    cm_dist: Vec<Vec<usize>>,
    live: Vec<usize>,
    cursor: Cursor,
}

/// `live` lists, in ascending order and so each once, exactly the rows of
/// positive total among the first `n` rows of `rows`.
pub open spec fn lists_live_rows(live: Seq<usize>, rows: Seq<Vec<usize>>, n: int) -> bool {
    &&& forall|i: int, j: int| 0 <= i < j < live.len() ==> live[i] < live[j]
    &&& forall|k: int| 0 <= k < live.len() ==> #[trigger] live[k] < n && row_total(rows, live[k] as int) > 0
    &&& forall|a: int| 0 <= a < n && row_total(rows, a) > 0 ==> live.contains(a as usize)
}

/// The total of row `a` of `rows`.
pub open spec fn row_total(rows: Seq<Vec<usize>>, a: int) -> int {
    weight_sum(counts_as_ints(rows[a]@))
}

impl<T: Copy + Ord> CumulativeChain<T> {
    /// The states, in ascending order.
    pub closed spec fn states(&self) -> Seq<T> {
        self.elements@
    }

    /// The transition counts, one row per state.
    pub closed spec fn counts(&self) -> Seq<Vec<usize>> {
        self.rows@
    }

    /// The cumulative tables, one per state.
    pub closed spec fn cm_tables(&self) -> Seq<Vec<usize>> {
        self.cm_dist@
    }

    /// Each row has its cumulative table.
    pub open spec fn tables_match(&self) -> bool {
        &&& self.cm_tables().len() == self.counts().len()
        &&& forall|a: int|
            0 <= a < self.cm_tables().len() ==> is_cumulative_of(
                #[trigger] self.cm_tables()[a]@,
                self.counts()[a]@,
            )
    }

    /// The rows of positive total, in ascending order.
    pub closed spec fn live_rows(&self) -> Seq<usize> {
        self.live@
    }

    /// The cursor.
    pub closed spec fn cursor_spec(&self) -> Cursor {
        self.cursor
    }

    /// Square counts over a non-empty state space, a cumulative table for
    /// each row, the list of live rows, and a cursor on a state.
    pub closed spec fn wf(&self) -> bool {
        let n = self.elements@.len();
        &&& n > 0
        &&& self.rows@.len() == n
        &&& self.cm_dist@.len() == n
        &&& forall|a: int| 0 <= a < n ==> #[trigger] self.rows@[a].len() == n
        &&& forall|a: int| 0 <= a < n ==> is_cumulative_of(#[trigger] self.cm_dist@[a]@, self.rows@[a]@)
        &&& self.live@.len() > 0
        &&& lists_live_rows(self.live@, self.rows@, n as int)
        &&& match self.cursor {
            Cursor::Unset => true,
            Cursor::At(i) => i < n,
        }
    }

    /// The model holds the state space of `elements` and their transition
    /// counts.
    pub open spec fn built_from(&self, elements: Seq<T>) -> bool {
        &&& is_state_space(self.states(), elements)
        &&& self.counts().len() == self.states().len()
        &&& forall|a: int|
            0 <= a < self.states().len() ==> #[trigger] self.counts()[a].len() == self.states().len()
        &&& forall|a: int, b: int|
            0 <= a < self.states().len() && 0 <= b < self.states().len() ==> #[trigger] self.counts()[a][b]
                == count_pairs_of(elements, self.states()[a], self.states()[b])
    }

    /// Builds a model from `elements`: their state space, the transition
    /// counts between consecutive elements, and a cumulative table for each
    /// row.
    #[verifier::rlimit(40)]
    pub fn from(elements: &[T]) -> (r: Result<CumulativeChain<T>, ChainError>)
        requires
            obeys_cmp::<T>(),
        ensures
            elements@.len() == 0 <==> r == Err::<CumulativeChain<T>, ChainError>(ChainError::EmptySequence),
            elements@.len() == 1 <==> r == Err::<CumulativeChain<T>, ChainError>(ChainError::AllDeadEnds),
            r == Err::<CumulativeChain<T>, ChainError>(ChainError::WeightOverflow) ==> exists|s: Seq<T>, a: int|
                is_state_space(s, elements@) && 0 <= a < s.len() && weight_sum(
                    #[trigger] frequency_row(elements@, s, a),
                ) > usize::MAX,
            r is Ok ==> {
                let m = r->Ok_0;
                &&& m.wf()
                &&& m.built_from(elements@)
                &&& m.tables_match()
                &&& m.live_rows().len() > 0
                &&& lists_live_rows(m.live_rows(), m.counts(), m.states().len() as int)
                &&& m.cursor_spec() == Cursor::Unset
            },
    {
        proof {
            lemma_order_laws::<T>();
        }
        if elements.len() == 0 {
            return Err(ChainError::EmptySequence);
        }
        if elements.len() == 1 {
            return Err(ChainError::AllDeadEnds);
        }
        let states = state_space(elements);
        let n = states.len();
        assert(covers(states@, elements@[0]));
        let rows = frequency_matrix(elements, &states);
        let mut cm_dist: Vec<Vec<usize>> = Vec::new();
        let mut live: Vec<usize> = Vec::new();
        let mut a: usize = 0;
        while a < n
            invariant
                elements@.len() >= 2,
                a <= n,
                n > 0,
                n == states.len(),
                is_state_space(states@, elements@),
                rows.len() == n,
                forall|r: int| 0 <= r < n ==> #[trigger] rows@[r].len() == n,
                forall|r: int, b: int|
                    0 <= r < n && 0 <= b < n ==> #[trigger] rows@[r][b] == count_pairs_of(
                        elements@,
                        states@[r],
                        states@[b],
                    ),
                cm_dist.len() == a,
                forall|r: int| 0 <= r < a ==> is_cumulative_of(#[trigger] cm_dist@[r]@, rows@[r]@),
                forall|k: int| 0 <= k < live@.len() ==> #[trigger] live@[k] < a && row_total(
                    rows@,
                    live@[k] as int,
                ) > 0,
                forall|r: int| 0 <= r < a && row_total(rows@, r) > 0 ==> live@.contains(r as usize),
                forall|i: int, j: int| 0 <= i < j < live@.len() ==> live@[i] < live@[j],
            decreases n - a,
        {
            let counts = &rows[a];
            match cumulative_table(counts) {
                Some(t) => {
                    let ghost prev_live = live@;
                    let last = t[n - 1];
                    if last > 0 {
                        live.push(a);
                    }
                    cm_dist.push(t);
                    proof {
                        assert(rows@[a as int].len() == n);
                        assert(t@.len() == n);
                        assert(t@.last() == t@[n - 1]);
                        assert(row_total(rows@, a as int) == last);
                        assert forall|i: int, j: int| 0 <= i < j < live@.len() implies live@[i]
                            < live@[j] by {
                            if j < prev_live.len() {
                                assert(live@[i] == prev_live[i] && live@[j] == prev_live[j]);
                            } else {
                                assert(live@[i] == prev_live[i]);
                            }
                        }
                        assert forall|k: int| 0 <= k < live@.len() implies #[trigger] live@[k] < a + 1
                            && row_total(rows@, live@[k] as int) > 0 by {
                            if k < prev_live.len() {
                                assert(live@[k] == prev_live[k]);
                            }
                        }
                        assert forall|r: int|
                            0 <= r < a + 1 && row_total(rows@, r) > 0 implies live@.contains(
                            r as usize,
                        ) by {
                            if r < a {
                                assert(prev_live.contains(r as usize));
                                let w = choose|w: int|
                                    0 <= w < prev_live.len() && prev_live[w] == r as usize;
                                assert(live@[w] == r as usize);
                            } else {
                                assert(live@[live@.len() - 1] == a);
                            }
                        }
                    }
                },
                None => {
                    proof {
                        let s = states@;
                        let row = frequency_row(elements@, s, a as int);
                        assert(row =~= counts_as_ints(counts@));
                        assert(is_state_space(s, elements@) && 0 <= a < s.len() && weight_sum(row)
                            > usize::MAX);
                    }
                    return Err(ChainError::WeightOverflow);
                },
            }
            a = a + 1;
        }
        proof {
            lemma_some_row_live(elements@, states@, rows@);
            let p = choose|p: int| 0 <= p < n && #[trigger] row_total(rows@, p) > 0;
            assert(live@.contains(p as usize));
        }
        let model = CumulativeChain {
            elements: states,
            rows,
            cm_dist,
            live,
            cursor: Cursor::Unset,
        };
        assert(model.wf());
        assert(model.built_from(elements@));
        assert(model.tables_match());
        assert(lists_live_rows(model.live_rows(), model.counts(), n as int));
        Ok(model)
    }

    /// Moving the cursor to `next` takes a transition of positive count out
    /// of a row of positive total: the cursor's own row where it has
    /// positive total.
    pub open spec fn observed_step(&self, next: Cursor) -> bool {
        &&& next is At
        &&& exists|p: int|
            0 <= p < self.states().len() && row_total(self.counts(), p) > 0
                && #[trigger] self.counts()[p][next->At_0 as int] > 0 && (self.cursor_spec() is At
                && row_total(self.counts(), self.cursor_spec()->At_0 as int) > 0 ==> p
                == self.cursor_spec()->At_0)
    }

    /// The row that the draw `k` among the rows of positive total selects:
    /// the cursor's own row where it has positive total, else the `k`-th
    /// row of positive total.
    pub fn row_for_draw(&self, k: usize) -> (p: usize)
        requires
            self.wf(),
            k < self.live_rows().len(),
        ensures
            p == (if self.cursor_spec() is At && row_total(
                self.counts(),
                self.cursor_spec()->At_0 as int,
            ) > 0 {
                self.cursor_spec()->At_0
            } else {
                self.live_rows()[k as int]
            }),
            p < self.states().len(),
            row_total(self.counts(), p as int) > 0,
    {
        let n = self.elements.len();
        if let Cursor::At(i) = self.cursor {
            let t = &self.cm_dist[i];
            proof {
                assert(self.rows@[i as int].len() == n);
                assert(is_cumulative_of(self.cm_dist@[i as int]@, self.rows@[i as int]@));
                let w = counts_as_ints(self.rows@[i as int]@);
                assert(w.take(n as int) =~= w);
                assert(t@[n - 1] == row_total(self.rows@, i as int));
            }
            if t[n - 1] > 0 {
                return i;
            }
        }
        self.live[k]
    }

    /// Returns the next state, drawing from `rng`. The state returned
    /// becomes the cursor.
    pub fn next_rng(&mut self, rng: &mut ThreadRng) -> (r: &T)
        requires
            old(self).wf(),
        ensures
            final(self).wf(),
            final(self).states() == old(self).states(),
            final(self).counts() == old(self).counts(),
            final(self).cm_tables() == old(self).cm_tables(),
            final(self).cursor_spec() is At,
            final(self).cursor_spec()->At_0 < final(self).states().len(),
            *r == final(self).states()[final(self).cursor_spec()->At_0 as int],
            old(self).observed_step(final(self).cursor_spec()),
    {
        let k = uniform_below(rng, self.live.len());
        let p = self.row_for_draw(k);
        let column = match sample_cumulative(&self.cm_dist[p], &self.rows[p], rng) {
            Some(c) => c,
            None => 0,
        };
        assert(self.counts()[p as int][column as int] > 0);
        self.cursor = Cursor::At(column);
        &self.elements[column]
    }

    /// Returns the next state, drawing from the current thread's generator.
    pub fn next(&mut self) -> (r: &T)
        requires
            old(self).wf(),
        ensures
            final(self).wf(),
            final(self).states() == old(self).states(),
            final(self).counts() == old(self).counts(),
            final(self).cm_tables() == old(self).cm_tables(),
            final(self).cursor_spec() is At,
            final(self).cursor_spec()->At_0 < final(self).states().len(),
            *r == final(self).states()[final(self).cursor_spec()->At_0 as int],
            old(self).observed_step(final(self).cursor_spec()),
    {
        let mut rng = current_rng();
        self.next_rng(&mut rng)
    }

    /// Unsets the cursor, so that the next state starts from a uniformly
    /// drawn row of positive total.
    pub fn initialize(&mut self)
        ensures
            old(self).wf() ==> final(self).wf(),
            final(self).states() == old(self).states(),
            final(self).counts() == old(self).counts(),
            final(self).live_rows() == old(self).live_rows(),
            final(self).cm_tables() == old(self).cm_tables(),
            final(self).cursor_spec() == Cursor::Unset,
    {
        self.cursor = Cursor::Unset;
    }

    /// The states, in ascending order.
    pub fn state_space(&self) -> (r: &Vec<T>)
        ensures
            r@ == self.states(),
    {
        &self.elements
    }

    /// The transition counts, one row per state.
    pub fn transition_counts(&self) -> (r: &Vec<Vec<usize>>)
        ensures
            r@ == self.counts(),
    {
        &self.rows
    }

    /// The cumulative tables, one per state.
    pub fn cumulative_tables(&self) -> (r: &Vec<Vec<usize>>)
        ensures
            r@ == self.cm_tables(),
            self.wf() ==> self.tables_match(),
    {
        &self.cm_dist
    }

    /// The cursor.
    pub fn cursor(&self) -> (r: Cursor)
        ensures
            r == self.cursor_spec(),
    {
        self.cursor
    }
}

/// Every state that a cumulative model built from `elements` generates
/// follows, somewhere in `elements`, an element equal to a state of
/// positive row total: the state generated before it, where that one has.
pub proof fn lemma_cumulative_pair_observed<T: Copy + Ord>(
    m: CumulativeChain<T>,
    elements: Seq<T>,
    next: Cursor,
)
    requires
        m.built_from(elements),
        m.observed_step(next),
        next->At_0 < m.states().len(),
    ensures
        exists|p: int|
            0 <= p < m.states().len() && #[trigger] count_pairs_of(
                elements,
                m.states()[p],
                m.states()[next->At_0 as int],
            ) > 0 && (m.cursor_spec() is At && row_total(m.counts(), m.cursor_spec()->At_0 as int)
                > 0 ==> p == m.cursor_spec()->At_0),
{
    let p = choose|p: int|
        0 <= p < m.states().len() && row_total(m.counts(), p) > 0
            && #[trigger] m.counts()[p][next->At_0 as int] > 0 && (m.cursor_spec() is At
            && row_total(m.counts(), m.cursor_spec()->At_0 as int) > 0 ==> p
            == m.cursor_spec()->At_0);
    assert(m.counts()[p][next->At_0 as int] == count_pairs_of(
        elements,
        m.states()[p],
        m.states()[next->At_0 as int],
    ));
}

} // verus!