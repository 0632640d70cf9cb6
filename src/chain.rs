//! The Markov chain model: state space, transition counts, one alias table
//! per state, and the cursor that remembers the state generated last.

use rand::rngs::ThreadRng;
use rand::Rng;
use vstd::laws_cmp::obeys_cmp;
use vstd::prelude::*;
use weighted_rand::builder::NewBuilder;
use weighted_rand::builder::WalkerTableBuilder;
use weighted_rand::table::WalkerTable;
use crate::cumulative_chain::{lists_live_rows, row_total};
use crate::states::{covers, is_state_space, lemma_order_laws, same, state_space};
use crate::transitions::{count_pairs_of, frequency_matrix};
use crate::weights::{
    as_ints, counts_as_ints, has_positive, lemma_exceeds_quotient, lemma_weight_le_sum,
    lemma_weight_sum_prefix, lemma_weight_sum_step, non_negative, weight_sum,
};

verus! {

#[verifier::external_type_specification]
#[verifier::external_body]
pub struct ExWalkerTable(WalkerTable);

#[verifier::external_type_specification]
#[verifier::external_body]
pub struct ExThreadRng(ThreadRng);

/// The number of columns of an alias table.
pub uninterp spec fn table_len(t: WalkerTable) -> nat;

/// The columns that sampling an alias table can return.
pub uninterp spec fn table_reach(t: WalkerTable) -> Set<usize>;

/// Relies on `WalkerTableBuilder::new` and `WalkerTableBuilder::build` of
/// weighted_rand: the table has a column for each weight, returns only
/// columns of the row, and, when the row's sum is positive, only columns
/// of positive weight (a zero-weight column's threshold is exactly 1.0,
/// above any draw in [0, 1), and its alias always has positive weight).
/// With a total of at most 2^24 every threshold is computed exactly, so a
/// column of positive weight keeps a threshold below 1.0 and can be
/// returned. The builder multiplies each weight by the row's length and sums the
/// products in `u32`, hence the bound.
#[verifier::external_body]
fn build_table(row: &Vec<u32>) -> (t: WalkerTable)
    requires
        row.len() * weight_sum(as_ints(row@)) <= u32::MAX,
    ensures
        table_len(t) == row.len(),
        forall|c: usize| #[trigger] table_reach(t).contains(c) ==> c < row.len(),
        weight_sum(as_ints(row@)) > 0 ==> forall|c: usize|
            #[trigger] table_reach(t).contains(c) ==> row@[c as int] > 0,
        weight_sum(as_ints(row@)) <= 0x100_0000 ==> forall|c: usize|
            c < row.len() && #[trigger] row@[c as int] > 0 ==> table_reach(t).contains(c),
{
    WalkerTableBuilder::new(row.as_slice()).build()
}

/// Relies on `WalkerTable::next_rng` of weighted_rand: it returns one of
/// the columns that the table can return.
#[verifier::external_body]
fn sample_table(t: &WalkerTable, rng: &mut ThreadRng) -> (r: usize)
    requires
        table_len(*t) > 0,
    ensures
        table_reach(*t).contains(r),
{
    t.next_rng(rng)
}

/// Relies on `Rng::gen_range` of rand: a value drawn from `0..n`.
#[verifier::external_body]
pub(crate) fn uniform_below(rng: &mut ThreadRng, n: usize) -> (r: usize)
    requires
        n > 0,
    ensures
        r < n,
{
    rng.gen_range(0..n)
}

/// Relies on `rand::thread_rng`: the generator of the current thread.
#[verifier::external_body]
pub(crate) fn current_rng() -> (r: ThreadRng) {
    rand::thread_rng()
}

/// Why a sequence cannot be made into a model.
#[derive(Clone, Copy, Debug, PartialEq, Eq, Structural)]
pub enum ChainError {
    /// The sequence holds no element.
    EmptySequence,
    /// No element is followed by another: every row of the matrix is zero.
    AllDeadEnds,
    /// A row is too heavy for an alias table: its length times its sum
    /// exceeds `u32::MAX`.
    WeightOverflow,
}

/// The state generated last, if any.
#[derive(Clone, Copy, Debug, PartialEq, Eq, Structural)]
pub enum Cursor {
    /// No state yet: the next one starts from a uniformly drawn row.
    Unset,
    /// The position of the state generated last.
    At(usize),
}

/// A first-order Markov chain over the elements of a training sequence.
/// A row of zero total is never sampled: where the cursor stands on such a
/// row, or is unset, the row is drawn uniformly among the rows of positive
/// total.
#[derive(Debug, PartialEq)]
pub struct MarkovChain<T> {
    state_space: Vec<T>,
    rows: Vec<Vec<usize>>,
    wa_table: Vec<WalkerTable>,
    live: Vec<usize>,
    cursor: Cursor,
}

/// The transition counts out of state `a`: entry `b` counts how often an
/// element equal to `states[a]` is immediately followed by one equal to
/// `states[b]` in `elements`.
pub open spec fn frequency_row<T: Ord>(elements: Seq<T>, states: Seq<T>, a: int) -> Seq<int> {
    Seq::new(states.len(), |b: int| count_pairs_of(elements, states[a], states[b]) as int)
}

/// Some row of the transition matrix is too heavy for an alias table.
pub open spec fn too_heavy<T: Ord>(elements: Seq<T>, states: Seq<T>) -> bool {
    exists|a: int|
        0 <= a < states.len() && states.len() * weight_sum(#[trigger] frequency_row(elements, states, a))
            > u32::MAX
}

/// A sequence of two or more elements has a row of positive total: the row
/// of its second to last element.
pub(crate) proof fn lemma_some_row_live<T: Ord>(elements: Seq<T>, states: Seq<T>, matrix: Seq<Vec<usize>>)
    requires
        obeys_cmp::<T>(),
        elements.len() >= 2,
        is_state_space(states, elements),
        matrix.len() == states.len(),
        forall|r: int| 0 <= r < states.len() ==> #[trigger] matrix[r].len() == states.len(),
        forall|r: int, b: int|
            0 <= r < states.len() && 0 <= b < states.len() ==> #[trigger] matrix[r][b]
                == count_pairs_of(elements, states[r], states[b]),
    ensures
        exists|p: int| 0 <= p < states.len() && #[trigger] row_total(matrix, p) > 0,
{
    lemma_order_laws::<T>();
    let n = states.len();
    let len = elements.len();
    let x = elements[len - 2];
    let y = elements[len - 1];
    assert(covers(states, x));
    assert(covers(states, y));
    let p = choose|p: int| 0 <= p < n && same(#[trigger] states[p], x);
    let q = choose|q: int| 0 <= q < n && same(#[trigger] states[q], y);
    assert(same(x, states[p]));
    assert(same(y, states[q]));
    assert(count_pairs_of(elements, states[p], states[q]) >= 1);
    assert(matrix[p].len() == n);
    let w = counts_as_ints(matrix[p]@);
    assert(w[q] == count_pairs_of(elements, states[p], states[q]));
    assert(non_negative(w));
    lemma_weight_le_sum(w, q);
    assert(row_total(matrix, p) > 0);
}

impl<T: Copy + Ord> MarkovChain<T> {
    /// The states, in ascending order.
    pub closed spec fn states(&self) -> Seq<T> {
        self.state_space@
    }

    /// The transition counts, one row per state.
    pub closed spec fn counts(&self) -> Seq<Vec<usize>> {
        self.rows@
    }

    /// The alias tables, one per state.
    pub closed spec fn tables(&self) -> Seq<WalkerTable> {
        self.wa_table@
    }

    /// The rows of positive total.
    pub closed spec fn live_rows(&self) -> Seq<usize> {
        self.live@
    }

    /// The cursor.
    pub closed spec fn cursor_spec(&self) -> Cursor {
        self.cursor
    }

    /// Square counts over a non-empty state space, an alias table for each
    /// row that returns only columns of positive count where the row has
    /// any, the list of live rows, and a cursor on a state.
    pub closed spec fn wf(&self) -> bool {
        let n = self.state_space@.len();
        &&& n > 0
        &&& self.rows@.len() == n
        &&& self.wa_table@.len() == n
        &&& forall|a: int| 0 <= a < n ==> #[trigger] self.rows@[a].len() == n
        &&& forall|a: int| 0 <= a < n ==> #[trigger] table_len(self.wa_table@[a]) == n
        &&& forall|a: int, c: usize|
            0 <= a < n && #[trigger] table_reach(self.wa_table@[a]).contains(c) ==> c < n
        &&& forall|a: int, c: usize|
            0 <= a < n && row_total(self.rows@, a) > 0 && #[trigger] table_reach(
                self.wa_table@[a],
            ).contains(c) ==> self.rows@[a][c as int] > 0
        &&& self.live@.len() > 0
        &&& lists_live_rows(self.live@, self.rows@, n as int)
        &&& match self.cursor {
            Cursor::Unset => true,
            Cursor::At(i) => i < n,
        }
    }

    /// The model holds the state space of `elements` and their transition
    /// counts.
    pub open spec fn built_from(&self, elements: Seq<T>) -> bool {
        &&& is_state_space(self.states(), elements)
        &&& self.counts().len() == self.states().len()
        &&& forall|a: int|
            0 <= a < self.states().len() ==> #[trigger] self.counts()[a].len() == self.states().len()
        &&& forall|a: int, b: int|
            0 <= a < self.states().len() && 0 <= b < self.states().len() ==> #[trigger] self.counts()[a][b]
                == count_pairs_of(elements, self.states()[a], self.states()[b])
    }

    /// Each row has an alias table of one column per state that returns
    /// only columns of positive count where the row has any, and every such
    /// column where the row's total is at most 2^24.
    pub open spec fn tables_match(&self) -> bool {
        let n = self.states().len();
        &&& self.tables().len() == n
        &&& forall|a: int| 0 <= a < n ==> #[trigger] table_len(self.tables()[a]) == n
        &&& forall|a: int, c: usize|
            0 <= a < n && #[trigger] table_reach(self.tables()[a]).contains(c) ==> c < n
        &&& forall|a: int, c: usize|
            0 <= a < n && row_total(self.counts(), a) > 0 && #[trigger] table_reach(
                self.tables()[a],
            ).contains(c) ==> self.counts()[a][c as int] > 0
        &&& forall|a: int, c: usize|
            0 <= a < n && c < n && row_total(self.counts(), a) <= 0x100_0000 && #[trigger] self.counts()[a][c as int]
                > 0 ==> table_reach(self.tables()[a]).contains(c)
    }

    /// Moving the cursor to `next` takes a transition of positive count out
    /// of a row of positive total: the cursor's own row where it has
    /// positive total.
    pub open spec fn observed_step(&self, next: Cursor) -> bool {
        &&& next is At
        &&& exists|p: int|
            0 <= p < self.states().len() && row_total(self.counts(), p) > 0
                && #[trigger] self.counts()[p][next->At_0 as int] > 0 && (self.cursor_spec() is At
                && row_total(self.counts(), self.cursor_spec()->At_0 as int) > 0 ==> p
                == self.cursor_spec()->At_0)
    }

    /// The same model with its cursor unset.
    pub closed spec fn reset(&self) -> MarkovChain<T> {
        MarkovChain {
            state_space: self.state_space,
            rows: self.rows,
            wa_table: self.wa_table,
            live: self.live,
            cursor: Cursor::Unset,
        }
    }

    /// Builds a model from `elements`: their state space, the transition
    /// counts between consecutive elements, and an alias table for each row.
    #[verifier::rlimit(100)]
    pub fn from(elements: &[T]) -> (r: Result<MarkovChain<T>, ChainError>)
        requires
            obeys_cmp::<T>(),
        ensures
            elements@.len() == 0 <==> r == Err::<MarkovChain<T>, ChainError>(ChainError::EmptySequence),
            elements@.len() == 1 <==> r == Err::<MarkovChain<T>, ChainError>(ChainError::AllDeadEnds),
            r == Err::<MarkovChain<T>, ChainError>(ChainError::WeightOverflow) ==> exists|s: Seq<T>|
                is_state_space(s, elements@) && too_heavy(elements@, s),
            r is Ok ==> {
                let m = r->Ok_0;
                &&& m.wf()
                &&& m.built_from(elements@)
                &&& m.tables_match()
                &&& m.live_rows().len() > 0
                &&& lists_live_rows(m.live_rows(), m.counts(), m.states().len() as int)
                &&& m.cursor_spec() == Cursor::Unset
                &&& !too_heavy(elements@, m.states())
            },
    {
        proof {
            lemma_order_laws::<T>();
        }
        if elements.len() == 0 {
            return Err(ChainError::EmptySequence);
        }
        if elements.len() == 1 {
            return Err(ChainError::AllDeadEnds);
        }
        let states = state_space(elements);
        let n = states.len();
        assert(covers(states@, elements@[0]));
        let matrix = frequency_matrix(elements, &states);
        let mut tables: Vec<WalkerTable> = Vec::new();
        let mut live: Vec<usize> = Vec::new();
        let mut a: usize = 0;
        while a < n
            invariant
                elements@.len() >= 2,
                is_state_space(states@, elements@),
                a <= n,
                n == states.len(),
                n > 0,
                matrix.len() == n,
                forall|r: int| 0 <= r < n ==> #[trigger] matrix@[r].len() == n,
                forall|r: int, b: int|
                    0 <= r < n && 0 <= b < n ==> #[trigger] matrix@[r][b] == count_pairs_of(
                        elements@,
                        states@[r],
                        states@[b],
                    ),
                tables.len() == a,
                forall|r: int| 0 <= r < a ==> #[trigger] table_len(tables@[r]) == n,
                forall|r: int, c: usize|
                    0 <= r < a && #[trigger] table_reach(tables@[r]).contains(c) ==> c < n,
                forall|r: int, c: usize|
                    0 <= r < a && row_total(matrix@, r) > 0 && #[trigger] table_reach(
                        tables@[r],
                    ).contains(c) ==> matrix@[r][c as int] > 0,
                forall|r: int|
                    0 <= r < a ==> n * weight_sum(#[trigger] frequency_row(elements@, states@, r))
                        <= u32::MAX,
                forall|k: int| 0 <= k < live@.len() ==> #[trigger] live@[k] < a && row_total(
                    matrix@,
                    live@[k] as int,
                ) > 0,
                forall|r: int| 0 <= r < a && row_total(matrix@, r) > 0 ==> live@.contains(r as usize),
                forall|i: int, j: int| 0 <= i < j < live@.len() ==> live@[i] < live@[j],
                forall|r: int, c: usize|
                    0 <= r < a && c < n && row_total(matrix@, r) <= 0x100_0000 && #[trigger] matrix@[r][c as int]
                        > 0 ==> table_reach(tables@[r]).contains(c),
            decreases n - a,
        {
            let ghost freq = frequency_row(elements@, states@, a as int);
            assert(non_negative(freq));
            assert(matrix@[a as int].len() == n);
            assert(freq =~= counts_as_ints(matrix@[a as int]@));
            let mut row: Vec<u32> = Vec::new();
            let mut total: u64 = 0;
            let mut b: usize = 0;
            while b < n
                invariant
                    elements@.len() >= 2,
                    is_state_space(states@, elements@),
                    a < n,
                    b <= n,
                    n == states.len(),
                    freq == frequency_row(elements@, states@, a as int),
                    non_negative(freq),
                    matrix.len() == n,
                    forall|r: int| 0 <= r < n ==> #[trigger] matrix@[r].len() == n,
                    forall|r: int, c: int|
                        0 <= r < n && 0 <= c < n ==> #[trigger] matrix@[r][c] == count_pairs_of(
                            elements@,
                            states@[r],
                            states@[c],
                        ),
                    row.len() == b,
                    forall|c: int| 0 <= c < b ==> #[trigger] row@[c] as int == freq[c],
                    total == weight_sum(freq.take(b as int)),
                    total <= u32::MAX,
                decreases n - b,
            {
                let counts = &matrix[a];
                assert(counts.len() == n);
                let w = counts[b];
                proof {
                    lemma_weight_sum_step(freq, b as int);
                }
                if w as u64 > u32::MAX as u64 - total {
                    proof {
                        lemma_weight_sum_prefix(freq, b as int + 1);
                        assert(n * weight_sum(freq) >= weight_sum(freq)) by (nonlinear_arith)
                            requires
                                n >= 1,
                                weight_sum(freq) >= 0,
                        ;
                        assert(too_heavy(elements@, states@));
                    }
                    return Err(ChainError::WeightOverflow);
                }
                row.push(w as u32);
                total = total + w as u64;
                b = b + 1;
            }
            assert(freq.take(n as int) =~= freq);
            assert(as_ints(row@) =~= freq);
            if total > 0 && n as u64 > u32::MAX as u64 / total {
                proof {
                    lemma_exceeds_quotient(n as int, total as int, u32::MAX as int);
                    assert(too_heavy(elements@, states@));
                }
                return Err(ChainError::WeightOverflow);
            }
            proof {
                if total > 0 {
                    lemma_exceeds_quotient(n as int, total as int, u32::MAX as int);
                }
                assert(row_total(matrix@, a as int) == total);
            }
            let table = build_table(&row);
            let ghost prev_live = live@;
            if total > 0 {
                live.push(a);
            }
            tables.push(table);
            proof {
                assert(tables@[a as int] == table);
                assert forall|c: usize|
                    row_total(matrix@, a as int) > 0 && #[trigger] table_reach(table).contains(c)
                        implies matrix@[a as int][c as int] > 0 by {
                    assert(row@[c as int] as int == freq[c as int]);
                }
                assert forall|i: int, j: int| 0 <= i < j < live@.len() implies live@[i]
                    < live@[j] by {
                    if j < prev_live.len() {
                        assert(live@[i] == prev_live[i] && live@[j] == prev_live[j]);
                    } else {
                        assert(live@[i] == prev_live[i]);
                    }
                }
                assert forall|c: usize|
                    c < n && row_total(matrix@, a as int) <= 0x100_0000 && #[trigger] matrix@[a as int][c as int]
                        > 0 implies table_reach(table).contains(c) by {
                    assert(row@[c as int] as int == freq[c as int]);
                }
                assert forall|k: int| 0 <= k < live@.len() implies #[trigger] live@[k] < a + 1
                    && row_total(matrix@, live@[k] as int) > 0 by {
                    if k < prev_live.len() {
                        assert(live@[k] == prev_live[k]);
                    }
                }
                assert forall|r: int|
                    0 <= r < a + 1 && row_total(matrix@, r) > 0 implies live@.contains(
                    r as usize,
                ) by {
                    if r < a {
                        assert(prev_live.contains(r as usize));
                        let w = choose|w: int| 0 <= w < prev_live.len() && prev_live[w] == r as usize;
                        assert(live@[w] == r as usize);
                    } else {
                        assert(live@[live@.len() - 1] == a);
                    }
                }
            }
            a = a + 1;
        }
        proof {
            lemma_some_row_live(elements@, states@, matrix@);
            let p = choose|p: int| 0 <= p < n && #[trigger] row_total(matrix@, p) > 0;
            assert(live@.contains(p as usize));
        }
        let model = MarkovChain {
            state_space: states,
            rows: matrix,
            wa_table: tables,
            live,
            cursor: Cursor::Unset,
        };
        assert(model.wf());
        assert(model.built_from(elements@));
        assert(model.tables_match());
        assert(lists_live_rows(model.live_rows(), model.counts(), n as int));
        assert(!too_heavy(elements@, states@));
        Ok(model)
    }

    /// The row that the draw `k` among the rows of positive total selects:
    /// the cursor's own row where it has positive total, else the `k`-th
    /// row of positive total.
    pub fn row_for_draw(&self, k: usize) -> (p: usize)
        requires
            self.wf(),
            k < self.live_rows().len(),
        ensures
            p == (if self.cursor_spec() is At && row_total(
                self.counts(),
                self.cursor_spec()->At_0 as int,
            ) > 0 {
                self.cursor_spec()->At_0
            } else {
                self.live_rows()[k as int]
            }),
            p < self.states().len(),
            row_total(self.counts(), p as int) > 0,
    {
        if let Cursor::At(i) = self.cursor {
            if has_positive(&self.rows[i]) {
                return i;
            }
        }
        self.live[k]
    }

    /// Returns the next state, drawing from `rng`. The state returned
    /// becomes the cursor.
    pub fn next_rng(&mut self, rng: &mut ThreadRng) -> (r: &T)
        requires
            old(self).wf(),
        ensures
            final(self).wf(),
            final(self).states() == old(self).states(),
            final(self).counts() == old(self).counts(),
            final(self).tables() == old(self).tables(),
            final(self).live_rows() == old(self).live_rows(),
            final(self).cursor_spec() is At,
            final(self).cursor_spec()->At_0 < final(self).states().len(),
            *r == final(self).states()[final(self).cursor_spec()->At_0 as int],
            old(self).observed_step(final(self).cursor_spec()),
    {
        let k = uniform_below(rng, self.live.len());
        let p = self.row_for_draw(k);
        let column = sample_table(&self.wa_table[p], rng);
        assert(self.counts()[p as int][column as int] > 0);
        self.cursor = Cursor::At(column);
        &self.state_space[column]
    }

    /// Returns the next state, drawing from the current thread's generator.
    pub fn next(&mut self) -> (r: &T)
        requires
            old(self).wf(),
        ensures
            final(self).wf(),
            final(self).states() == old(self).states(),
            final(self).counts() == old(self).counts(),
            final(self).tables() == old(self).tables(),
            final(self).live_rows() == old(self).live_rows(),
            final(self).cursor_spec() is At,
            final(self).cursor_spec()->At_0 < final(self).states().len(),
            *r == final(self).states()[final(self).cursor_spec()->At_0 as int],
            old(self).observed_step(final(self).cursor_spec()),
    {
        let mut rng = current_rng();
        self.next_rng(&mut rng)
    }

    /// Unsets the cursor, so that the next state starts from a uniformly
    /// drawn row of positive total. Nothing else changes.
    pub fn initialize(&mut self)
        ensures
            *final(self) == old(self).reset(),
            final(self).states() == old(self).states(),
            final(self).counts() == old(self).counts(),
            final(self).tables() == old(self).tables(),
            final(self).live_rows() == old(self).live_rows(),
            final(self).cursor_spec() == Cursor::Unset,
            old(self).wf() ==> final(self).wf(),
    {
        self.cursor = Cursor::Unset;
    }

    /// The states, in ascending order.
    pub fn state_space(&self) -> (r: &Vec<T>)
        ensures
            r@ == self.states(),
    {
        &self.state_space
    }

    /// The transition counts, one row per state.
    pub fn transition_counts(&self) -> (r: &Vec<Vec<usize>>)
        ensures
            r@ == self.counts(),
    {
        &self.rows
    }

    /// The alias tables, one per state.
    pub fn wa_table(&self) -> (r: &Vec<WalkerTable>)
        ensures
            r@ == self.tables(),
            self.wf() ==> r@.len() == self.states().len(),
            self.wf() ==> forall|a: int| 0 <= a < r@.len() ==> #[trigger] table_len(r@[a]) == self.states().len(),
    {
        &self.wa_table
    }

    /// The cursor.
    pub fn cursor(&self) -> (r: Cursor)
        ensures
            r == self.cursor_spec(),
    {
        self.cursor
    }

    /// The position of the state generated last, or the number of states
    /// when the cursor is unset.
    pub fn prev_index(&self) -> (r: usize)
        ensures
            r == match self.cursor_spec() {
                Cursor::Unset => self.states().len() as int,
                Cursor::At(i) => i as int,
            },
    {
        match self.cursor {
            Cursor::Unset => self.state_space.len(),
            Cursor::At(i) => i,
        }
    }
}

/// Every state that a model built from `elements` generates is an element
/// of `elements`.
pub proof fn lemma_generated_state_observed<T: Copy + Ord>(m: MarkovChain<T>, elements: Seq<T>)
    requires
        m.wf(),
        m.built_from(elements),
        m.cursor_spec() is At,
    ensures
        elements.contains(m.states()[m.cursor_spec()->At_0 as int]),
{
    let i = m.cursor_spec()->At_0 as int;
    assert(0 <= i < m.states().len());
    assert(elements.contains(m.states()[i]));
}

/// Every state that a model built from `elements` generates follows,
/// somewhere in `elements`, an element equal to a state of positive row
/// total: the state generated before it, where that one has.
pub proof fn lemma_generated_pair_observed<T: Copy + Ord>(
    m: MarkovChain<T>,
    elements: Seq<T>,
    next: Cursor,
)
    requires
        m.built_from(elements),
        m.observed_step(next),
        next->At_0 < m.states().len(),
    ensures
        exists|p: int|
            0 <= p < m.states().len() && #[trigger] count_pairs_of(
                elements,
                m.states()[p],
                m.states()[next->At_0 as int],
            ) > 0 && (m.cursor_spec() is At && row_total(m.counts(), m.cursor_spec()->At_0 as int)
                > 0 ==> p == m.cursor_spec()->At_0),
{
    let p = choose|p: int|
        0 <= p < m.states().len() && row_total(m.counts(), p) > 0
            && #[trigger] m.counts()[p][next->At_0 as int] > 0 && (m.cursor_spec() is At
            && row_total(m.counts(), m.cursor_spec()->At_0 as int) > 0 ==> p
            == m.cursor_spec()->At_0);
    assert(m.counts()[p][next->At_0 as int] == count_pairs_of(
        elements,
        m.states()[p],
        m.states()[next->At_0 as int],
    ));
}

/// Unsetting the cursor twice leaves the model as unsetting it once does.
pub proof fn lemma_initialize_idempotent<T: Copy + Ord>(m: MarkovChain<T>)
    ensures
        m.reset().reset() == m.reset(),
        m.reset().states() == m.states(),
        m.reset().counts() == m.counts(),
        m.reset().tables() == m.tables(),
        m.reset().cursor_spec() == Cursor::Unset,
        m.wf() ==> m.reset().wf(),
{
}

/// After the cursor is unset, nothing of the state generated before is
/// left: two models that differ only in their cursors become equal.
pub proof fn lemma_initialize_forgets<T: Copy + Ord>(m1: MarkovChain<T>, m2: MarkovChain<T>)
    requires
        m1.states() == m2.states(),
        m1.counts() == m2.counts(),
        m1.tables() == m2.tables(),
        m1.live_rows() == m2.live_rows(),
    ensures
        m1.reset().states() == m2.reset().states(),
        m1.reset().counts() == m2.reset().counts(),
        m1.reset().tables() == m2.reset().tables(),
        m1.reset().live_rows() == m2.reset().live_rows(),
        m1.reset().cursor_spec() == Cursor::Unset,
        m2.reset().cursor_spec() == Cursor::Unset,
{
}

} // verus!
