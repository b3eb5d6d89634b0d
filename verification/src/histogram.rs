use vstd::prelude::*;
use vstd::std_specs::iter::IteratorSpec;

verus! {

/// Errors raised by histogram updates.
#[derive(Debug)]
pub enum HistogramError {
    /// A cell adjustment would take the cell below zero.
    WouldGoNegative { age_band: AgeBand, het_bin: HeterodoxyBin, current: u64, delta: i64 },
    /// A lone count adjustment would take the count below zero.
    Underflow { current: u64, delta: i64 },
    /// The cell addressed does not exist.
    OutOfBounds { age_band: AgeBand, het_bin: HeterodoxyBin },
}

/// Index in the histogram representing a heterodoxy bin.
#[derive(Debug, Clone, Copy, PartialEq, Eq, Structural)]
pub struct HeterodoxyBin(pub usize);

/// Index in the histogram representing an age band.
#[derive(Debug, Clone, Copy, PartialEq, Eq, Structural)]
pub struct AgeBand(pub usize);

/// Value of a histogram cell: the number of people in one (age band, heterodoxy bin) pair.
#[derive(Debug, Clone, Copy, PartialEq, Eq, Structural)]
pub struct Count(pub u64);

impl HeterodoxyBin {
    /// The bin's index.
    pub fn value(&self) -> (r: usize)
        ensures
            r == self.0,
    {
        self.0
    }
}

impl AgeBand {
    /// The band's index.
    pub fn value(&self) -> (r: usize)
        ensures
            r == self.0,
    {
        self.0
    }

    /// The youngest age (in years) that falls in this band when `max_age`
    /// years are split into `num_age_bins` equal bands, rounded down.
    pub fn get_age(&self, num_age_bins: usize, max_age: u8) -> (r: usize)
        requires
            num_age_bins > 0,
            self.0 * max_age <= usize::MAX,
        ensures
            r == (self.0 * max_age) / (num_age_bins as int),
    {
        let product: usize = self.value() * (max_age as usize);
        product / num_age_bins
    }
}

impl From<usize> for HeterodoxyBin {
    fn from(val: usize) -> (r: Self) {
        HeterodoxyBin(val)
    }
}

impl vstd::std_specs::convert::FromSpecImpl<usize> for HeterodoxyBin {
    open spec fn obeys_from_spec() -> bool {
        true
    }

    open spec fn from_spec(v: usize) -> HeterodoxyBin {
        HeterodoxyBin(v)
    }
}

impl From<usize> for AgeBand {
    fn from(val: usize) -> (r: Self) {
        AgeBand(val)
    }
}

impl vstd::std_specs::convert::FromSpecImpl<usize> for AgeBand {
    open spec fn obeys_from_spec() -> bool {
        true
    }

    open spec fn from_spec(v: usize) -> AgeBand {
        AgeBand(v)
    }
}

impl Count {
    /// Resets the count to zero.
    pub fn empty(&mut self)
        ensures
            final(self).0 == 0,
    {
        self.0 = 0;
    }

    /// Adds one person.
    pub fn increment(&mut self)
        requires
            old(self).0 < u64::MAX,
        ensures
            final(self).0 == old(self).0 + 1,
    {
        self.0 = self.0 + 1;
    }

    /// Adds `delta` (which may be negative). Fails, leaving the count as it
    /// was, exactly when the result would be negative.
    pub fn adjust(&mut self, delta: i64) -> (r: Result<i64, HistogramError>)
        requires
            old(self).0 <= i64::MAX,
            old(self).0 + delta <= i64::MAX,
        ensures
            old(self).0 + delta < 0 ==> r == Err::<i64, HistogramError>(
                HistogramError::Underflow { current: old(self).0, delta },
            ) && *final(self) == *old(self),
            old(self).0 + delta >= 0 ==> r == Ok::<i64, HistogramError>(delta) && final(self).0
                == old(self).0 + delta,
    {
        let new_val: i64 = self.0 as i64 + delta;
        if new_val < 0 {
            return Err(HistogramError::Underflow { current: self.0, delta });
        }
        self.0 = new_val as u64;
        Ok(delta)
    }

    /// The number of people in the cell.
    pub fn value(&self) -> (r: u64)
        ensures
            r == self.0,
    {
        self.0
    }
}

// ---------------------------------------------------------------------------
// Sums over rows and grids of counts
// ---------------------------------------------------------------------------

/// What cell `j` holding `c` contributes to a sum over the bins at or above
/// `from`: its count, or its count weighted by its bin index.
pub open spec fn cell_term(j: int, c: Count, from: int, weighted: bool) -> int {
    if j >= from {
        if weighted {
            j * c.0
        } else {
            c.0 as int
        }
    } else {
        0
    }
}

/// Sum of `cell_term` over one row (one age band).
pub open spec fn row_sum(row: Seq<Count>, from: int, weighted: bool) -> int
    decreases row.len(),
{
    if row.len() == 0 {
        0
    } else {
        row_sum(row.drop_last(), from, weighted) + cell_term(
            row.len() - 1,
            row.last(),
            from,
            weighted,
        )
    }
}

/// Sum of `row_sum` over every row of a grid.
pub open spec fn grid_sum(g: Seq<Seq<Count>>, from: int, weighted: bool) -> int
    decreases g.len(),
{
    if g.len() == 0 {
        0
    } else {
        grid_sum(g.drop_last(), from, weighted) + row_sum(g.last(), from, weighted)
    }
}

/// Number of people in one row.
pub open spec fn row_total(row: Seq<Count>) -> int {
    row_sum(row, 0, false)
}

/// Number of people in a grid.
pub open spec fn grid_total(g: Seq<Seq<Count>>) -> int {
    grid_sum(g, 0, false)
}

/// A row of `n` empty cells.
pub open spec fn zero_row(n: nat) -> Seq<Count> {
    Seq::new(n, |j: int| Count(0))
}

/// Every row of the grid has exactly `width` cells.
pub open spec fn is_rectangular(g: Seq<Seq<Count>>, width: nat) -> bool {
    forall|i: int| 0 <= i < g.len() ==> #[trigger] g[i].len() == width
}

/// The cell (`a`, `h`) exists in the grid.
pub open spec fn in_bounds(g: Seq<Seq<Count>>, a: int, h: int) -> bool {
    0 <= a < g.len() && 0 <= h < g[a].len()
}

/// Every cell term is non-negative.
pub proof fn lemma_cell_term_nonneg(j: int, c: Count, from: int, weighted: bool)
    requires
        j >= 0,
    ensures
        cell_term(j, c, from, weighted) >= 0,
{
    if j >= from && weighted {
        assert(j * c.0 >= 0) by (nonlinear_arith)
            requires
                j >= 0,
                c.0 >= 0,
        ;
    }
}

/// In a row of at most `m + 1` cells no bin index exceeds `m`, so the
/// index-weighted sum is at most `m` times the plain sum.
pub proof fn lemma_row_weighted_bound(row: Seq<Count>, from: int, m: int)
    requires
        0 <= m,
        row.len() <= m + 1,
    ensures
        row_sum(row, from, true) <= m * row_sum(row, from, false),
    decreases row.len(),
{
    if row.len() > 0 {
        let rest = row.drop_last();
        let j = row.len() - 1;
        let c = row.last().0 as int;
        lemma_row_weighted_bound(rest, from, m);
        let a = row_sum(rest, from, false);
        if j >= from {
            assert(j * c <= m * c) by (nonlinear_arith)
                requires
                    0 <= j <= m,
                    c >= 0,
            ;
            assert(m * (a + c) == m * a + m * c) by (nonlinear_arith);
        }
    }
}

/// Row sums are non-negative, and grow with the prefix of the row they cover.
pub proof fn lemma_row_sum_prefix(row: Seq<Count>, k: int, from: int, weighted: bool)
    requires
        0 <= k <= row.len(),
    ensures
        0 <= row_sum(row.take(k), from, weighted) <= row_sum(row, from, weighted),
    decreases row.len(),
{
    if k == row.len() {
        assert(row.take(k) =~= row);
        if row.len() > 0 {
            lemma_row_sum_prefix(row.drop_last(), row.len() - 1, from, weighted);
            assert(row.drop_last().take(row.len() - 1) =~= row.drop_last());
            lemma_cell_term_nonneg(row.len() - 1, row.last(), from, weighted);
        }
    } else {
        lemma_row_sum_prefix(row.drop_last(), k, from, weighted);
        assert(row.drop_last().take(k) =~= row.take(k));
        lemma_cell_term_nonneg(row.len() - 1, row.last(), from, weighted);
    }
}

/// Extending a prefix of a row by one cell adds that cell's term.
pub proof fn lemma_row_sum_step(row: Seq<Count>, k: int, from: int, weighted: bool)
    requires
        0 <= k < row.len(),
    ensures
        row_sum(row.take(k + 1), from, weighted) == row_sum(row.take(k), from, weighted)
            + cell_term(k, row[k], from, weighted),
{
    assert(row.take(k + 1).drop_last() =~= row.take(k));
}

/// Grid sums are non-negative, and grow with the prefix of rows they cover.
pub proof fn lemma_grid_sum_prefix(g: Seq<Seq<Count>>, k: int, from: int, weighted: bool)
    requires
        0 <= k <= g.len(),
    ensures
        0 <= grid_sum(g.take(k), from, weighted) <= grid_sum(g, from, weighted),
    decreases g.len(),
{
    if g.len() > 0 {
        lemma_row_sum_prefix(g.last(), g.last().len() as int, from, weighted);
        assert(g.last().take(g.last().len() as int) =~= g.last());
    }
    if k == g.len() {
        assert(g.take(k) =~= g);
        if g.len() > 0 {
            lemma_grid_sum_prefix(g.drop_last(), g.len() - 1, from, weighted);
            assert(g.drop_last().take(g.len() - 1) =~= g.drop_last());
        }
    } else {
        lemma_grid_sum_prefix(g.drop_last(), k, from, weighted);
        assert(g.drop_last().take(k) =~= g.take(k));
    }
}

/// Extending a prefix of a grid by one row adds that row's sum.
pub proof fn lemma_grid_sum_step(g: Seq<Seq<Count>>, k: int, from: int, weighted: bool)
    requires
        0 <= k < g.len(),
    ensures
        grid_sum(g.take(k + 1), from, weighted) == grid_sum(g.take(k), from, weighted) + row_sum(
            g[k],
            from,
            weighted,
        ),
{
    assert(g.take(k + 1).drop_last() =~= g.take(k));
}

/// Changing one cell of a row changes the row's sum by the change in that cell's term.
pub proof fn lemma_row_sum_update(row: Seq<Count>, j: int, c: Count, from: int, weighted: bool)
    requires
        0 <= j < row.len(),
    ensures
        row_sum(row.update(j, c), from, weighted) == row_sum(row, from, weighted) - cell_term(
            j,
            row[j],
            from,
            weighted,
        ) + cell_term(j, c, from, weighted),
    decreases row.len(),
{
    if j == row.len() - 1 {
        assert(row.update(j, c).drop_last() =~= row.drop_last());
    } else {
        lemma_row_sum_update(row.drop_last(), j, c, from, weighted);
        assert(row.update(j, c).drop_last() =~= row.drop_last().update(j, c));
    }
}

/// Replacing one row of a grid changes the grid's sum by the change in that row's sum.
pub proof fn lemma_grid_sum_update(
    g: Seq<Seq<Count>>,
    i: int,
    r: Seq<Count>,
    from: int,
    weighted: bool,
)
    requires
        0 <= i < g.len(),
    ensures
        grid_sum(g.update(i, r), from, weighted) == grid_sum(g, from, weighted) - row_sum(
            g[i],
            from,
            weighted,
        ) + row_sum(r, from, weighted),
    decreases g.len(),
{
    if i == g.len() - 1 {
        assert(g.update(i, r).drop_last() =~= g.drop_last());
    } else {
        lemma_grid_sum_update(g.drop_last(), i, r, from, weighted);
        assert(g.update(i, r).drop_last() =~= g.drop_last().update(i, r));
    }
}

/// The sum over two grids laid end to end is the sum of their sums.
pub proof fn lemma_grid_sum_concat(a: Seq<Seq<Count>>, b: Seq<Seq<Count>>, from: int, weighted: bool)
    ensures
        grid_sum(a + b, from, weighted) == grid_sum(a, from, weighted) + grid_sum(
            b,
            from,
            weighted,
        ),
    decreases b.len(),
{
    if b.len() == 0 {
        assert(a + b =~= a);
    } else {
        lemma_grid_sum_concat(a, b.drop_last(), from, weighted);
        assert((a + b).drop_last() =~= a + b.drop_last());
    }
}

/// A row of empty cells sums to zero.
pub proof fn lemma_zero_row_sum(n: nat, from: int, weighted: bool)
    ensures
        row_sum(zero_row(n), from, weighted) == 0,
    decreases n,
{
    if n > 0 {
        lemma_zero_row_sum((n - 1) as nat, from, weighted);
        assert(zero_row(n).drop_last() =~= zero_row((n - 1) as nat));
        assert(j_times_zero(n - 1, weighted));
    }
}

/// Helper: an empty cell contributes nothing to a weighted sum.
pub open spec fn j_times_zero(j: int, weighted: bool) -> bool {
    weighted ==> j * 0 == 0
}

/// A grid whose rows are all empty sums to zero.
pub proof fn lemma_zero_grid_sum(g: Seq<Seq<Count>>, from: int, weighted: bool)
    requires
        forall|i: int| 0 <= i < g.len() ==> #[trigger] g[i] == zero_row(g[i].len()),
    ensures
        grid_sum(g, from, weighted) == 0,
    decreases g.len(),
{
    if g.len() > 0 {
        lemma_zero_grid_sum(g.drop_last(), from, weighted);
        lemma_zero_row_sum(g.last().len(), from, weighted);
        assert(g[g.len() - 1] == zero_row(g[g.len() - 1].len()));
    }
}

// ---------------------------------------------------------------------------
// The histogram
// ---------------------------------------------------------------------------

/// Histogram of population counts indexed by `[age_band][het_bin]`.
#[derive(Debug, Clone, PartialEq, Eq)]
pub struct PopulationHistogram {
    counts: Vec<Vec<Count>>,
}

/// The rows of a grid of vectors, seen as sequences.
pub open spec fn rows_view(counts: Seq<Vec<Count>>) -> Seq<Seq<Count>> {
    counts.map_values(|row: Vec<Count>| row@)
}

impl View for PopulationHistogram {
    type V = Seq<Seq<Count>>;

    closed spec fn view(&self) -> Seq<Seq<Count>> {
        rows_view(self.counts@)
    }
}

impl PopulationHistogram {
    /// The cell at (`age`, `het`), if it exists.
    pub fn get(&self, age: AgeBand, het: HeterodoxyBin) -> (r: Option<&Count>)
        ensures
            in_bounds(self@, age.0 as int, het.0 as int) ==> r == Some(
                &self@[age.0 as int][het.0 as int],
            ),
            !in_bounds(self@, age.0 as int, het.0 as int) ==> r is None,
    {
        if age.0 < self.counts.len() {
            let row = &self.counts[age.0];
            if het.0 < row.len() {
                return Some(&row[het.0]);
            }
        }
        None
    }

    /// The cell at (`age`, `het`) to change in place, if it exists; the rest
    /// of the histogram stays as it is.
    pub fn get_mut(&mut self, age: AgeBand, het: HeterodoxyBin) -> (r: Option<&mut Count>)
        ensures
            !in_bounds(old(self)@, age.0 as int, het.0 as int) ==> r is None && final(self)@ == old(self)@,
            in_bounds(old(self)@, age.0 as int, het.0 as int) ==> r is Some && *r.unwrap()
                == old(self)@[age.0 as int][het.0 as int] && final(self)@ == set_cell(
                old(self)@,
                age.0 as int,
                het.0 as int,
                final(r.unwrap()).0,
            ),
    {
        if age.0 < self.counts.len() && het.0 < self.counts[age.0].len() {
            Some(&mut self.counts[age.0][het.0])
        } else {
            None
        }
    }

    /// The cells of one age band, if it exists.
    pub fn get_age_band(&self, age: AgeBand) -> (r: Option<&[Count]>)
        ensures
            (age.0 < self@.len()) == (r is Some),
            r matches Some(s) ==> s@ == self@[age.0 as int],
    {
        if age.0 < self.counts.len() {
            Some(self.counts[age.0].as_slice())
        } else {
            None
        }
    }

    /// An empty histogram with `num_age_bands` rows of `num_het_bins + 1` cells.
    pub fn new(num_het_bins: usize, num_age_bands: usize) -> (r: Self)
        requires
            num_het_bins < usize::MAX,
        ensures
            r@.len() == num_age_bands,
            forall|i: int| 0 <= i < num_age_bands ==> #[trigger] r@[i] == zero_row(
                (num_het_bins + 1) as nat,
            ),
            is_rectangular(r@, (num_het_bins + 1) as nat),
            grid_total(r@) == 0,
    {
        let width: usize = num_het_bins + 1;
        let mut counts: Vec<Vec<Count>> = Vec::new();
        let mut i: usize = 0;
        while i < num_age_bands
            invariant
                i <= num_age_bands,
                width == num_het_bins + 1,
                counts@.len() == i,
                forall|k: int| 0 <= k < i ==> #[trigger] counts@[k]@ == zero_row(width as nat),
            decreases num_age_bands - i,
        {
            let mut row: Vec<Count> = Vec::new();
            let mut j: usize = 0;
            while j < width
                invariant
                    j <= width,
                    row@ == zero_row(j as nat),
                decreases width - j,
            {
                row.push(Count(0));
                j = j + 1;
                assert(row@ =~= zero_row(j as nat));
            }
            counts.push(row);
            i = i + 1;
        }
        let r = PopulationHistogram { counts };
        proof {
            assert forall|k: int| 0 <= k < num_age_bands implies #[trigger] r@[k] == zero_row(
                width as nat,
            ) by {
                assert(r@[k] == counts@[k]@);
            }
            lemma_zero_grid_sum(r@, 0, false);
        }
        r
    }

    /// Takes the rows out, leaving the histogram with none.
    pub fn take_counts(&mut self) -> (r: Vec<Vec<Count>>)
        ensures
            rows_view(r@) == old(self)@,
            final(self)@.len() == 0,
    {
        let mut taken: Vec<Vec<Count>> = Vec::new();
        core::mem::swap(&mut self.counts, &mut taken);
        proof {
            assert(rows_view(self.counts@) =~= Seq::<Seq<Count>>::empty());
        }
        taken
    }

    /// Number of people in the histogram, or `None` when that number does not
    /// fit in a `u64`.
    pub fn checked_total(&self) -> (r: Option<u64>)
        ensures
            match r {
                Some(t) => t == grid_total(self@),
                None => grid_total(self@) > u64::MAX,
            },
    {
        let mut acc: u64 = 0;
        let mut i: usize = 0;
        while i < self.counts.len()
            invariant
                i <= self@.len(),
                self@.len() == self.counts@.len(),
                acc == grid_sum(self@.take(i as int), 0, false),
            decreases self@.len() - i,
        {
            let row = &self.counts[i];
            proof {
                assert(row@ == self@[i as int]);
                lemma_grid_sum_step(self@, i as int, 0, false);
                lemma_grid_sum_prefix(self@, i + 1, 0, false);
                assert(row@.take(0) =~= Seq::<Count>::empty());
            }
            let mut j: usize = 0;
            while j < row.len()
                invariant
                    j <= row@.len(),
                    i < self@.len(),
                    row@ == self@[i as int],
                    acc == grid_sum(self@.take(i as int), 0, false) + row_sum(row@.take(j as int), 0, false),
                    grid_sum(self@.take(i + 1), 0, false) == grid_sum(self@.take(i as int), 0, false)
                        + row_sum(self@[i as int], 0, false),
                    grid_sum(self@.take(i + 1), 0, false) <= grid_total(self@),
                decreases row@.len() - j,
            {
                proof {
                    lemma_row_sum_step(row@, j as int, 0, false);
                    lemma_row_sum_prefix(row@, j + 1, 0, false);
                }
                match acc.checked_add(row[j].0) {
                    Some(v) => {
                        acc = v;
                    },
                    None => {
                        return None;
                    },
                }
                j = j + 1;
            }
            proof {
                assert(row@.take(row@.len() as int) =~= row@);
            }
            i = i + 1;
        }
        assert(self@.take(self@.len() as int) =~= self@);
        Some(acc)
    }

    /// Replaces the rows with `new_counts`.
    pub fn swap_counts(&mut self, new_counts: Vec<Vec<Count>>)
        ensures
            final(self)@ == rows_view(new_counts@),
    {
        self.counts = new_counts;
    }

    /// Number of people in the histogram.
    pub fn total(&self) -> (r: u64)
        requires
            grid_total(self@) <= u64::MAX,
        ensures
            r == grid_total(self@),
    {
        let (_, total) = self.sums_from(0, false);
        total
    }

    /// Drops every row, freeing the memory. Meant for a religion that has died out.
    pub fn clear(&mut self)
        ensures
            final(self)@.len() == 0,
    {
        self.counts = Vec::new();
        proof {
            assert(rows_view(self.counts@) =~= Seq::<Seq<Count>>::empty());
        }
    }

    /// Number of people in one age band, if it exists.
    pub fn total_in_age_band(&self, age_band: AgeBand) -> (r: Option<u64>)
        requires
            age_band.0 < self@.len() ==> row_total(self@[age_band.0 as int]) <= u64::MAX,
        ensures
            (age_band.0 < self@.len()) == (r is Some),
            r matches Some(t) ==> t == row_total(self@[age_band.0 as int]),
    {
        if age_band.0 < self.counts.len() {
            let row = &self.counts[age_band.0];
            assert(row@ == self@[age_band.0 as int]);
            Some(Self::row_sum_exec(row, 0, false))
        } else {
            None
        }
    }

    /// Sum of the cell terms of one row, computed in 128-bit arithmetic.
    fn row_sum_exec(row: &Vec<Count>, from: usize, weighted: bool) -> (r: u64)
        requires
            row_sum(row@, from as int, weighted) <= u64::MAX,
        ensures
            r == row_sum(row@, from as int, weighted),
    {
        let mut acc: u64 = 0;
        let mut j: usize = 0;
        while j < row.len()
            invariant
                j <= row@.len(),
                row_sum(row@, from as int, weighted) <= u64::MAX,
                acc == row_sum(row@.take(j as int), from as int, weighted),
            decreases row@.len() - j,
        {
            proof {
                lemma_row_sum_step(row@, j as int, from as int, weighted);
                lemma_row_sum_prefix(row@, j + 1, from as int, weighted);
                lemma_cell_term_nonneg(j as int, row@[j as int], from as int, weighted);
            }
            if j >= from {
                let c: u64 = row[j].0;
                if weighted {
                    assert((j as int) * (c as int) <= u64::MAX);
                    acc = acc + (j as u64) * c;
                } else {
                    acc = acc + c;
                }
            }
            j = j + 1;
        }
        assert(row@.take(row@.len() as int) =~= row@);
        acc
    }

    /// Weighted and plain sums of the cells at or above bin `from`, over every row.
    fn sums_from(&self, from: usize, weighted_too: bool) -> (r: (u128, u64))
        requires
            grid_sum(self@, from as int, false) <= u64::MAX,
        ensures
            r.1 == grid_sum(self@, from as int, false),
            weighted_too ==> r.0 == grid_sum(self@, from as int, true),
    {
        let mut weighted_acc: u128 = 0;
        let mut plain_acc: u64 = 0;
        let mut i: usize = 0;
        while i < self.counts.len()
            invariant
                i <= self@.len(),
                self@.len() == self.counts@.len(),
                grid_sum(self@, from as int, false) <= u64::MAX,
                plain_acc == grid_sum(self@.take(i as int), from as int, false),
                weighted_too ==> weighted_acc == grid_sum(self@.take(i as int), from as int, true),
                weighted_too ==> weighted_acc <= (usize::MAX as int) * plain_acc,
            decreases self@.len() - i,
        {
            let row = &self.counts[i];
            proof {
                assert(row@ == self@[i as int]);
                lemma_grid_sum_step(self@, i as int, from as int, false);
                lemma_grid_sum_prefix(self@, i + 1, from as int, false);
                if weighted_too {
                    lemma_grid_sum_step(self@, i as int, from as int, true);
                    lemma_grid_sum_prefix(self@, i + 1, from as int, true);
                }
                lemma_row_sum_prefix(row@, row@.len() as int, from as int, false);
                lemma_row_sum_prefix(row@, row@.len() as int, from as int, true);
                assert(row@.take(row@.len() as int) =~= row@);
                lemma_grid_sum_prefix(self@, i as int, from as int, false);
                lemma_grid_sum_prefix(self@, i as int, from as int, true);
            }
            let plain_row: u64 = Self::row_sum_exec(row, from, false);
            if weighted_too {
                let row_len: usize = row.len();
                proof {
                    lemma_row_weighted_bound(row@, from as int, usize::MAX as int);
                    let m = usize::MAX as int;
                    let p = plain_acc as int;
                    let q = plain_row as int;
                    assert(m * p + m * q == m * (p + q) && m * (p + q) <= m * (u64::MAX as int)) by (nonlinear_arith)
                        requires
                            0 <= m,
                            0 <= p,
                            0 <= q,
                            p + q <= u64::MAX,
                    ;
                    assert(m * (u64::MAX as int) <= u128::MAX) by (nonlinear_arith)
                        requires
                            m == usize::MAX as int,
                            usize::MAX <= u64::MAX,
                    ;
                }
                let weighted_row: u128 = Self::row_weighted_sum_exec(row, from);
                weighted_acc = weighted_acc + weighted_row;
            }
            plain_acc = plain_acc + plain_row;
            i = i + 1;
        }
        assert(self@.take(self@.len() as int) =~= self@);
        (weighted_acc, plain_acc)
    }

    /// Index-weighted sum of the cells of one row at or above bin `from`.
    fn row_weighted_sum_exec(row: &Vec<Count>, from: usize) -> (r: u128)
        requires
            row_sum(row@, from as int, true) <= u128::MAX,
        ensures
            r == row_sum(row@, from as int, true),
    {
        let mut acc: u128 = 0;
        let mut j: usize = 0;
        while j < row.len()
            invariant
                j <= row@.len(),
                row_sum(row@, from as int, true) <= u128::MAX,
                acc == row_sum(row@.take(j as int), from as int, true),
            decreases row@.len() - j,
        {
            proof {
                lemma_row_sum_step(row@, j as int, from as int, true);
                lemma_row_sum_prefix(row@, j + 1, from as int, true);
                lemma_cell_term_nonneg(j as int, row@[j as int], from as int, true);
            }
            if j >= from {
                let c: u64 = row[j].0;
                assert((j as int) * (c as int) <= u128::MAX);
                acc = acc + (j as u128) * (c as u128);
            }
            j = j + 1;
        }
        assert(row@.take(row@.len() as int) =~= row@);
        acc
    }

    /// Adds `delta` (which may be negative) to the cell at (`age_band`,
    /// `het_bin`). Fails if the cell does not exist, or, leaving the
    /// histogram as it was, if the cell would go below zero.
    pub fn adjust(&mut self, age_band: AgeBand, het_bin: HeterodoxyBin, delta: i64) -> (r: Result<
        i64,
        HistogramError,
    >)
        requires
            in_bounds(old(self)@, age_band.0 as int, het_bin.0 as int) ==> {
                let c = old(self)@[age_band.0 as int][het_bin.0 as int].0;
                c <= i64::MAX && c + delta <= i64::MAX
            },
        ensures
            !in_bounds(old(self)@, age_band.0 as int, het_bin.0 as int) ==> r == Err::<
                i64,
                HistogramError,
            >(HistogramError::OutOfBounds { age_band, het_bin }) && final(self)@ == old(self)@,
            in_bounds(old(self)@, age_band.0 as int, het_bin.0 as int) ==> {
                let c = old(self)@[age_band.0 as int][het_bin.0 as int].0;
                &&& c + delta < 0 ==> r == Err::<i64, HistogramError>(
                    HistogramError::WouldGoNegative { age_band, het_bin, current: c, delta },
                ) && final(self)@ == old(self)@
                &&& c + delta >= 0 ==> r == Ok::<i64, HistogramError>(delta) && final(self)@
                    == set_cell(old(self)@, age_band.0 as int, het_bin.0 as int, (c + delta) as u64)
            },
    {
        let a = age_band.0;
        let h = het_bin.0;
        if a >= self.counts.len() || h >= self.counts[a].len() {
            return Err(HistogramError::OutOfBounds { age_band, het_bin });
        }
        let current: u64 = self.counts[a][h].0;
        assert(current == self@[a as int][h as int].0);
        let new_val: i64 = current as i64 + delta;
        if new_val < 0 {
            return Err(HistogramError::WouldGoNegative { age_band, het_bin, current, delta });
        }
        self.set_cell_exec(a, h, new_val as u64);
        Ok(delta)
    }

    /// Overwrites one existing cell.
    fn set_cell_exec(&mut self, a: usize, h: usize, value: u64)
        requires
            in_bounds(old(self)@, a as int, h as int),
        ensures
            final(self)@ == set_cell(old(self)@, a as int, h as int, value),
    {
        let mut row: Vec<Count> = Vec::new();
        core::mem::swap(&mut row, &mut self.counts[a]);
        assert(row@ == old(self)@[a as int]);
        row.set(h, Count(value));
        core::mem::swap(&mut row, &mut self.counts[a]);
        assert(self@ =~= set_cell(old(self)@, a as int, h as int, value));
    }

    /// The rows of the histogram, each paired with its age band, and each
    /// cell paired with its heterodoxy bin.
    pub fn iter_bands(&self) -> (r: Vec<(AgeBand, Vec<(HeterodoxyBin, Count)>)>)
        ensures
            r@.len() == self@.len(),
            forall|i: int|
                0 <= i < r@.len() ==> {
                    &&& (#[trigger] r@[i]).0 == AgeBand(i as usize)
                    &&& r@[i].1@.len() == self@[i].len()
                    &&& forall|j: int|
                        0 <= j < r@[i].1@.len() ==> #[trigger] r@[i].1@[j] == (
                            HeterodoxyBin(j as usize),
                            self@[i][j],
                        )
                },
    {
        let mut out: Vec<(AgeBand, Vec<(HeterodoxyBin, Count)>)> = Vec::new();
        let mut i: usize = 0;
        while i < self.counts.len()
            invariant
                i <= self@.len(),
                self@.len() == self.counts@.len(),
                out@.len() == i,
                forall|k: int|
                    0 <= k < i ==> {
                        &&& (#[trigger] out@[k]).0 == AgeBand(k as usize)
                        &&& out@[k].1@.len() == self@[k].len()
                        &&& forall|j: int|
                            0 <= j < out@[k].1@.len() ==> #[trigger] out@[k].1@[j] == (
                                HeterodoxyBin(j as usize),
                                self@[k][j],
                            )
                    },
            decreases self@.len() - i,
        {
            let row = &self.counts[i];
            assert(row@ == self@[i as int]);
            let mut cells: Vec<(HeterodoxyBin, Count)> = Vec::new();
            let mut j: usize = 0;
            while j < row.len()
                invariant
                    j <= row@.len(),
                    cells@.len() == j,
                    forall|m: int|
                        0 <= m < j ==> #[trigger] cells@[m] == (HeterodoxyBin(m as usize), row@[m]),
                decreases row@.len() - j,
            {
                cells.push((HeterodoxyBin(j), row[j]));
                j = j + 1;
            }
            out.push((AgeBand(i), cells));
            i = i + 1;
        }
        out
    }

    /// An iterator over the rows.
    pub fn iter(&self) -> (r: core::slice::Iter<'_, Vec<Count>>)
        ensures
            r.remaining().len() == self@.len(),
            forall|i: int| 0 <= i < self@.len() ==> (#[trigger] r.remaining()[i])@ == self@[i],
    {
        let it = self.counts.iter();
        proof {
            broadcast use vstd::std_specs::slice::axiom_spec_slice_iter;

        }
        it
    }

    /// Index-weighted and plain sums of the cells at or above `threshold`,
    /// over every age band, together with the number of heterodoxy bins
    /// (one less than the length of the first row). `None` when there is no
    /// first row, it is empty, or it has a single cell: then there is no mean
    /// heterodoxy to speak of. The mean heterodoxy of the cells counted is
    /// `weighted / (bins * total)` when `total` is positive.
    pub fn heterodoxy_sums_above(&self, threshold: HeterodoxyBin) -> (r: Option<(u128, u64, usize)>)
        requires
            grid_sum(self@, threshold.0 as int, false) <= u64::MAX,
        ensures
            (self@.len() == 0 || self@[0].len() <= 1) <==> r is None,
            r matches Some(t) ==> {
                &&& t.0 == grid_sum(self@, threshold.0 as int, true)
                &&& t.1 == grid_sum(self@, threshold.0 as int, false)
                &&& t.2 == self@[0].len() - 1
            },
    {
        if self.counts.len() == 0 {
            return None;
        }
        let first_len = self.counts[0].len();
        assert(first_len == self@[0].len());
        if first_len == 0 {
            return None;
        }
        let num_het_bins = first_len - 1;
        if num_het_bins == 0 {
            return None;
        }
        let (weighted, total) = self.sums_from(threshold.0, true);
        Some((weighted, total, num_het_bins))
    }

    /// Number of people in the bins at or above `threshold`, over every age
    /// band: the heterodox wing a schism is weighed by.
    pub fn count_at_or_above(&self, threshold: HeterodoxyBin) -> (r: u64)
        requires
            grid_sum(self@, threshold.0 as int, false) <= u64::MAX,
        ensures
            r == grid_sum(self@, threshold.0 as int, false),
    {
        let (_, count) = self.sums_from(threshold.0, false);
        count
    }

    /// A histogram of `num_age_bands` bands and `num_het_bins + 1` bins
    /// holding one person for every entry of `cells`, in the cell that entry
    /// names. Fails when an entry names a cell outside that shape; the error
    /// names it.
    pub fn tally(num_het_bins: usize, num_age_bands: usize, cells: &Vec<(AgeBand, HeterodoxyBin)>) -> (r:
        Result<PopulationHistogram, HistogramError>)
        requires
            num_het_bins < usize::MAX,
            cells@.len() <= i64::MAX,
        ensures
            r is Ok <==> forall|k: int|
                0 <= k < cells@.len() ==> cell_fits(#[trigger] cells@[k], num_het_bins as int, num_age_bands as int),
            r matches Ok(h) ==> {
                &&& h@.len() == num_age_bands
                &&& is_rectangular(h@, (num_het_bins + 1) as nat)
                &&& forall|a: int, b: int|
                    0 <= a < num_age_bands && 0 <= b <= num_het_bins ==> #[trigger] h@[a][b].0
                        == cell_count(cells@, a, b)
                &&& grid_total(h@) == cells@.len()
            },
            r matches Err(e) ==> match e {
                HistogramError::OutOfBounds { age_band, het_bin } => {
                    &&& cells@.contains((age_band, het_bin))
                    &&& !cell_fits((age_band, het_bin), num_het_bins as int, num_age_bands as int)
                },
                HistogramError::WouldGoNegative { .. } => false,
                HistogramError::Underflow { .. } => false,
            },
    {
        let mut h = PopulationHistogram::new(num_het_bins, num_age_bands);
        let mut k: usize = 0;
        while k < cells.len()
            invariant
                k <= cells@.len(),
                cells@.len() <= i64::MAX,
                num_het_bins < usize::MAX,
                h@.len() == num_age_bands,
                is_rectangular(h@, (num_het_bins + 1) as nat),
                forall|a: int, b: int|
                    0 <= a < num_age_bands && 0 <= b <= num_het_bins ==> #[trigger] h@[a][b].0
                        == cell_count(cells@.take(k as int), a, b),
                grid_total(h@) == k,
                forall|q: int| 0 <= q < k ==> cell_fits(#[trigger] cells@[q], num_het_bins as int, num_age_bands as int),
            decreases cells@.len() - k,
        {
            let (a, b) = cells[k];
            let ghost before = h@;
            proof {
                assert(cells@.take(k + 1).drop_last() =~= cells@.take(k as int));
                if in_bounds(before, a.0 as int, b.0 as int) {
                    lemma_cell_count_bound(cells@.take(k as int), a.0 as int, b.0 as int);
                }
            }
            match h.adjust(a, b, 1) {
                Ok(_) => {},
                Err(e) => {
                    proof {
                        assert(cells@[k as int] == (a, b));
                    }
                    return Err(e);
                },
            }
            proof {
                let c = before[a.0 as int][b.0 as int];
                lemma_row_sum_update(before[a.0 as int], b.0 as int, Count((c.0 + 1) as u64), 0, false);
                lemma_grid_sum_update(before, a.0 as int, before[a.0 as int].update(b.0 as int, Count((c.0 + 1) as u64)), 0, false);
                assert forall|x: int, y: int|
                    0 <= x < num_age_bands && 0 <= y <= num_het_bins implies #[trigger] h@[x][y].0
                        == cell_count(cells@.take(k + 1), x, y) by {
                    if x != a.0 {
                        assert(h@[x] == before[x]);
                    }
                }
            }
            k = k + 1;
        }
        assert(cells@.take(cells@.len() as int) =~= cells@);
        Ok(h)
    }

    /// Checks that `amounts` can be taken out: succeeds exactly when every
    /// positive amount lies on an existing cell holding at least that many.
    /// The error names an offending cell: one outside the histogram, or one
    /// that would go below zero.
    pub fn check_removal(&self, amounts: &Vec<Vec<Count>>) -> (r: Result<(), HistogramError>)
        requires
            forall|i: int, j: int|
                0 <= i < amounts@.len() && 0 <= j < amounts@[i]@.len() ==> #[trigger] amounts@[i]@[j].0
                    <= i64::MAX,
        ensures
            r is Ok <==> fits_under(rows_view(amounts@), self@),
            r matches Err(e) ==> removal_error(rows_view(amounts@), self@, e),
    {
        let ghost av = rows_view(amounts@);
        let ghost g0 = self@;
        // first pass: every amount must fit
        let mut i: usize = 0;
        while i < amounts.len()
            invariant
                i <= av.len(),
                av == rows_view(amounts@),
                self@ == g0,
                self@.len() == self.counts@.len(),
                forall|p: int, q: int|
                    0 <= p < i && 0 <= q < av[p].len() && av[p][q].0 > 0 ==> in_bounds(g0, p, q)
                        && #[trigger] av[p][q].0 <= g0[p][q].0,
                forall|p: int, q: int|
                    0 <= p < amounts@.len() && 0 <= q < amounts@[p]@.len() ==> #[trigger] amounts@[p]@[q].0
                        <= i64::MAX,
            decreases av.len() - i,
        {
            let row = &amounts[i];
            assert(row@ == av[i as int]);
            let mut j: usize = 0;
            while j < row.len()
                invariant
                    i < av.len(),
                    j <= av[i as int].len(),
                    row@ == av[i as int],
                    av == rows_view(amounts@),
                    self@ == g0,
                    self@.len() == self.counts@.len(),
                    forall|p: int, q: int|
                        0 <= p < i && 0 <= q < av[p].len() && av[p][q].0 > 0 ==> in_bounds(g0, p, q)
                            && #[trigger] av[p][q].0 <= g0[p][q].0,
                    forall|q: int|
                        0 <= q < j && av[i as int][q].0 > 0 ==> in_bounds(g0, i as int, q) && #[trigger] av[i as int][q].0
                            <= g0[i as int][q].0,
                    forall|p: int, q: int|
                        0 <= p < amounts@.len() && 0 <= q < amounts@[p]@.len() ==> #[trigger] amounts@[p]@[q].0
                            <= i64::MAX,
                decreases av[i as int].len() - j,
            {
                let amt: u64 = row[j].0;
                if amt > 0 {
                    if i >= self.counts.len() || j >= self.counts[i].len() {
                        return Err(
                            HistogramError::OutOfBounds { age_band: AgeBand(i), het_bin: HeterodoxyBin(j) },
                        );
                    }
                    let current: u64 = self.counts[i][j].0;
                    assert(current == g0[i as int][j as int].0);
                    if amt > current {
                        assert(amounts@[i as int]@[j as int].0 <= i64::MAX);
                        let delta: i64 = -(amt as i64);
                        return Err(
                            HistogramError::WouldGoNegative {
                                age_band: AgeBand(i),
                                het_bin: HeterodoxyBin(j),
                                current,
                                delta,
                            },
                        );
                    }
                }
                j = j + 1;
            }
            i = i + 1;
        }
        assert(fits_under(av, g0));
        Ok(())
    }

    /// Takes `amounts[i][j]` people out of cell (`i`, `j`) for every cell of
    /// `amounts`. Succeeds exactly when every positive amount lies on an
    /// existing cell holding at least that many; then the histogram loses
    /// exactly the amounts' total. On failure the histogram is left as it
    /// was and the error names an offending cell: one outside the histogram,
    /// or one that would go below zero.
    pub fn remove_counts(&mut self, amounts: &Vec<Vec<Count>>) -> (r: Result<(), HistogramError>)
        requires
            forall|i: int, j: int|
                0 <= i < amounts@.len() && 0 <= j < amounts@[i]@.len() ==> #[trigger] amounts@[i]@[j].0
                    <= i64::MAX,
        ensures
            r is Ok <==> fits_under(rows_view(amounts@), old(self)@),
            r is Ok ==> final(self)@ == subtract_grid(old(self)@, rows_view(amounts@)) && grid_total(
                final(self)@,
            ) == grid_total(old(self)@) - grid_total(rows_view(amounts@)),
            r is Err ==> final(self)@ == old(self)@,
            r matches Err(e) ==> removal_error(rows_view(amounts@), old(self)@, e),
    {
        let ghost av = rows_view(amounts@);
        let ghost g0 = self@;
        let checked = self.check_removal(amounts);
        if let Err(e) = checked {
            return Err(e);
        }
        assert(fits_under(av, g0));
        // second pass: take the amounts away
        proof {
            assert(subtract_before(g0, av, 0, 0) =~~= g0);
            assert(av.take(0) =~= Seq::<Seq<Count>>::empty());
        }
        let mut i: usize = 0;
        while i < amounts.len()
            invariant
                i <= av.len(),
                av == rows_view(amounts@),
                fits_under(av, g0),
                self@ == subtract_before(g0, av, i as int, 0),
                self@.len() == self.counts@.len(),
                grid_total(self@) == grid_total(g0) - grid_total(av.take(i as int)),
            decreases av.len() - i,
        {
            let row = &amounts[i];
            assert(row@ == av[i as int]);
            proof {
                assert(subtract_before(g0, av, i as int, 0) =~~= subtract_before(g0, av, i as int, 0));
                assert(av[i as int].take(0) =~= Seq::<Count>::empty());
            }
            let mut j: usize = 0;
            while j < row.len()
                invariant
                    i < av.len(),
                    j <= av[i as int].len(),
                    row@ == av[i as int],
                    av == rows_view(amounts@),
                    fits_under(av, g0),
                    self@ == subtract_before(g0, av, i as int, j as int),
                    self@.len() == self.counts@.len(),
                    grid_total(self@) == grid_total(g0) - grid_total(av.take(i as int)) - row_total(
                        av[i as int].take(j as int),
                    ),
                decreases av[i as int].len() - j,
            {
                let amt: u64 = row[j].0;
                proof {
                    lemma_row_sum_step(av[i as int], j as int, 0, false);
                }
                if amt > 0 {
                    assert(av[i as int][j as int].0 > 0);
                    assert(in_bounds(g0, i as int, j as int));
                    assert(self@[i as int].len() == g0[i as int].len());
                    assert(self.counts@[i as int]@ == self@[i as int]);
                    let ghost before = self@;
                    let current: u64 = self.counts[i][j].0;
                    assert(current == before[i as int][j as int].0);
                    assert(current == g0[i as int][j as int].0);
                    self.set_cell_exec(i, j, current - amt);
                    proof {
                        lemma_row_sum_update(
                            before[i as int],
                            j as int,
                            Count((current - amt) as u64),
                            0,
                            false,
                        );
                        lemma_grid_sum_update(
                            before,
                            i as int,
                            before[i as int].update(j as int, Count((current - amt) as u64)),
                            0,
                            false,
                        );
                        assert(self@ =~~= subtract_before(g0, av, i as int, j + 1));
                    }
                } else {
                    assert(self@ =~~= subtract_before(g0, av, i as int, j + 1));
                }
                j = j + 1;
            }
            proof {
                assert(av[i as int].take(av[i as int].len() as int) =~= av[i as int]);
                lemma_grid_sum_step(av, i as int, 0, false);
                assert(self@ =~~= subtract_before(g0, av, i + 1, 0));
            }
            i = i + 1;
        }
        assert(av.take(av.len() as int) =~= av);
        Ok(())
    }

    /// Checks that `born` can be added to the youngest band: succeeds
    /// exactly when every positive amount falls in a bin of an existing
    /// youngest band. The error names the youngest band and a bin that has
    /// newborns but no cell.
    pub fn check_births(&self, born: &Vec<Vec<Count>>) -> (r: Result<(), HistogramError>)
        ensures
            r is Ok <==> births_fit(rows_view(born@), self@),
            r matches Err(e) ==> births_error(rows_view(born@), self@, e),
    {
        let ghost av = rows_view(born@);
        let ghost g0 = self@;
        let mut i: usize = 0;
        while i < born.len()
            invariant
                i <= av.len(),
                av == rows_view(born@),
                self@ == g0,
                self@.len() == self.counts@.len(),
                forall|p: int, q: int|
                    0 <= p < i && 0 <= q < av[p].len() && #[trigger] av[p][q].0 > 0 ==> g0.len() > 0
                        && q < g0[0].len(),
            decreases av.len() - i,
        {
            let row = &born[i];
            assert(row@ == av[i as int]);
            let mut j: usize = 0;
            while j < row.len()
                invariant
                    i < av.len(),
                    j <= av[i as int].len(),
                    row@ == av[i as int],
                    av == rows_view(born@),
                    self@ == g0,
                    self@.len() == self.counts@.len(),
                    forall|p: int, q: int|
                        0 <= p < i && 0 <= q < av[p].len() && #[trigger] av[p][q].0 > 0 ==> g0.len()
                            > 0 && q < g0[0].len(),
                    forall|q: int|
                        0 <= q < j && #[trigger] av[i as int][q].0 > 0 ==> g0.len() > 0 && q
                            < g0[0].len(),
                decreases av[i as int].len() - j,
            {
                if row[j].0 > 0 {
                    if self.counts.len() == 0 || j >= self.counts[0].len() {
                        assert(amount_at(av, i as int, j as int) > 0);
                        let hb = HeterodoxyBin(j);
                        assert(amount_at(rows_view(born@), i as int, hb.0 as int) > 0);
                        assert(self.counts@.len() > 0 ==> self.counts@[0]@ == self@[0]);
                        assert(0 <= i < born@.len());
                        assert(g0.len() == 0 || hb.0 >= g0[0].len());
                        assert(has_newborns_in_bin(rows_view(born@), hb.0 as int));
                        return Err(HistogramError::OutOfBounds { age_band: AgeBand(0), het_bin: hb });
                    }
                }
                j = j + 1;
            }
            i = i + 1;
        }
        assert(births_fit(av, g0));
        Ok(())
    }

    /// Adds, for every bin `j`, the sum of column `j` of `born` (over all its
    /// rows) to cell `j` of the youngest band: the newborns of every age band
    /// join the youngest band in the heterodoxy bin they were born into.
    /// Succeeds exactly when every positive amount falls in a bin of an
    /// existing youngest band; then the histogram gains exactly the total of
    /// `born`. On failure the histogram is left as it was and the error
    /// names the youngest band and a bin that has newborns but no cell.
    pub fn add_births(&mut self, born: &Vec<Vec<Count>>) -> (r: Result<(), HistogramError>)
        requires
            old(self)@.len() > 0 ==> forall|q: int|
                0 <= q < old(self)@[0].len() ==> old(self)@[0][q].0 + #[trigger] column_sum(
                    rows_view(born@),
                    q,
                ) <= i64::MAX,
        ensures
            r is Ok <==> births_fit(rows_view(born@), old(self)@),
            r is Ok ==> final(self)@ == add_births_grid(old(self)@, rows_view(born@)) && grid_total(
                final(self)@,
            ) == grid_total(old(self)@) + grid_total(rows_view(born@)),
            r is Err ==> final(self)@ == old(self)@,
            r matches Err(e) ==> births_error(rows_view(born@), old(self)@, e),
    {
        let ghost av = rows_view(born@);
        let ghost g0 = self@;
        let checked = self.check_births(born);
        if let Err(e) = checked {
            return Err(e);
        }
        assert(births_fit(av, g0));
        if self.counts.len() == 0 {
            proof {
                assert forall|p: int, q: int|
                    0 <= p < av.len() && 0 <= q < av[p].len() implies #[trigger] av[p][q].0 == 0 by {
                    if av[p][q].0 > 0 {
                        assert(g0.len() > 0);
                    }
                }
                lemma_zero_amounts_total(av);
            }
            return Ok(());
        }
        proof {
            assert(add_births_before(g0, av, 0, 0) =~~= g0) by {
                assert forall|q: int| 0 <= q < g0[0].len() implies column_sum_before(av, 0, 0, q)
                    == 0 by {
                    assert(av.take(0) =~= Seq::<Seq<Count>>::empty());
                }
            }
            assert(av.take(0) =~= Seq::<Seq<Count>>::empty());
        }
        let mut i: usize = 0;
        while i < born.len()
            invariant
                i <= av.len(),
                av == rows_view(born@),
                births_fit(av, g0),
                g0.len() > 0,
                forall|q: int|
                    0 <= q < g0[0].len() ==> g0[0][q].0 + #[trigger] column_sum(av, q) <= i64::MAX,
                self@ == add_births_before(g0, av, i as int, 0),
                self@.len() == self.counts@.len(),
                grid_total(self@) == grid_total(g0) + grid_total(av.take(i as int)),
            decreases av.len() - i,
        {
            let row = &born[i];
            assert(row@ == av[i as int]);
            proof {
                assert(av[i as int].take(0) =~= Seq::<Count>::empty());
            }
            let mut j: usize = 0;
            while j < row.len()
                invariant
                    i < av.len(),
                    j <= av[i as int].len(),
                    row@ == av[i as int],
                    av == rows_view(born@),
                    births_fit(av, g0),
                    g0.len() > 0,
                    forall|q: int|
                        0 <= q < g0[0].len() ==> g0[0][q].0 + #[trigger] column_sum(av, q)
                            <= i64::MAX,
                    self@ == add_births_before(g0, av, i as int, j as int),
                    self@.len() == self.counts@.len(),
                    grid_total(self@) == grid_total(g0) + grid_total(av.take(i as int)) + row_total(
                        av[i as int].take(j as int),
                    ),
                decreases av[i as int].len() - j,
            {
                let amt: u64 = row[j].0;
                proof {
                    lemma_row_sum_step(av[i as int], j as int, 0, false);
                }
                if amt > 0 {
                    assert(av[i as int][j as int].0 > 0);
                    assert(j < g0[0].len());
                    assert(self.counts@[0]@ == self@[0]);
                    let ghost before = self@;
                    let current: u64 = self.counts[0][j].0;
                    assert(current == before[0][j as int].0);
                    proof {
                        lemma_column_sum_before_bound(av, i as int, j as int + 1, j as int);
                        lemma_column_sum_before_bound(av, i as int, j as int, j as int);
                        assert(amount_at(av, i as int, j as int) == amt);
                        assert(column_sum(av, j as int) + g0[0][j as int].0 <= i64::MAX);
                    }
                    self.set_cell_exec(0, j, current + amt);
                    proof {
                        lemma_row_sum_update(before[0], j as int, Count((current + amt) as u64), 0, false);
                        lemma_grid_sum_update(
                            before,
                            0,
                            before[0].update(j as int, Count((current + amt) as u64)),
                            0,
                            false,
                        );
                        assert(self@ =~~= add_births_before(g0, av, i as int, j + 1));
                    }
                } else {
                    assert(self@ =~~= add_births_before(g0, av, i as int, j + 1));
                }
                j = j + 1;
            }
            proof {
                assert(av[i as int].take(av[i as int].len() as int) =~= av[i as int]);
                lemma_grid_sum_step(av, i as int, 0, false);
                assert forall|q: int| 0 <= q < g0[0].len() implies column_sum_before(
                    av,
                    i as int,
                    av[i as int].len() as int,
                    q,
                ) == column_sum_before(av, i + 1, 0, q) by {
                    assert(av.take(i + 1).drop_last() =~= av.take(i as int));
                }
                assert(self@ =~~= add_births_before(g0, av, i + 1, 0));
            }
            i = i + 1;
        }
        assert(av.take(av.len() as int) =~= av);
        Ok(())
    }

    /// Ages every band by `bands_to_advance` bands: that many empty youngest
    /// bands, each `row_width` cells wide, go in front, and the same number
    /// of oldest bands drop off, so the number of bands stays the same. The
    /// people in the dropped bands leave the histogram.
    pub fn shift_ages(&mut self, bands_to_advance: usize, row_width: usize)
        ensures
            final(self)@ == shifted(old(self)@, bands_to_advance as nat, row_width as nat),
            final(self)@.len() == old(self)@.len(),
            grid_total(final(self)@) == if bands_to_advance <= old(self)@.len() {
                grid_total(old(self)@.take(old(self)@.len() - bands_to_advance))
            } else {
                0
            },
    {
        let ghost g0 = self@;
        let mut old_counts = self.take_counts();
        let band_count = old_counts.len();
        let mut new_counts: Vec<Vec<Count>> = Vec::new();
        let mut i: usize = 0;
        while i < bands_to_advance
            invariant
                i <= bands_to_advance,
                rows_view(new_counts@) == zero_rows(i as nat, row_width as nat),
                new_counts@.len() == i,
            decreases bands_to_advance - i,
        {
            let mut row: Vec<Count> = Vec::new();
            let mut j: usize = 0;
            while j < row_width
                invariant
                    j <= row_width,
                    row@ == zero_row(j as nat),
                decreases row_width - j,
            {
                row.push(Count(0));
                j = j + 1;
                assert(row@ =~= zero_row(j as nat));
            }
            let ghost prev = new_counts@;
            new_counts.push(row);
            proof {
                assert forall|k: int| 0 <= k < i + 1 implies #[trigger] rows_view(new_counts@)[k]
                    == zero_rows((i + 1) as nat, row_width as nat)[k] by {
                    if k < i {
                        assert(new_counts@[k] == prev[k]);
                        assert(rows_view(prev)[k] == zero_rows(i as nat, row_width as nat)[k]);
                    } else {
                        assert(new_counts@[k] == row);
                    }
                }
            }
            i = i + 1;
            assert(rows_view(new_counts@) =~= zero_rows(i as nat, row_width as nat));
        }
        new_counts.append(&mut old_counts);
        new_counts.truncate(band_count);
        self.swap_counts(new_counts);
        proof {
            assert(self@ =~= (zero_rows(bands_to_advance as nat, row_width as nat) + g0).take(
                g0.len() as int,
            ));
            lemma_shift_population(g0, bands_to_advance as nat, row_width as nat);
        }
    }

    /// The histogram of a sect that breaks away: `num_age_bands` bands of
    /// `num_het_bins + 1` cells, where each person counted in `converts` at
    /// (`i`, `j`) lands in age band `i` and heterodoxy bin `new_bins[j]`.
    /// Succeeds exactly when every positive amount lands on a cell of that
    /// shape; then the sect holds exactly the converts' total. The error
    /// names an offending target cell.
    pub fn regroup_converts(
        converts: &Vec<Vec<Count>>,
        new_bins: &Vec<HeterodoxyBin>,
        num_het_bins: usize,
        num_age_bands: usize,
    ) -> (r: Result<PopulationHistogram, HistogramError>)
        requires
            num_het_bins < usize::MAX,
            grid_total(rows_view(converts@)) <= i64::MAX,
            forall|i: int, j: int|
                0 <= i < converts@.len() && 0 <= j < converts@[i]@.len() && #[trigger] converts@[i]@[j].0
                    > 0 ==> j < new_bins@.len(),
        ensures
            r is Ok <==> regroup_fits(rows_view(converts@), new_bins@, num_het_bins as int, num_age_bands as int),
            r matches Ok(h) ==> {
                &&& h@ == regrouped_grid(rows_view(converts@), new_bins@, num_het_bins as nat, num_age_bands as nat)
                &&& grid_total(h@) == grid_total(rows_view(converts@))
            },
            r matches Err(e) ==> regroup_error(
                rows_view(converts@),
                new_bins@,
                num_het_bins as int,
                num_age_bands as int,
                e,
            ),
    {
        let ghost av = rows_view(converts@);
        let ghost nb = new_bins@;
        let mut i: usize = 0;
        while i < converts.len()
            invariant
                i <= av.len(),
                av == rows_view(converts@),
                nb == new_bins@,
                forall|p: int, q: int|
                    0 <= p < converts@.len() && 0 <= q < converts@[p]@.len() && #[trigger] converts@[p]@[q].0
                        > 0 ==> q < new_bins@.len(),
                forall|p: int, q: int|
                    0 <= p < i && 0 <= q < av[p].len() && #[trigger] av[p][q].0 > 0 ==> p
                        < num_age_bands && nb[q].0 <= num_het_bins,
            decreases av.len() - i,
        {
            let row = &converts[i];
            assert(row@ == av[i as int]);
            let mut j: usize = 0;
            while j < row.len()
                invariant
                    i < av.len(),
                    j <= av[i as int].len(),
                    row@ == av[i as int],
                    av == rows_view(converts@),
                    nb == new_bins@,
                    forall|p: int, q: int|
                        0 <= p < converts@.len() && 0 <= q < converts@[p]@.len()
                            && #[trigger] converts@[p]@[q].0 > 0 ==> q < new_bins@.len(),
                    forall|p: int, q: int|
                        0 <= p < i && 0 <= q < av[p].len() && #[trigger] av[p][q].0 > 0 ==> p
                            < num_age_bands && nb[q].0 <= num_het_bins,
                    forall|q: int|
                        0 <= q < j && #[trigger] av[i as int][q].0 > 0 ==> i < num_age_bands
                            && nb[q].0 <= num_het_bins,
                decreases av[i as int].len() - j,
            {
                if row[j].0 > 0 {
                    assert(converts@[i as int]@[j as int].0 > 0);
                    let target = new_bins[j];
                    if i >= num_age_bands || target.0 > num_het_bins {
                        let ab = AgeBand(i);
                        assert(converts@[ab.0 as int]@[j as int].0 > 0);
                        assert(0 <= ab.0 < converts@.len());
                        assert(0 <= j < converts@[ab.0 as int]@.len());
                        assert(new_bins@[j as int] == target);
                        assert(av[ab.0 as int][j as int].0 > 0);
                        assert(unplaceable(av, nb, ab.0 as int, target));
                        return Err(HistogramError::OutOfBounds { age_band: ab, het_bin: target });
                    }
                }
                j = j + 1;
            }
            i = i + 1;
        }
        assert(regroup_fits(av, nb, num_het_bins as int, num_age_bands as int));
        let mut h = PopulationHistogram::new(num_het_bins, num_age_bands);
        proof {
            assert(h@ =~~= regrouped_before(av, nb, 0, 0, num_het_bins as nat, num_age_bands as nat)) by {
                assert forall|p: int, t: int| 0 <= p < num_age_bands && 0 <= t <= num_het_bins implies
                    #[trigger] regrouped_cell(av, nb, 0, 0, p, t) == 0 by {
                    if av.len() > 0 {
                        assert(av[0].take(0) =~= Seq::<Count>::empty());
                    }
                }
            }
            assert(av.take(0) =~= Seq::<Seq<Count>>::empty());
        }
        let mut i: usize = 0;
        while i < converts.len()
            invariant
                i <= av.len(),
                av == rows_view(converts@),
                nb == new_bins@,
                regroup_fits(av, nb, num_het_bins as int, num_age_bands as int),
                grid_total(av) <= i64::MAX,
                forall|p: int, q: int|
                    0 <= p < converts@.len() && 0 <= q < converts@[p]@.len() && #[trigger] converts@[p]@[q].0
                        > 0 ==> q < new_bins@.len(),
                h@ == regrouped_before(av, nb, i as int, 0, num_het_bins as nat, num_age_bands as nat),
                grid_total(h@) == grid_total(av.take(i as int)),
            decreases av.len() - i,
        {
            let row = &converts[i];
            assert(row@ == av[i as int]);
            proof {
                assert(av[i as int].take(0) =~= Seq::<Count>::empty());
                lemma_grid_sum_prefix(av, i as int, 0, false);
                lemma_grid_sum_step(av, i as int, 0, false);
                lemma_grid_sum_prefix(av, i + 1, 0, false);
            }
            let mut j: usize = 0;
            while j < row.len()
                invariant
                    i < av.len(),
                    j <= av[i as int].len(),
                    row@ == av[i as int],
                    av == rows_view(converts@),
                    nb == new_bins@,
                    regroup_fits(av, nb, num_het_bins as int, num_age_bands as int),
                    grid_total(av.take(i as int)) + row_total(av[i as int]) <= i64::MAX,
                    forall|p: int, q: int|
                        0 <= p < converts@.len() && 0 <= q < converts@[p]@.len()
                            && #[trigger] converts@[p]@[q].0 > 0 ==> q < new_bins@.len(),
                    h@ == regrouped_before(
                        av,
                        nb,
                        i as int,
                        j as int,
                        num_het_bins as nat,
                        num_age_bands as nat,
                    ),
                    grid_total(h@) == grid_total(av.take(i as int)) + row_total(
                        av[i as int].take(j as int),
                    ),
                decreases av[i as int].len() - j,
            {
                let amt: u64 = row[j].0;
                proof {
                    lemma_row_sum_step(av[i as int], j as int, 0, false);
                    lemma_row_sum_prefix(av[i as int], j + 1, 0, false);
                }
                if amt > 0 {
                    assert(converts@[i as int]@[j as int].0 > 0);
                    assert(av[i as int][j as int].0 > 0);
                    let target = new_bins[j];
                    let ghost before = h@;
                    proof {
                        assert(in_bounds(before, i as int, target.0 as int));
                        lemma_cell_le_total(before, i as int, target.0 as int);
                        assert(av[i as int].take(j + 1).drop_last() =~= av[i as int].take(j as int));
                        assert(av[i as int].take(j + 1).last() == av[i as int][j as int]);
                        assert forall|t: int| 0 <= t <= num_het_bins implies regrouped(
                            av[i as int].take(j + 1),
                            nb,
                            t,
                        ) == regrouped(av[i as int].take(j as int), nb, t) + if nb[j as int].0 == t {
                            amt as int
                        } else {
                            0
                        } by {
                            assert(av[i as int].take(j + 1).len() == j + 1);
                        }
                        lemma_regrouped_bound(av[i as int].take(j as int), nb, target.0 as int);
                        lemma_grid_sum_prefix(av, i as int, 0, false);
                        lemma_row_sum_prefix(av[i as int], j as int, 0, false);
                    }
                    let current: u64 = h.counts[i][target.0].0;
                    assert(h.counts@[i as int]@ == h@[i as int]);
                    assert(current == before[i as int][target.0 as int].0);
                    h.set_cell_exec(i, target.0, current + amt);
                    proof {
                        lemma_row_sum_update(
                            before[i as int],
                            target.0 as int,
                            Count((current + amt) as u64),
                            0,
                            false,
                        );
                        lemma_grid_sum_update(
                            before,
                            i as int,
                            before[i as int].update(target.0 as int, Count((current + amt) as u64)),
                            0,
                            false,
                        );
                        let ghost target_grid = regrouped_before(
                            av,
                            nb,
                            i as int,
                            j + 1,
                            num_het_bins as nat,
                            num_age_bands as nat,
                        );
                        assert forall|t: int| 0 <= t <= num_het_bins implies h@[i as int][t]
                            == target_grid[i as int][t] by {
                            assert(regrouped_cell(av, nb, i as int, j as int, i as int, t) == regrouped(
                                av[i as int].take(j as int),
                                nb,
                                t,
                            ));
                            assert(regrouped_cell(av, nb, i as int, j + 1, i as int, t) == regrouped(
                                av[i as int].take(j + 1),
                                nb,
                                t,
                            ));
                            if t == target.0 {
                                assert(before[i as int][t].0 == regrouped(
                                    av[i as int].take(j as int),
                                    nb,
                                    t,
                                ));
                            } else {
                                assert(h@[i as int][t] == before[i as int][t]);
                            }
                        }
                        assert(h@[i as int] =~= target_grid[i as int]);
                        assert forall|p: int| 0 <= p < num_age_bands && p != i implies h@[p]
                            =~= target_grid[p] by {
                            assert(h@[p] == before[p]);
                        }
                        assert(h@ =~~= target_grid);
                    }
                } else {
                    proof {
                        assert(av[i as int].take(j + 1).drop_last() =~= av[i as int].take(j as int));
                        assert(h@ =~~= regrouped_before(
                            av,
                            nb,
                            i as int,
                            j + 1,
                            num_het_bins as nat,
                            num_age_bands as nat,
                        ));
                    }
                }
                j = j + 1;
            }
            proof {
                assert(av[i as int].take(av[i as int].len() as int) =~= av[i as int]);
                assert(h@ =~~= regrouped_before(
                    av,
                    nb,
                    i + 1,
                    0,
                    num_het_bins as nat,
                    num_age_bands as nat,
                )) by {
                    assert(av[i + 1 - 1].take(0) =~= Seq::<Count>::empty());
                }
            }
            i = i + 1;
        }
        proof {
            assert(av.take(av.len() as int) =~= av);
            assert(h@ =~~= regrouped_grid(av, nb, num_het_bins as nat, num_age_bands as nat));
        }
        Ok(h)
    }
}

/// Ageing a grid by `k` bands: the first `k` bands are empty, and every
/// other band holds what the band `k` below it held.
pub proof fn lemma_shifted_rows(g: Seq<Seq<Count>>, k: nat, width: nat)
    ensures
        shifted(g, k, width).len() == g.len(),
        forall|j: int| 0 <= j < g.len() && j < k ==> #[trigger] shifted(g, k, width)[j] == zero_row(width),
        forall|j: int| k <= j < g.len() ==> #[trigger] shifted(g, k, width)[j] == g[j - k],
{
    let z = zero_rows(k, width) + g;
    assert forall|j: int| 0 <= j < g.len() && j < k implies #[trigger] shifted(g, k, width)[j] == zero_row(
        width,
    ) by {
        assert(shifted(g, k, width)[j] == z[j]);
    }
    assert forall|j: int| k <= j < g.len() implies #[trigger] shifted(g, k, width)[j] == g[j - k] by {
        assert(shifted(g, k, width)[j] == z[j]);
    }
}

/// Ageing a grid by `k` bands keeps everyone but the people in its `k`
/// oldest bands, who leave it; when `k` is at least the number of bands,
/// nobody is left.
pub proof fn lemma_shift_population(g: Seq<Seq<Count>>, k: nat, width: nat)
    ensures
        shifted(g, k, width).len() == g.len(),
        grid_total(shifted(g, k, width)) == if k <= g.len() {
            grid_total(g.take(g.len() - k))
        } else {
            0
        },
{
    let z = zero_rows(k, width);
    assert forall|p: int| 0 <= p < z.len() implies #[trigger] z[p] == zero_row(z[p].len()) by {}
    if k <= g.len() {
        let rest = g.take(g.len() - k);
        assert((z + g).take(g.len() as int) =~= z + rest);
        lemma_grid_sum_concat(z, rest, 0, false);
        lemma_zero_grid_sum(z, 0, false);
    } else {
        let front = z.take(g.len() as int);
        assert((z + g).take(g.len() as int) =~= front);
        assert forall|p: int| 0 <= p < front.len() implies #[trigger] front[p] == zero_row(
            front[p].len(),
        ) by {
            assert(front[p] == z[p]);
        }
        lemma_zero_grid_sum(front, 0, false);
    }
}

/// The amount at cell (`i`, `j`) of a grid of amounts, zero outside it.
pub open spec fn amount_at(a: Seq<Seq<Count>>, i: int, j: int) -> int {
    if 0 <= i < a.len() && 0 <= j < a[i].len() {
        a[i][j].0 as int
    } else {
        0
    }
}

/// Every positive amount of `a` lies on a cell of `g` that holds at least as many people.
pub open spec fn fits_under(a: Seq<Seq<Count>>, g: Seq<Seq<Count>>) -> bool {
    forall|i: int, j: int|
        0 <= i < a.len() && 0 <= j < a[i].len() && a[i][j].0 > 0 ==> in_bounds(g, i, j)
            && #[trigger] a[i][j].0 <= g[i][j].0
}

/// The amounts of `a` at the cells before (`i`, `j`) in row-major order, zero elsewhere.
pub open spec fn amount_before(a: Seq<Seq<Count>>, i: int, j: int, p: int, q: int) -> int {
    if p < i || (p == i && q < j) {
        amount_at(a, p, q)
    } else {
        0
    }
}

/// `g` with the amounts of `a` at the cells before (`i`, `j`) taken away.
pub open spec fn subtract_before(g: Seq<Seq<Count>>, a: Seq<Seq<Count>>, i: int, j: int) -> Seq<
    Seq<Count>,
> {
    Seq::new(
        g.len(),
        |p: int| Seq::new(g[p].len(), |q: int| Count((g[p][q].0 - amount_before(a, i, j, p, q)) as u64)),
    )
}

/// `g` with every amount of `a` taken away from its cell.
pub open spec fn subtract_grid(g: Seq<Seq<Count>>, a: Seq<Seq<Count>>) -> Seq<Seq<Count>> {
    subtract_before(g, a, a.len() as int, 0)
}

/// Every positive amount of `a` can be added to the youngest band of `g`:
/// that band exists and is wide enough.
pub open spec fn births_fit(a: Seq<Seq<Count>>, g: Seq<Seq<Count>>) -> bool {
    forall|i: int, j: int|
        0 <= i < a.len() && 0 <= j < a[i].len() && #[trigger] a[i][j].0 > 0 ==> g.len() > 0 && j
            < g[0].len()
}

/// Sum of column `j` over the rows of `a`.
pub open spec fn column_sum(a: Seq<Seq<Count>>, j: int) -> int
    decreases a.len(),
{
    if a.len() == 0 {
        0
    } else {
        column_sum(a.drop_last(), j) + amount_at(a, a.len() - 1, j)
    }
}

/// Column `j` of `a` over the rows before `i`, plus row `i` if `j` lies before `k`.
pub open spec fn column_sum_before(a: Seq<Seq<Count>>, i: int, k: int, j: int) -> int {
    column_sum(a.take(i), j) + if j < k {
        amount_at(a, i, j)
    } else {
        0
    }
}

/// `g` with column sums of `a` (over the rows before `i`, and row `i` before
/// cell `k`) added to its youngest band.
pub open spec fn add_births_before(g: Seq<Seq<Count>>, a: Seq<Seq<Count>>, i: int, k: int) -> Seq<
    Seq<Count>,
> {
    if g.len() == 0 {
        g
    } else {
        g.update(
            0,
            Seq::new(g[0].len(), |q: int| Count((g[0][q].0 + column_sum_before(a, i, k, q)) as u64)),
        )
    }
}

/// `g` with every column sum of `a` added to its youngest band.
pub open spec fn add_births_grid(g: Seq<Seq<Count>>, a: Seq<Seq<Count>>) -> Seq<Seq<Count>> {
    add_births_before(g, a, a.len() as int, 0)
}

/// The number of people, over the cells of `row` whose bin `new_bins` sends to `t`.
pub open spec fn regrouped(row: Seq<Count>, new_bins: Seq<HeterodoxyBin>, t: int) -> int
    decreases row.len(),
{
    if row.len() == 0 {
        0
    } else {
        regrouped(row.drop_last(), new_bins, t) + if new_bins[row.len() - 1].0 == t {
            row.last().0 as int
        } else {
            0
        }
    }
}

/// Rows `n` of empty cells, `width` wide.
pub open spec fn zero_rows(n: nat, width: nat) -> Seq<Seq<Count>> {
    Seq::new(n, |i: int| zero_row(width))
}

/// The grid `g` aged by `k` bands: `k` empty youngest bands in front, and
/// the `k` oldest bands dropped so the number of bands stays the same.
pub open spec fn shifted(g: Seq<Seq<Count>>, k: nat, width: nat) -> Seq<Seq<Count>> {
    (zero_rows(k, width) + g).take(g.len() as int)

}

/// Every positive amount of `converts` at (`i`, `j`) has a target cell
/// (`i`, `new_bins[j]`) within `num_age_bands` bands of `num_het_bins + 1` cells.
pub open spec fn regroup_fits(
    converts: Seq<Seq<Count>>,
    new_bins: Seq<HeterodoxyBin>,
    num_het_bins: int,
    num_age_bands: int,
) -> bool {
    forall|i: int, j: int|
        0 <= i < converts.len() && 0 <= j < converts[i].len() && #[trigger] converts[i][j].0 > 0 ==> i
            < num_age_bands && new_bins[j].0 <= num_het_bins
}

/// Cell (`p`, `t`) of the regrouped grid, counting only the converts before
/// cell (`i`, `j`) in row-major order.
pub open spec fn regrouped_cell(
    converts: Seq<Seq<Count>>,
    new_bins: Seq<HeterodoxyBin>,
    i: int,
    j: int,
    p: int,
    t: int,
) -> int {
    if 0 <= p < i && p < converts.len() {
        regrouped(converts[p], new_bins, t)
    } else if p == i && 0 <= p < converts.len() {
        regrouped(converts[p].take(j), new_bins, t)
    } else {
        0
    }
}

/// The regrouped grid, counting only the converts before cell (`i`, `j`).
pub open spec fn regrouped_before(
    converts: Seq<Seq<Count>>,
    new_bins: Seq<HeterodoxyBin>,
    i: int,
    j: int,
    num_het_bins: nat,
    num_age_bands: nat,
) -> Seq<Seq<Count>> {
    Seq::new(
        num_age_bands,
        |p: int|
            Seq::new(
                num_het_bins + 1,
                |t: int| Count(regrouped_cell(converts, new_bins, i, j, p, t) as u64),
            ),
    )
}

/// The grid of a sect: cell (`p`, `t`) holds the converts of age band `p`
/// whose bin `new_bins` sends to `t`.
pub open spec fn regrouped_grid(
    converts: Seq<Seq<Count>>,
    new_bins: Seq<HeterodoxyBin>,
    num_het_bins: nat,
    num_age_bands: nat,
) -> Seq<Seq<Count>> {
    regrouped_before(converts, new_bins, converts.len() as int, 0, num_het_bins, num_age_bands)
}

/// A regrouped count lies between zero and the row's total.
pub proof fn lemma_regrouped_bound(row: Seq<Count>, new_bins: Seq<HeterodoxyBin>, t: int)
    ensures
        0 <= regrouped(row, new_bins, t) <= row_total(row),
    decreases row.len(),
{
    if row.len() > 0 {
        lemma_regrouped_bound(row.drop_last(), new_bins, t);
    }
}

/// A grid of nothing but empty cells holds nobody.
pub proof fn lemma_zero_amounts_total(a: Seq<Seq<Count>>)
    requires
        forall|p: int, q: int| 0 <= p < a.len() && 0 <= q < a[p].len() ==> #[trigger] a[p][q].0 == 0,
    ensures
        grid_total(a) == 0,
{
    assert forall|p: int| 0 <= p < a.len() implies #[trigger] a[p] == zero_row(a[p].len()) by {
        assert forall|q: int| 0 <= q < a[p].len() implies a[p][q] == Count(0) by {
            assert(a[p][q].0 == 0);
        }
        assert(a[p] =~= zero_row(a[p].len()));
    }
    lemma_zero_grid_sum(a, 0, false);
}

/// A column sum over a prefix of the rows lies between zero and the whole column's sum.
pub proof fn lemma_column_sum_prefix(a: Seq<Seq<Count>>, n: int, q: int)
    requires
        0 <= n <= a.len(),
    ensures
        0 <= column_sum(a.take(n), q) <= column_sum(a, q),
    decreases a.len(),
{
    if n == a.len() {
        assert(a.take(n) =~= a);
        if a.len() > 0 {
            lemma_column_sum_prefix(a.drop_last(), a.len() - 1, q);
            assert(a.drop_last().take(a.len() - 1) =~= a.drop_last());
        }
    } else {
        lemma_column_sum_prefix(a.drop_last(), n, q);
        assert(a.drop_last().take(n) =~= a.take(n));
    }
}

/// A partial column sum lies between zero and the whole column's sum.
pub proof fn lemma_column_sum_before_bound(a: Seq<Seq<Count>>, i: int, k: int, q: int)
    requires
        0 <= i < a.len(),
    ensures
        0 <= column_sum_before(a, i, k, q) <= column_sum(a, q),
{
    lemma_column_sum_prefix(a, i, q);
    lemma_column_sum_prefix(a, i + 1, q);
    assert(a.take(i + 1).drop_last() =~= a.take(i));
    assert(amount_at(a.take(i + 1), i, q) == amount_at(a, i, q));
}

/// One cell holds no more people than the whole grid.
pub proof fn lemma_cell_le_total(g: Seq<Seq<Count>>, i: int, t: int)
    requires
        in_bounds(g, i, t),
    ensures
        g[i][t].0 <= row_total(g[i]) <= grid_total(g),
{
    lemma_row_sum_update(g[i], t, Count(0), 0, false);
    lemma_row_sum_prefix(g[i].update(t, Count(0)), g[i].len() as int, 0, false);
    assert(g[i].update(t, Count(0)).take(g[i].len() as int) =~= g[i].update(t, Count(0)));
    lemma_grid_sum_update(g, i, Seq::<Count>::empty(), 0, false);
    lemma_grid_sum_prefix(g.update(i, Seq::<Count>::empty()), g.len() as int, 0, false);
    assert(g.update(i, Seq::<Count>::empty()).take(g.len() as int) =~= g.update(
        i,
        Seq::<Count>::empty(),
    ));
}

/// Some row of `a` has newborns in bin `j`.
pub open spec fn has_newborns_in_bin(a: Seq<Seq<Count>>, j: int) -> bool {
    exists|i: int| 0 <= i < a.len() && #[trigger] amount_at(a, i, j) > 0
}

/// Row `i` of `converts` has converts in some bin that `new_bins` sends to `t`.
pub open spec fn unplaceable(
    converts: Seq<Seq<Count>>,
    new_bins: Seq<HeterodoxyBin>,
    i: int,
    t: HeterodoxyBin,
) -> bool {
    exists|j: int|
        0 <= i < converts.len() && 0 <= j < converts[i].len() && #[trigger] converts[i][j].0 > 0
            && new_bins[j] == t
}

/// `e` names a cell that stops `amounts` from being taken out of `g`: one
/// outside `g` with a positive amount, or one that would go below zero.
pub open spec fn removal_error(amounts: Seq<Seq<Count>>, g: Seq<Seq<Count>>, e: HistogramError) -> bool {
    match e {
        HistogramError::OutOfBounds { age_band, het_bin } => amount_at(
            amounts,
            age_band.0 as int,
            het_bin.0 as int,
        ) > 0 && !in_bounds(g, age_band.0 as int, het_bin.0 as int),
        HistogramError::WouldGoNegative { age_band, het_bin, current, delta } => {
            &&& in_bounds(g, age_band.0 as int, het_bin.0 as int)
            &&& current == g[age_band.0 as int][het_bin.0 as int].0
            &&& delta == -amount_at(amounts, age_band.0 as int, het_bin.0 as int)
            &&& current + delta < 0
        },
        HistogramError::Underflow { .. } => false,
    }
}

/// `e` names a bin of the youngest band of `g` that newborns of `born` would
/// need and that does not exist.
pub open spec fn births_error(born: Seq<Seq<Count>>, g: Seq<Seq<Count>>, e: HistogramError) -> bool {
    match e {
        HistogramError::OutOfBounds { age_band, het_bin } => {
            &&& age_band.0 == 0
            &&& (g.len() == 0 || het_bin.0 >= g[0].len())
            &&& has_newborns_in_bin(born, het_bin.0 as int)
        },
        HistogramError::WouldGoNegative { .. } => false,
        HistogramError::Underflow { .. } => false,
    }
}

/// `e` names a cell that converts would land on and that a histogram of
/// `num_age_bands` bands and `num_het_bins + 1` bins does not have.
pub open spec fn regroup_error(
    converts: Seq<Seq<Count>>,
    new_bins: Seq<HeterodoxyBin>,
    num_het_bins: int,
    num_age_bands: int,
    e: HistogramError,
) -> bool {
    match e {
        HistogramError::OutOfBounds { age_band, het_bin } => {
            &&& unplaceable(converts, new_bins, age_band.0 as int, het_bin)
            &&& (age_band.0 >= num_age_bands || het_bin.0 > num_het_bins)
        },
        HistogramError::WouldGoNegative { .. } => false,
        HistogramError::Underflow { .. } => false,
    }
}

/// The cell `c` exists in a histogram of `num_age_bands` bands and
/// `num_het_bins + 1` bins.
pub open spec fn cell_fits(c: (AgeBand, HeterodoxyBin), num_het_bins: int, num_age_bands: int) -> bool {
    c.0.0 < num_age_bands && c.1.0 <= num_het_bins
}

/// How many entries of `cells` name the cell (`a`, `h`).
pub open spec fn cell_count(cells: Seq<(AgeBand, HeterodoxyBin)>, a: int, h: int) -> nat
    decreases cells.len(),
{
    if cells.len() == 0 {
        0
    } else {
        cell_count(cells.drop_last(), a, h) + if cells.last().0.0 == a && cells.last().1.0 == h {
            1nat
        } else {
            0nat
        }
    }
}

/// No cell is named more often than there are entries.
pub proof fn lemma_cell_count_bound(cells: Seq<(AgeBand, HeterodoxyBin)>, a: int, h: int)
    ensures
        cell_count(cells, a, h) <= cells.len(),
    decreases cells.len(),
{
    if cells.len() > 0 {
        lemma_cell_count_bound(cells.drop_last(), a, h);
    }
}

/// The grid `g` with cell (`a`, `h`) set to `value`.
pub open spec fn set_cell(g: Seq<Seq<Count>>, a: int, h: int, value: u64) -> Seq<Seq<Count>> {
    g.update(a, g[a].update(h, Count(value)))
}

/// A cell adjusted by `delta` and then by `-delta` is back where it was: an
/// adjustment that succeeds is undone by its opposite, and the rest of the
/// grid is untouched throughout.
pub proof fn lemma_adjust_undone(g: Seq<Seq<Count>>, a: int, h: int, delta: int)
    requires
        in_bounds(g, a, h),
        0 <= g[a][h].0 + delta <= u64::MAX,
    ensures
        ({
            let once = set_cell(g, a, h, (g[a][h].0 + delta) as u64);
            &&& in_bounds(once, a, h)
            &&& once[a][h].0 - delta == g[a][h].0
            &&& set_cell(once, a, h, (once[a][h].0 - delta) as u64) == g
        }),
{
    let once = set_cell(g, a, h, (g[a][h].0 + delta) as u64);
    assert(once[a][h].0 == g[a][h].0 + delta);
    let back = set_cell(once, a, h, (once[a][h].0 - delta) as u64);
    assert(back[a] =~= g[a]);
    assert(back =~= g);
}

} // verus!
