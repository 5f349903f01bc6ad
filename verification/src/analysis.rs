//! Sample statistics over a histogram, and the chi-squared goodness-of-fit
//! evaluation.
//!
//! The statistics work on the binned data: every value is represented by its
//! bin's midpoint, an intentional approximation that reuses the histogram. The
//! chi-squared statistic takes the reference distribution's value at each bin
//! midpoint as a rational `probs[j] / prob_den`, so a caller may quantize a
//! continuous distribution at any resolution and the accumulation itself stays
//! exact up to an explicit, stated rounding of each term.

use vstd::prelude::*;
use crate::frac::Frac;
use crate::frac::lemma_mul_bound;
use crate::math::Histogram;
use crate::math::Row;
use crate::math::count_sum;

verus! {

/// Largest sample size the exact statistics arithmetic accepts.
pub const SAMPLE_LIMIT: usize = 1_000_000;

/// Largest magnitude a bin midpoint numerator may have for the statistics.
pub const CENTER_LIMIT: i128 = 1_000_000_000_000;

/// Largest bin-width denominator (requested bin count) for the statistics.
pub const STEP_DEN_LIMIT: i128 = 2_000_000;

/// Largest number of bins the chi-squared accumulation accepts.
pub const BIN_LIMIT: usize = 1_000;

/// Largest denominator for the quantized theoretical probabilities.
pub const PROB_DEN_LIMIT: i64 = 1_000_000;

/// Denominator of the returned chi-squared statistic: each term is rounded
/// down at this resolution.
pub const STAT_SCALE: i128 = 1_000_000_000;

/// A failure of the goodness-of-fit evaluation.
#[derive(Clone, Copy, Debug, PartialEq, Eq, Structural)]
pub enum StatError {
    /// A division by zero would occur: some theoretical probability is zero.
    NumericalError,
    /// The degrees of freedom would not be positive.
    InvalidParameter,
}

/// `sum(center_numerator * count)` over the bins.
pub open spec fn weighted_center_sum(rows: Seq<Row>) -> int
    decreases rows.len(),
{
    if rows.len() == 0 {
        0
    } else {
        weighted_center_sum(rows.drop_last())
            + rows.last().x.num * rows.last().occurrences as int
    }
}

/// `sum(center_numerator^2 * count)` over the bins.
pub open spec fn weighted_square_sum(rows: Seq<Row>) -> int
    decreases rows.len(),
{
    if rows.len() == 0 {
        0
    } else {
        weighted_square_sum(rows.drop_last())
            + rows.last().x.num * rows.last().x.num * rows.last().occurrences as int
    }
}

/// One chi-squared term, rounded down at resolution `1 / STAT_SCALE`:
/// `floor(((occ/n - p/q)^2 / (p/q)) * STAT_SCALE)` written over integers.
pub open spec fn chi_term(occ: int, p: int, q: int, n: int) -> int {
    (occ * q - p * n) * (occ * q - p * n) * STAT_SCALE / (n * n * q * p)
}

/// The rounded chi-squared terms of the first bins, summed.
pub open spec fn chi_terms_sum(rows: Seq<Row>, probs: Seq<i64>, q: int, n: int) -> int
    decreases rows.len(),
{
    if rows.len() == 0 || probs.len() == 0 {
        0
    } else {
        chi_terms_sum(rows.drop_last(), probs.drop_last(), q, n)
            + chi_term(rows.last().occurrences as int, probs.last() as int, q, n)
    }
}

proof fn lemma_count_sum_nonneg(rows: Seq<Row>)
    ensures
        count_sum(rows) >= 0,
    decreases rows.len(),
{
    if rows.len() > 0 {
        lemma_count_sum_nonneg(rows.drop_last());
    }
}

/// Unfolds the three sums by one element at the end of a prefix.
proof fn lemma_sums_take_step(rows: Seq<Row>, i: int)
    requires
        0 <= i < rows.len(),
    ensures
        count_sum(rows.take(i + 1)) == count_sum(rows.take(i)) + rows[i].occurrences as int,
        weighted_center_sum(rows.take(i + 1)) == weighted_center_sum(rows.take(i))
            + rows[i].x.num * rows[i].occurrences as int,
        weighted_square_sum(rows.take(i + 1)) == weighted_square_sum(rows.take(i))
            + rows[i].x.num * rows[i].x.num * rows[i].occurrences as int,
{
    assert(rows.take(i + 1).drop_last() =~= rows.take(i));
    assert(rows.take(i + 1).last() == rows[i]);
}

proof fn lemma_count_sum_take_le(rows: Seq<Row>, i: int)
    requires
        0 <= i <= rows.len(),
    ensures
        0 <= count_sum(rows.take(i)),
        count_sum(rows.take(i)) <= count_sum(rows),
    decreases rows.len() - i,
{
    lemma_count_sum_nonneg(rows.take(i));
    if i == rows.len() {
        assert(rows.take(i) =~= rows);
    } else {
        lemma_sums_take_step(rows, i);
        lemma_count_sum_take_le(rows, i + 1);
    }
}

/// The weighted sums are bounded by the midpoint bound times the total count.
proof fn lemma_sums_bounded(rows: Seq<Row>, c: int)
    requires
        c >= 0,
        forall|j: int| 0 <= j < rows.len() ==> -c <= (#[trigger] rows[j]).x.num <= c,
    ensures
        -(c * count_sum(rows)) <= weighted_center_sum(rows) <= c * count_sum(rows),
        0 <= weighted_square_sum(rows) <= c * c * count_sum(rows),
    decreases rows.len(),
{
    if rows.len() > 0 {
        let prefix = rows.drop_last();
        assert(forall|j: int| 0 <= j < prefix.len() ==> -c <= (#[trigger] prefix[j]).x.num <= c);
        lemma_sums_bounded(prefix, c);
        let x = rows.last().x.num;
        let o = rows.last().occurrences as int;
        let w = weighted_center_sum(prefix);
        let q = weighted_square_sum(prefix);
        let cs = count_sum(prefix);
        assert(-(c * (cs + o)) <= w + x * o <= c * (cs + o)) by (nonlinear_arith)
            requires
                -(c * cs) <= w <= c * cs,
                -c <= x <= c,
                0 <= o,
                0 <= c,
        ;
        assert(0 <= q + x * x * o <= c * c * (cs + o)) by (nonlinear_arith)
            requires
                0 <= q <= c * c * cs,
                -c <= x <= c,
                0 <= o,
                0 <= c,
        ;
    }
}

/// Sum of the squares of a sequence of integers.
pub open spec fn square_sum(s: Seq<int>) -> int
    decreases s.len(),
{
    if s.len() == 0 {
        0
    } else {
        square_sum(s.drop_last()) + s.last() * s.last()
    }
}

/// Unfolds the raw-series sums by one element at the end of a prefix.
proof fn lemma_series_take_step(s: Seq<int>, i: int)
    requires
        0 <= i < s.len(),
    ensures
        crate::math::seq_sum(s.take(i + 1)) == crate::math::seq_sum(s.take(i)) + s[i],
        square_sum(s.take(i + 1)) == square_sum(s.take(i)) + s[i] * s[i],
{
    assert(s.take(i + 1).drop_last() =~= s.take(i));
    assert(s.take(i + 1).last() == s[i]);
}

/// Mean of a raw series, `sum(v) / n`, as an exact rational. Unlike the
/// histogram statistics this works on the values themselves; the two are
/// deliberately distinct estimators.
pub fn calculate_expected_value(series: &Vec<i64>) -> (r: Frac)
    requires
        1 <= series@.len() <= SAMPLE_LIMIT,
        crate::math::in_value_range(crate::math::series_view(series@)),
    ensures
        r.num == crate::math::seq_sum(crate::math::series_view(series@)),
        r.den == series@.len(),
        -(1_000_000_000 * series@.len()) <= r.num <= 1_000_000_000 * series@.len(),
        r.wf(),
        r.bounded(),
{
    let ghost s = crate::math::series_view(series@);
    let n = series.len();
    let mut acc: i128 = 0;
    let mut i: usize = 0;
    while i < n
        invariant
            n == series@.len(),
            s == crate::math::series_view(series@),
            n <= SAMPLE_LIMIT,
            crate::math::in_value_range(s),
            i <= n,
            acc == crate::math::seq_sum(s.take(i as int)),
            -(i as int) * 1_000_000_000 <= acc <= (i as int) * 1_000_000_000,
        decreases n - i,
    {
        proof {
            assert(s[i as int] == series@[i as int] as int);
            lemma_series_take_step(s, i as int);
        }
        acc = acc + (series[i] as i128);
        i = i + 1;
    }
    proof {
        assert(s.take(n as int) =~= s);
    }
    Frac { num: acc, den: n as i128 }
}

/// Mean and biased variance of a raw series: `sum(v^2)/n - mean^2`, the
/// variance returned exactly over the denominator `n^2`.
pub fn calculate_expected_value_and_variance(series: &Vec<i64>) -> (r: (Frac, Frac))
    requires
        1 <= series@.len() <= SAMPLE_LIMIT,
        crate::math::in_value_range(crate::math::series_view(series@)),
    ensures
        r.0.num == crate::math::seq_sum(crate::math::series_view(series@)),
        r.0.den == series@.len(),
        r.1.num == series@.len() * square_sum(crate::math::series_view(series@))
            - crate::math::seq_sum(crate::math::series_view(series@)) * crate::math::seq_sum(
            crate::math::series_view(series@),
        ),
        r.1.den == series@.len() * series@.len(),
        r.0.wf(),
        r.0.bounded(),
        r.1.wf(),
{
    let ghost s = crate::math::series_view(series@);
    let expected_value = calculate_expected_value(series);
    let n = series.len();
    let mut acc: i128 = 0;
    let mut i: usize = 0;
    while i < n
        invariant
            n == series@.len(),
            s == crate::math::series_view(series@),
            n <= SAMPLE_LIMIT,
            crate::math::in_value_range(s),
            i <= n,
            acc == square_sum(s.take(i as int)),
            0 <= acc <= (i as int) * 1_000_000_000_000_000_000,
        decreases n - i,
    {
        let v = series[i];
        proof {
            assert(s[i as int] == series@[i as int] as int);
            lemma_series_take_step(s, i as int);
            lemma_mul_bound(v as int, v as int, 1_000_000_000, 1_000_000_000);
            assert(v as int * v as int >= 0) by (nonlinear_arith);
        }
        acc = acc + (v as i128) * (v as i128);
        i = i + 1;
    }
    proof {
        assert(s.take(n as int) =~= s);
        lemma_mul_bound(
            acc as int,
            n as int,
            1_000_000_000_000_000_000_000_000,
            1_000_000,
        );
        lemma_mul_bound(
            expected_value.num as int,
            expected_value.num as int,
            1_000_000_000_000_000,
            1_000_000_000_000_000,
        );
        lemma_mul_bound(n as int, n as int, 1_000_000, 1_000_000);
        assert(n as int * n as int >= 1) by (nonlinear_arith)
            requires
                n as int >= 1,
        ;
        assert((n as i128) * acc == acc as int * n as int) by (nonlinear_arith);
    }
    let variance_num = (n as i128) * acc - expected_value.num * expected_value.num;
    let variance = Frac { num: variance_num, den: (n as i128) * (n as i128) };
    (expected_value, variance)
}

/// Mean, biased variance and unbiased variance of a raw series; the last
/// scales the biased variance by `n / (n - 1)`, which needs `n >= 2`.
pub fn calculate_expected_value_variance_and_unbiased_variance(series: &Vec<i64>) -> (r: (
    Frac,
    Frac,
    Frac,
))
    requires
        2 <= series@.len() <= SAMPLE_LIMIT,
        crate::math::in_value_range(crate::math::series_view(series@)),
    ensures
        r.0.num == crate::math::seq_sum(crate::math::series_view(series@)),
        r.0.den == series@.len(),
        r.1.num == series@.len() * square_sum(crate::math::series_view(series@))
            - crate::math::seq_sum(crate::math::series_view(series@)) * crate::math::seq_sum(
            crate::math::series_view(series@),
        ),
        r.1.den == series@.len() * series@.len(),
        r.2.num == r.1.num,
        r.2.den * series@.len() == r.1.den * (series@.len() - 1),
        r.2.wf(),
{
    let (expected_value, variance) = calculate_expected_value_and_variance(series);
    let n = series.len();
    proof {
        lemma_mul_bound(n as int, n as int - 1, 1_000_000, 1_000_000);
        assert(n as int * (n as int - 1) >= 1 && (n as int * (n as int - 1)) * n as int == (n
            as int * n as int) * (n as int - 1)) by (nonlinear_arith)
            requires
                n as int >= 2,
        ;
    }
    let unbiased = Frac { num: variance.num, den: (n as i128) * ((n as i128) - 1) };
    (expected_value, variance, unbiased)
}

/// Degrees of freedom for a chi-squared test: `intervals - unknown - 1`.
/// Returns [`StatError::InvalidParameter`] exactly when that is not positive.
pub fn degrees_of_freedom(intervals: usize, unknown_parameters: usize) -> (r: Result<
    usize,
    StatError,
>)
    ensures
        intervals > unknown_parameters + 1 ==> r == Ok::<usize, StatError>(
            (intervals - unknown_parameters - 1) as usize,
        ),
        intervals <= unknown_parameters + 1 ==> r == Err::<usize, StatError>(
            StatError::InvalidParameter,
        ),
{
    if unknown_parameters < intervals && intervals - unknown_parameters > 1 {
        Ok(intervals - unknown_parameters - 1)
    } else {
        Err(StatError::InvalidParameter)
    }
}

/// A histogram built from a bounded sorted sample with a modest number of
/// bins is within the limits of the exact statistics arithmetic.
pub proof fn lemma_histogram_stats_ready(h: Histogram, s: Seq<int>, k: int)
    requires
        crate::math::is_histogram_of(h, s, k),
        crate::math::sorted(s),
        crate::math::in_value_range(s),
        1 <= s.len() <= SAMPLE_LIMIT as int,
        1 <= k <= 64,
    ensures
        h.stats_ready(),
{
    let n = s.len() as int;
    let minv = s[0];
    let delta = s[n - 1] - s[0];
    assert(0 <= delta <= 2_000_000_000);
    assert forall|j: int| 0 <= j < h.occurrences@.len() implies {
        &&& (#[trigger] h.occurrences@[j]).x.den == 2 * h.step.den
        &&& -CENTER_LIMIT <= h.occurrences@[j].x.num <= CENTER_LIMIT
    } by {
        assert(h.occurrences@[j].x.num == crate::math::center_num(minv, delta, k, j));
        crate::frac::lemma_mul_bound(2 * minv, k, 2_000_000_000, 64);
        assert(2 * j + 1 <= 2 * k - 1);
        crate::frac::lemma_mul_bound(2 * j + 1, delta, 127, 2_000_000_000);
    }
    crate::math::lemma_total_count(h, s, k);
}

/// Unbiased-variance law: if `u` has the same numerator as `v` and a
/// denominator smaller by the factor `n / (n - 1)`, then as rationals
/// `u == v * n / (n - 1)`.
pub proof fn lemma_unbiased_variance_ratio(v: Frac, u: Frac, n: int)
    requires
        n >= 2,
        u.num == v.num,
        u.den * n == v.den * (n - 1),
    ensures
        u.num * (v.den * (n - 1)) == (v.num * n) * u.den,
{
    assert(u.num * (v.den * (n - 1)) == (v.num * n) * u.den) by (nonlinear_arith)
        requires
            u.num == v.num,
            u.den * n == v.den * (n - 1),
    ;
}

impl Histogram {
    /// The histogram is structurally sound and small enough that the exact
    /// statistics arithmetic stays within `i128`.
    pub open spec fn stats_ready(self) -> bool {
        &&& self.occurrences@.len() >= 1
        &&& 1 <= self.sample_size <= SAMPLE_LIMIT
        &&& 1 <= self.step.den <= STEP_DEN_LIMIT
        &&& forall|j: int| 0 <= j < self.occurrences@.len() ==> {
            &&& (#[trigger] self.occurrences@[j]).x.den == 2 * self.step.den
            &&& -CENTER_LIMIT <= self.occurrences@[j].x.num <= CENTER_LIMIT
        }
        &&& count_sum(self.occurrences@) <= self.sample_size as int
    }

    /// Mean of the binned data, `sum(center * count) / n`, as an exact
    /// rational over the common denominator `2 * step.den * n`.
    pub fn calculate_expected_value(&self) -> (r: Frac)
        requires
            self.stats_ready(),
        ensures
            r.num == weighted_center_sum(self.occurrences@),
            r.den == 2 * self.step.den * self.sample_size,
            r.wf(),
            r.bounded(),
    {
        let rows_len = self.occurrences.len();
        let mut acc: i128 = 0;
        let mut i: usize = 0;
        while i < rows_len
            invariant
                self.stats_ready(),
                rows_len == self.occurrences@.len(),
                i <= rows_len,
                acc == weighted_center_sum(self.occurrences@.take(i as int)),
            decreases rows_len - i,
        {
            let row: Row = self.occurrences[i];
            proof {
                lemma_sums_take_step(self.occurrences@, i as int);
                lemma_count_sum_take_le(self.occurrences@, i as int);
                lemma_count_sum_take_le(self.occurrences@, i as int + 1);
                lemma_sums_bounded(self.occurrences@.take(i as int), CENTER_LIMIT as int);
                lemma_sums_bounded(self.occurrences@.take(i as int + 1), CENTER_LIMIT as int);
                lemma_mul_bound(
                    row.x.num as int,
                    row.occurrences as int,
                    1_000_000_000_000,
                    1_000_000,
                );
            }
            acc = acc + row.x.num * (row.occurrences as i128);
            i = i + 1;
        }
        proof {
            assert(self.occurrences@.take(rows_len as int) =~= self.occurrences@);
            lemma_count_sum_nonneg(self.occurrences@);
            lemma_sums_bounded(self.occurrences@, CENTER_LIMIT as int);
            lemma_mul_bound(
                2 * self.step.den as int,
                self.sample_size as int,
                4_000_000,
                1_000_000,
            );
            assert(2 * self.step.den * self.sample_size as int >= 1) by (nonlinear_arith)
                requires
                    self.step.den >= 1,
                    self.sample_size >= 1,
            ;
        }
        Frac { num: acc, den: 2 * self.step.den * (self.sample_size as i128) }
    }

    /// Mean and biased variance of the binned data. The variance is
    /// `sum(center^2 * count) / n - mean^2`, returned exactly over the
    /// denominator `mean.den^2`.
    pub fn calculate_expected_value_and_variance(&self) -> (r: (Frac, Frac))
        requires
            self.stats_ready(),
        ensures
            r.0.num == weighted_center_sum(self.occurrences@),
            r.0.den == 2 * self.step.den * self.sample_size,
            r.1.num == self.sample_size * weighted_square_sum(self.occurrences@)
                - weighted_center_sum(self.occurrences@) * weighted_center_sum(
                self.occurrences@,
            ),
            r.1.den == r.0.den * r.0.den,
            r.0.wf(),
            r.0.bounded(),
            r.1.wf(),
    {
        let mean = self.calculate_expected_value();
        let rows_len = self.occurrences.len();
        let mut acc: i128 = 0;
        let mut i: usize = 0;
        while i < rows_len
            invariant
                self.stats_ready(),
                rows_len == self.occurrences@.len(),
                i <= rows_len,
                acc == weighted_square_sum(self.occurrences@.take(i as int)),
            decreases rows_len - i,
        {
            let row: Row = self.occurrences[i];
            proof {
                lemma_sums_take_step(self.occurrences@, i as int);
                lemma_count_sum_take_le(self.occurrences@, i as int);
                lemma_count_sum_take_le(self.occurrences@, i as int + 1);
                lemma_sums_bounded(self.occurrences@.take(i as int), CENTER_LIMIT as int);
                lemma_sums_bounded(self.occurrences@.take(i as int + 1), CENTER_LIMIT as int);
                lemma_mul_bound(row.x.num as int, row.x.num as int, 1_000_000_000_000, 1_000_000_000_000);
                lemma_mul_bound(
                    row.x.num as int * row.x.num as int,
                    row.occurrences as int,
                    1_000_000_000_000_000_000_000_000,
                    1_000_000,
                );
            }
            acc = acc + row.x.num * row.x.num * (row.occurrences as i128);
            i = i + 1;
        }
        proof {
            assert(self.occurrences@.take(rows_len as int) =~= self.occurrences@);
            lemma_count_sum_nonneg(self.occurrences@);
            lemma_sums_bounded(self.occurrences@, CENTER_LIMIT as int);
            lemma_mul_bound(
                acc as int,
                self.sample_size as int,
                1_000_000_000_000_000_000_000_000_000_000,
                1_000_000,
            );
            lemma_mul_bound(
                mean.num as int,
                mean.num as int,
                1_000_000_000_000_000_000,
                1_000_000_000_000_000_000,
            );
            lemma_mul_bound(
                2 * self.step.den as int,
                self.sample_size as int,
                4_000_000,
                1_000_000,
            );
            lemma_mul_bound(
                mean.den as int,
                mean.den as int,
                4_000_000_000_000,
                4_000_000_000_000,
            );
            assert(mean.den * mean.den >= 1) by (nonlinear_arith)
                requires
                    mean.den >= 1,
            ;
        }
        let variance_num = (self.sample_size as i128) * acc - mean.num * mean.num;
        let variance = Frac { num: variance_num, den: mean.den * mean.den };
        proof {
            assert(self.sample_size as i128 * acc == acc as int * self.sample_size as int)
                by (nonlinear_arith);
        }
        (mean, variance)
    }

    /// Mean, biased variance and unbiased variance of the binned data. The
    /// unbiased variance equals the biased variance scaled by `n / (n - 1)`,
    /// which needs `n >= 2`.
    pub fn calculate_expected_value_variance_and_unbiased_variance(&self) -> (r: (
        Frac,
        Frac,
        Frac,
    ))
        requires
            self.stats_ready(),
            self.sample_size >= 2,
        ensures
            r.0.num == weighted_center_sum(self.occurrences@),
            r.0.den == 2 * self.step.den * self.sample_size,
            r.1.num == self.sample_size * weighted_square_sum(self.occurrences@)
                - weighted_center_sum(self.occurrences@) * weighted_center_sum(
                self.occurrences@,
            ),
            r.1.den == r.0.den * r.0.den,
            r.2.num == r.1.num,
            r.2.den * self.sample_size == r.1.den * (self.sample_size - 1),
            r.0.wf(),
            r.1.wf(),
            r.2.wf(),
    {
        let (mean, variance) = self.calculate_expected_value_and_variance();
        let n = self.sample_size as i128;
        let width = 2 * self.step.den;
        proof {
            lemma_mul_bound(width as int, width as int, 4_000_000, 4_000_000);
        }
        let ww = width * width;
        proof {
            lemma_mul_bound(ww as int, n as int, 16_000_000_000_000, 1_000_000);
        }
        let wwn = ww * n;
        proof {
            lemma_mul_bound(wwn as int, n as int - 1, 16_000_000_000_000_000_000, 1_000_000);
        }
        let unbiased_den = wwn * (n - 1);
        let unbiased = Frac { num: variance.num, den: unbiased_den };
        proof {
            assert(unbiased_den as int >= 1 && unbiased_den as int * self.sample_size as int
                == (mean.den as int * mean.den as int) * (self.sample_size as int - 1))
                by (nonlinear_arith)
                requires
                    unbiased_den as int == ((width as int * width as int) * self.sample_size as int)
                        * (self.sample_size as int - 1),
                    width as int == 2 * self.step.den as int,
                    mean.den as int == 2 * self.step.den as int * self.sample_size as int,
                    self.step.den >= 1,
                    self.sample_size >= 2,
            ;
        }
        (mean, variance, unbiased)
    }

    /// Pearson's chi-squared statistic over the bins, with each term
    /// `(occ/n - p/q)^2 / (p/q)` rounded down at resolution `1/STAT_SCALE`.
    /// The theoretical probability of bin `j` is `probs[j] / prob_den`.
    /// Returns [`StatError::NumericalError`] exactly when some theoretical
    /// probability is zero.
    pub fn chi_squared_statistic(&self, probs: &Vec<i64>, prob_den: i64) -> (r: Result<
        Frac,
        StatError,
    >)
        requires
            probs@.len() == self.occurrences@.len(),
            self.occurrences@.len() <= BIN_LIMIT,
            1 <= self.sample_size <= SAMPLE_LIMIT,
            1 <= prob_den <= PROB_DEN_LIMIT,
            forall|j: int| 0 <= j < probs@.len() ==> 0 <= #[trigger] probs@[j] <= prob_den,
            forall|j: int| 0 <= j < self.occurrences@.len() ==> (#[trigger] self.occurrences@[j]).occurrences
                <= self.sample_size,
        ensures
            (exists|j: int| 0 <= j < probs@.len() && probs@[j] == 0) ==> r == Err::<
                Frac,
                StatError,
            >(StatError::NumericalError),
            (forall|j: int| 0 <= j < probs@.len() ==> probs@[j] != 0) ==> {
                &&& r matches Ok(f)
                &&& f.num == chi_terms_sum(
                    self.occurrences@,
                    probs@,
                    prob_den as int,
                    self.sample_size as int,
                )
                &&& f.den == STAT_SCALE
                &&& f.wf()
                &&& f.bounded()
            },
    {
        let rows_len = self.occurrences.len();
        let n = self.sample_size;
        let q = prob_den;
        let mut acc: i128 = 0;
        let mut i: usize = 0;
        while i < rows_len
            invariant
                probs@.len() == self.occurrences@.len(),
                rows_len == self.occurrences@.len(),
                rows_len <= BIN_LIMIT,
                1 <= n <= SAMPLE_LIMIT,
                n == self.sample_size,
                1 <= q <= PROB_DEN_LIMIT,
                forall|j: int| 0 <= j < probs@.len() ==> 0 <= #[trigger] probs@[j] <= q,
                forall|j: int| 0 <= j < self.occurrences@.len() ==> (
                #[trigger] self.occurrences@[j]).occurrences <= n,
                i <= rows_len,
                forall|j: int| 0 <= j < i ==> #[trigger] probs@[j] != 0,
                acc == chi_terms_sum(
                    self.occurrences@.take(i as int),
                    probs@.take(i as int),
                    q as int,
                    n as int,
                ),
                0 <= acc <= i as int * 1_000_000_000_000_000,
            decreases rows_len - i,
        {
            let p = probs[i];
            if p == 0 {
                return Err(StatError::NumericalError);
            }
            let row: Row = self.occurrences[i];
            proof {
                lemma_mul_bound(row.occurrences as int, q as int, 1_000_000, 1_000_000);
                lemma_mul_bound(p as int, n as int, 1_000_000, 1_000_000);
            }
            let occ_q: i128 = (row.occurrences as i128) * (q as i128);
            let pn: i128 = (p as i128) * (n as i128);
            let d: i128 = occ_q - pn;
            proof {
                lemma_mul_bound(n as int, q as int, 1_000_000, 1_000_000);
                assert(occ_q as int <= n as int * q as int && pn as int <= n as int * q as int)
                    by (nonlinear_arith)
                    requires
                        occ_q as int == row.occurrences as int * q as int,
                        pn as int == p as int * n as int,
                        row.occurrences as int <= n as int,
                        p as int <= q as int,
                        q as int >= 1,
                        n as int >= 1,
                ;
                lemma_mul_bound(d as int, d as int, n as int * q as int, n as int * q as int);
                lemma_mul_bound(d as int, d as int, 1_000_000_000_000, 1_000_000_000_000);
                assert(d as int * d as int >= 0) by (nonlinear_arith);
                lemma_mul_bound(n as int, n as int, 1_000_000, 1_000_000);
                lemma_mul_bound(n as int * n as int, q as int, 1_000_000_000_000, 1_000_000);
                lemma_mul_bound(
                    n as int * n as int * q as int,
                    p as int,
                    1_000_000_000_000_000_000,
                    1_000_000,
                );
                assert(n as int * n as int * q as int * p as int >= 1) by (nonlinear_arith)
                    requires
                        n as int >= 1,
                        q as int >= 1,
                        p as int >= 1,
                ;
            }
            let dd: i128 = d * d;
            let num: i128 = dd * STAT_SCALE;
            let den: i128 = (n as i128) * (n as i128) * (q as i128) * (p as i128);
            let t: i128 = ((num as u128) / (den as u128)) as i128;
            proof {
                vstd::arithmetic::div_mod::lemma_fundamental_div_mod(num as int, den as int);
                assert(0 <= t as int <= q as int * STAT_SCALE) by (nonlinear_arith)
                    requires
                        den as int * (t as int) <= num as int,
                        num as int <= (n as int * q as int) * (n as int * q as int) * STAT_SCALE,
                        den as int == n as int * n as int * q as int * p as int,
                        t as int >= 0,
                        n as int >= 1,
                        q as int >= 1,
                        1 <= p as int <= q as int,
                ;
                assert(t as int <= 1_000_000_000_000_000);
                lemma_sums_take_step(self.occurrences@, i as int);
                assert(probs@.take(i as int + 1).drop_last() =~= probs@.take(i as int));
                assert(self.occurrences@.take(i as int + 1).drop_last() =~= self.occurrences@.take(
                    i as int,
                ));
                assert(t as int == chi_term(row.occurrences as int, p as int, q as int, n as int));
            }
            acc = acc + t;
            i = i + 1;
        }
        proof {
            assert(self.occurrences@.take(rows_len as int) =~= self.occurrences@);
            assert(probs@.take(rows_len as int) =~= probs@);
        }
        Ok(Frac { num: acc, den: STAT_SCALE })
    }

    /// The decision rule of the goodness-of-fit test, a standalone strict
    /// comparison: with `values == (statistic, critical_value)`, the fit is
    /// accepted exactly when `statistic < critical_value`.
    pub fn use_persean_test(values: (Frac, Frac)) -> (r: bool)
        requires
            values.0.bounded(),
            values.1.bounded(),
        ensures
            r == values.0.lt_value(values.1),
    {
        values.0.lt(&values.1)
    }
}

} // verus!

