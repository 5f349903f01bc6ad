//! Histogram construction.
//!
//! A sample is a sorted sequence of fixed-point values (`i64` ticks at a
//! caller-chosen resolution). The builder splits the sample's range into `k`
//! equal-width bins: bin `j` owns the half-open interval
//! `[min + j*step, min + (j+1)*step)` with `step = (max - min) / k`, except
//! the last bin, which is closed at the sample maximum. Every bin is emitted,
//! empty ones included, and every value is counted in exactly the one bin
//! whose interval holds it. All boundary comparisons are exact: `v` lies
//! below `min + j*step` exactly when `v * k < min * k + j * (max - min)`.

use vstd::prelude::*;
use crate::frac::Frac;
use crate::frac::lemma_mul_bound;
use crate::frac::lemma_mul_le;

verus! {

/// Largest magnitude a sample value may have, so that every product taken
/// while binning and while computing statistics stays within `i128`.
pub const VALUE_LIMIT: i64 = 1_000_000_000;

/// One histogram bin: its midpoint `x` and how many sample values fell in it.
#[derive(Clone, Copy, Debug, PartialEq, Eq, Structural)]
pub struct Row {
    pub x: Frac,
    pub occurrences: usize,
}

impl Row {
    pub fn new(x: Frac, occurrences: usize) -> (r: Row)
        ensures
            r.x == x,
            r.occurrences == occurrences,
    {
        Row { x, occurrences }
    }
}

/// An equal-width frequency histogram over a sample of `sample_size` values.
/// The step is `(max - min) / k`: zero exactly when the sample is constant,
/// positive otherwise.
#[derive(Debug)]
pub struct Histogram {
    pub occurrences: Vec<Row>,
    pub step: Frac,
    pub sample_size: usize,
}

/// `floor(log2(n))` for `n >= 1` (and 0 for `n == 0`).
pub open spec fn log2_floor(n: nat) -> nat
    decreases n,
{
    if n < 2 {
        0
    } else {
        1 + log2_floor(n / 2)
    }
}

/// Sturges' rule: a sample of `n` values gets `1 + floor(log2(n))` bins.
pub open spec fn sturges_groups(n: nat) -> nat {
    1 + log2_floor(n)
}

/// The sample as a sequence of mathematical integers.
pub open spec fn series_view(s: Seq<i64>) -> Seq<int> {
    s.map_values(|v: i64| v as int)
}

pub open spec fn sorted(s: Seq<int>) -> bool {
    forall|i: int, j: int| 0 <= i <= j < s.len() ==> s[i] <= s[j]
}

pub open spec fn in_value_range(s: Seq<int>) -> bool {
    forall|i: int| 0 <= i < s.len() ==> -(VALUE_LIMIT as int) <= #[trigger] s[i] <= VALUE_LIMIT as int
}

/// `v` lies in bin `j`: at or above `min + j*step` and below
/// `min + (j+1)*step`, where `step = delta / k`; the last bin has no upper
/// boundary, so it is closed at the sample maximum, which no value exceeds.
/// The comparisons are cross-multiplied by `k` to stay exact.
pub open spec fn in_bin(v: int, minv: int, delta: int, k: int, j: int) -> bool {
    if j < k - 1 {
        minv * k + j * delta <= v * k < minv * k + (j + 1) * delta
    } else {
        minv * k + j * delta <= v * k
    }
}

/// How many values of `s` lie in bin `j`.
pub open spec fn count_in_bin(s: Seq<int>, minv: int, delta: int, k: int, j: int) -> int
    decreases s.len(),
{
    if s.len() == 0 {
        0
    } else {
        count_in_bin(s.drop_last(), minv, delta, k, j) + if in_bin(s.last(), minv, delta, k, j) {
            1int
        } else {
            0int
        }
    }
}

/// Numerator of bin `j`'s midpoint `min + j*step + step/2` over the common
/// denominator `2*k`, with `step = delta / k`.
pub open spec fn center_num(minv: int, delta: int, k: int, j: int) -> int {
    2 * minv * k + (2 * j + 1) * delta
}

/// `h` is exactly the histogram of the sorted sample `s` with `k` bins:
/// one row per bin, counts by interval membership, midpoints
/// `(2*min*k + (2j+1)*delta) / (2k)`, and step `delta / k`.
pub open spec fn is_histogram_of(h: Histogram, s: Seq<int>, k: int) -> bool {
    let minv = s[0];
    let delta = s[s.len() - 1] - s[0];
    &&& h.sample_size == s.len()
    &&& h.step.num == delta
    &&& h.step.den == k
    &&& h.occurrences@.len() == k
    &&& forall|j: int| 0 <= j < k ==> {
        &&& (#[trigger] h.occurrences@[j]).occurrences as int == count_in_bin(s, minv, delta, k, j)
        &&& h.occurrences@[j].x.num == center_num(minv, delta, k, j)
        &&& h.occurrences@[j].x.den == 2 * k
    }
}

/// Sum of a sequence of integers.
pub open spec fn seq_sum(s: Seq<int>) -> int
    decreases s.len(),
{
    if s.len() == 0 {
        0
    } else {
        seq_sum(s.drop_last()) + s.last()
    }
}

/// Total of the bin counts of a sequence of rows.
pub open spec fn count_sum(rows: Seq<Row>) -> int
    decreases rows.len(),
{
    if rows.len() == 0 {
        0
    } else {
        count_sum(rows.drop_last()) + rows.last().occurrences as int
    }
}

/// How many of the bins `0 .. j` contain `v`.
spec fn bins_containing(v: int, minv: int, delta: int, k: int, j: int) -> int
    decreases j,
{
    if j <= 0 {
        0
    } else {
        bins_containing(v, minv, delta, k, j - 1) + if in_bin(v, minv, delta, k, j - 1) {
            1int
        } else {
            0int
        }
    }
}

/// Total of `count_in_bin` over the bins `0 .. j`.
spec fn counts_total(s: Seq<int>, minv: int, delta: int, k: int, j: int) -> int
    decreases j,
{
    if j <= 0 {
        0
    } else {
        counts_total(s, minv, delta, k, j - 1) + count_in_bin(s, minv, delta, k, j - 1)
    }
}

/// Among the bounded bins `0 .. j` (`j <= k - 1`), `v` lies in exactly one
/// when it is below the `j`-th boundary, in none otherwise.
proof fn lemma_bins_containing_prefix(v: int, minv: int, delta: int, k: int, j: int)
    requires
        k >= 1,
        delta >= 0,
        v >= minv,
        0 <= j <= k - 1,
    ensures
        bins_containing(v, minv, delta, k, j) == if v * k < minv * k + j * delta {
            1int
        } else {
            0int
        },
    decreases j,
{
    if j == 0 {
        assert(minv * k <= v * k) by (nonlinear_arith)
            requires
                minv <= v,
                k >= 1,
        ;
    } else {
        lemma_bins_containing_prefix(v, minv, delta, k, j - 1);
        assert((j - 1) * delta <= j * delta) by (nonlinear_arith)
            requires
                delta >= 0,
        ;
    }
}

/// Every value at or above the sample minimum lies in exactly one of the `k`
/// bins: the bounded ones partition `[min, min + (k-1)*step)` and the last
/// bin owns everything from its lower boundary up.
proof fn lemma_exactly_one_bin(v: int, minv: int, delta: int, k: int)
    requires
        k >= 1,
        delta >= 0,
        v >= minv,
    ensures
        bins_containing(v, minv, delta, k, k) == 1,
{
    lemma_bins_containing_prefix(v, minv, delta, k, k - 1);
}

proof fn lemma_counts_total_empty(minv: int, delta: int, k: int, j: int)
    ensures
        counts_total(Seq::<int>::empty(), minv, delta, k, j) == 0,
    decreases j,
{
    if j > 0 {
        lemma_counts_total_empty(minv, delta, k, j - 1);
    }
}

proof fn lemma_counts_total_drop(s: Seq<int>, minv: int, delta: int, k: int, j: int)
    requires
        s.len() >= 1,
        j >= 0,
    ensures
        counts_total(s, minv, delta, k, j) == counts_total(s.drop_last(), minv, delta, k, j)
            + bins_containing(s.last(), minv, delta, k, j),
    decreases j,
{
    if j > 0 {
        lemma_counts_total_drop(s, minv, delta, k, j - 1);
    }
}

/// The bin counts partition the sample: over all `k` bins they total the
/// number of values.
proof fn lemma_counts_partition(s: Seq<int>, minv: int, delta: int, k: int)
    requires
        k >= 1,
        delta >= 0,
        forall|m: int| 0 <= m < s.len() ==> #[trigger] s[m] >= minv,
    ensures
        counts_total(s, minv, delta, k, k) == s.len(),
    decreases s.len(),
{
    if s.len() == 0 {
        assert(s =~= Seq::<int>::empty());
        lemma_counts_total_empty(minv, delta, k, k);
    } else {
        let prefix = s.drop_last();
        assert(forall|m: int| 0 <= m < prefix.len() ==> #[trigger] prefix[m] >= minv);
        lemma_counts_partition(prefix, minv, delta, k);
        lemma_counts_total_drop(s, minv, delta, k, k);
        lemma_exactly_one_bin(s.last(), minv, delta, k);
    }
}

/// Rows whose counts are the per-bin membership counts total the same as the
/// bins they cover.
proof fn lemma_count_sum_matches(rows: Seq<Row>, s: Seq<int>, minv: int, delta: int, k: int)
    requires
        forall|j: int| 0 <= j < rows.len() ==> (#[trigger] rows[j]).occurrences as int
            == count_in_bin(s, minv, delta, k, j),
    ensures
        count_sum(rows) == counts_total(s, minv, delta, k, rows.len() as int),
    decreases rows.len(),
{
    if rows.len() > 0 {
        let prefix = rows.drop_last();
        assert(forall|j: int| 0 <= j < prefix.len() ==> (#[trigger] prefix[j]).occurrences as int
            == count_in_bin(s, minv, delta, k, j));
        lemma_count_sum_matches(prefix, s, minv, delta, k);
    }
}

/// Count conservation: the bin counts of a histogram sum exactly to the
/// sample size, for every sorted sample and every requested bin count.
pub proof fn lemma_total_count(h: Histogram, s: Seq<int>, k: int)
    requires
        is_histogram_of(h, s, k),
        s.len() >= 1,
        k >= 1,
        sorted(s),
    ensures
        count_sum(h.occurrences@) == s.len(),
{
    let minv = s[0];
    let delta = s[s.len() - 1] - s[0];
    assert(forall|m: int| 0 <= m < s.len() ==> #[trigger] s[m] >= minv);
    lemma_counts_partition(s, minv, delta, k);
    lemma_count_sum_matches(h.occurrences@, s, minv, delta, k);
}

/// Unfolds the membership count by one value at the end of a prefix.
proof fn lemma_count_take_step(s: Seq<int>, minv: int, delta: int, k: int, j: int, i: int)
    requires
        0 <= i < s.len(),
    ensures
        count_in_bin(s.take(i + 1), minv, delta, k, j) == count_in_bin(s.take(i), minv, delta, k, j)
            + if in_bin(s[i], minv, delta, k, j) {
            1int
        } else {
            0int
        },
{
    assert(s.take(i + 1).drop_last() =~= s.take(i));
    assert(s.take(i + 1).last() == s[i]);
}

/// Bin geometry: the width of every bin is the step, midpoints ascend by
/// exactly one step, and the step is positive whenever the sample maximum
/// exceeds the minimum — in that case the midpoints strictly increase.
pub proof fn lemma_centers_evenly_spaced(h: Histogram, s: Seq<int>, k: int)
    requires
        is_histogram_of(h, s, k),
        s.len() >= 1,
        k >= 1,
    ensures
        s[0] < s[s.len() - 1] ==> h.step.num > 0 && h.step.den > 0,
        forall|j: int| 0 <= j < h.occurrences@.len() - 1 ==> {
            &&& (#[trigger] h.occurrences@[j]).x.den == h.occurrences@[j + 1].x.den
            &&& h.occurrences@[j + 1].x.num - h.occurrences@[j].x.num == 2 * (s[s.len() - 1] - s[0])
            &&& (h.occurrences@[j + 1].x.num - h.occurrences@[j].x.num) * h.step.den
                == h.step.num * h.occurrences@[j].x.den
            &&& s[0] < s[s.len() - 1] ==> h.occurrences@[j].x.lt_value(h.occurrences@[j + 1].x)
        },
{
    let n = s.len() as int;
    let minv = s[0];
    let delta = s[n - 1] - s[0];
    assert forall|j: int| 0 <= j < h.occurrences@.len() - 1 implies {
        &&& (#[trigger] h.occurrences@[j]).x.den == h.occurrences@[j + 1].x.den
        &&& h.occurrences@[j + 1].x.num - h.occurrences@[j].x.num == 2 * (s[s.len() - 1] - s[0])
        &&& (h.occurrences@[j + 1].x.num - h.occurrences@[j].x.num) * h.step.den
            == h.step.num * h.occurrences@[j].x.den
        &&& s[0] < s[s.len() - 1] ==> h.occurrences@[j].x.lt_value(h.occurrences@[j + 1].x)
    } by {
        let a = h.occurrences@[j].x;
        let b = h.occurrences@[j + 1].x;
        assert(a.num == center_num(minv, delta, k, j));
        assert(b.num == center_num(minv, delta, k, j + 1));
        assert(b.num - a.num == 2 * delta) by (nonlinear_arith)
            requires
                a.num == 2 * minv * k + (2 * j + 1) * delta,
                b.num == 2 * minv * k + (2 * (j + 1) + 1) * delta,
        ;
        assert((2 * delta) * k == delta * (2 * k)) by (nonlinear_arith);
        if s[0] < s[s.len() - 1] {
            assert(a.num * b.den < b.num * a.den) by (nonlinear_arith)
                requires
                    b.num - a.num == 2 * delta,
                    delta > 0,
                    a.den == b.den,
                    a.den == 2 * k,
                    k >= 1,
            ;
        }
    }
}

/// Determinism: two histograms built from the same sorted sample with the
/// same number of requested bins are identical.
pub proof fn lemma_histogram_deterministic(h1: Histogram, h2: Histogram, s: Seq<int>, k: int)
    requires
        is_histogram_of(h1, s, k),
        is_histogram_of(h2, s, k),
        s.len() >= 1,
    ensures
        h1.step == h2.step,
        h1.sample_size == h2.sample_size,
        h1.occurrences@ =~= h2.occurrences@,
{
    assert forall|j: int| 0 <= j < h1.occurrences@.len() implies #[trigger] h1.occurrences@[j]
        == h2.occurrences@[j] by {
        assert(h1.occurrences@[j].occurrences == h2.occurrences@[j].occurrences);
        assert(h1.occurrences@[j].x == h2.occurrences@[j].x);
    }
}

impl Histogram {
    /// Sturges' rule, computed by repeated halving.
    pub fn calculate_number_of_groups(number_of_measurements: usize) -> (k: usize)
        requires
            number_of_measurements >= 1,
        ensures
            k as nat == sturges_groups(number_of_measurements as nat),
            1 <= k <= number_of_measurements,
    {
        let mut m: usize = number_of_measurements;
        let mut k: usize = 1;
        while m >= 2
            invariant
                1 <= m,
                1 <= k,
                k as nat + log2_floor(m as nat) == sturges_groups(number_of_measurements as nat),
                k as int + m as int <= number_of_measurements as int + 1,
            decreases m,
        {
            m = m / 2;
            k = k + 1;
        }
        k
    }

    /// The bin count from Sturges' rule together with the bin width
    /// `(max - min) / k`, without building the histogram.
    pub fn calculate_histogram_group_number_and_step(series: &Vec<i64>) -> (r: (usize, Frac))
        requires
            series@.len() >= 1,
            sorted(series_view(series@)),
            in_value_range(series_view(series@)),
        ensures
            r.0 as nat == sturges_groups(series@.len() as nat),
            r.1.num == series_view(series@)[series@.len() - 1] - series_view(series@)[0],
            r.1.den == r.0 as int,
            r.1.wf(),
    {
        let k = Self::calculate_number_of_groups(series.len());
        let minv = series[0];
        let maxv = series[series.len() - 1];
        proof {
            assert(series_view(series@)[0] == series@[0] as int);
            assert(series_view(series@)[series@.len() - 1] == series@[series@.len() - 1] as int);
        }
        (k, Frac { num: (maxv - minv) as i128, den: k as i128 })
    }

    /// Builds the histogram with the number of bins given by Sturges' rule.
    ///
    /// The sample must be non-empty and sorted ascending; unsorted input
    /// would assign values to the wrong bins, so the caller owns that check.
    /// The bin counts always sum exactly to the sample size.
    pub fn from_sorted_series(series: &Vec<i64>) -> (h: Histogram)
        requires
            series@.len() >= 1,
            sorted(series_view(series@)),
            in_value_range(series_view(series@)),
        ensures
            is_histogram_of(h, series_view(series@), sturges_groups(series@.len() as nat) as int),
            count_sum(h.occurrences@) == series@.len(),
    {
        let k = Self::calculate_number_of_groups(series.len());
        Self::from_sorted_series_with_given_groups(series, k)
    }

    /// Builds the histogram with an explicit number of bins, sharing the
    /// binning pass of [`Histogram::from_sorted_series`].
    pub fn from_sorted_series_with_given_groups(series: &Vec<i64>, amount_of_groups: usize) -> (h: Histogram)
        requires
            series@.len() >= 1,
            amount_of_groups >= 1,
            sorted(series_view(series@)),
            in_value_range(series_view(series@)),
        ensures
            is_histogram_of(h, series_view(series@), amount_of_groups as int),
            count_sum(h.occurrences@) == series@.len(),
    {
        let ghost s = series_view(series@);
        let n = series.len();
        let k = amount_of_groups;
        let minv = series[0];
        let maxv = series[n - 1];
        proof {
            assert(s[0] == series@[0] as int);
            assert(s[n - 1] == series@[n - 1] as int);
        }
        let delta: i64 = maxv - minv;
        proof {
            lemma_mul_bound(minv as int, k as int, VALUE_LIMIT as int, 0xFFFF_FFFF_FFFF_FFFF);
        }
        let mk: i128 = (minv as i128) * (k as i128);
        let mut rows: Vec<Row> = Vec::new();
        let mut open_count: usize = 0;
        let mut idx: usize = 0;
        while idx < n
            invariant
                n == series@.len(),
                s == series_view(series@),
                n == s.len(),
                idx <= n,
                1 <= k,
                sorted(s),
                in_value_range(s),
                minv as int == s[0],
                maxv as int == s[n - 1],
                delta as int == s[n - 1] - s[0],
                delta >= 0,
                mk as int == minv as int * k,
                -(VALUE_LIMIT as int * 0xFFFF_FFFF_FFFF_FFFF) <= mk as int <= VALUE_LIMIT as int
                    * 0xFFFF_FFFF_FFFF_FFFF,
                rows@.len() < k,
                open_count <= idx,
                forall|j: int| 0 <= j < rows@.len() ==> {
                    &&& (#[trigger] rows@[j]).occurrences as int == count_in_bin(
                        s.take(idx as int),
                        minv as int,
                        delta as int,
                        k as int,
                        j,
                    )
                    &&& rows@[j].x.num == center_num(minv as int, delta as int, k as int, j)
                    &&& rows@[j].x.den == 2 * k as int
                },
                open_count as int == count_in_bin(
                    s.take(idx as int),
                    minv as int,
                    delta as int,
                    k as int,
                    rows@.len() as int,
                ),
                forall|j: int| rows@.len() < j < k ==> count_in_bin(
                    s.take(idx as int),
                    minv as int,
                    delta as int,
                    k as int,
                    j,
                ) == 0,
                rows@.len() == 0 || (idx > 0 && s[idx - 1] * k >= minv as int * k + rows@.len()
                    * delta),
            decreases n - idx,
        {
            let v = series[idx];
            proof {
                assert(s[idx as int] == series@[idx as int] as int);
                lemma_mul_bound(v as int, k as int, VALUE_LIMIT as int, 0xFFFF_FFFF_FFFF_FFFF);
                lemma_mul_bound(
                    delta as int,
                    rows@.len() as int + 1,
                    2 * VALUE_LIMIT as int,
                    0x1_0000_0000_0000_0000,
                );
                if rows@.len() > 0 {
                    assert(s[idx - 1] <= s[idx as int]);
                    lemma_mul_le(s[idx - 1], s[idx as int], k as int);
                }
            }
            let vk: i128 = (v as i128) * (k as i128);
            while rows.len() + 1 < k && vk >= mk + ((rows.len() as i128) + 1) * (delta as i128)
                invariant
                    n == s.len(),
                    idx < n,
                    1 <= k,
                    sorted(s),
                    in_value_range(s),
                    minv as int == s[0],
                    delta as int == s[n - 1] - s[0],
                    delta >= 0,
                    -(2 * VALUE_LIMIT as int * 0x1_0000_0000_0000_0000) <= (rows@.len() as int
                        + 1) * (delta as int) <= 2 * VALUE_LIMIT as int * 0x1_0000_0000_0000_0000,
                    mk as int == minv as int * k,
                    -(VALUE_LIMIT as int * 0xFFFF_FFFF_FFFF_FFFF) <= mk as int <= VALUE_LIMIT as int
                        * 0xFFFF_FFFF_FFFF_FFFF,
                    v as int == s[idx as int],
                    vk as int == v as int * k,
                    rows@.len() < k,
                    open_count <= idx,
                    forall|j: int| 0 <= j < rows@.len() ==> {
                        &&& (#[trigger] rows@[j]).occurrences as int == count_in_bin(
                            s.take(idx as int),
                            minv as int,
                            delta as int,
                            k as int,
                            j,
                        )
                        &&& rows@[j].x.num == center_num(minv as int, delta as int, k as int, j)
                        &&& rows@[j].x.den == 2 * k as int
                    },
                    open_count as int == count_in_bin(
                        s.take(idx as int),
                        minv as int,
                        delta as int,
                        k as int,
                        rows@.len() as int,
                    ),
                    forall|j: int| rows@.len() < j < k ==> count_in_bin(
                        s.take(idx as int),
                        minv as int,
                        delta as int,
                        k as int,
                        j,
                    ) == 0,
                    rows@.len() == 0 || v as int * k >= minv as int * k + rows@.len() * delta,
                decreases k - rows@.len(),
            {
                let j = rows.len();
                proof {
                    lemma_mul_bound(
                        2 * minv as int,
                        k as int,
                        2 * VALUE_LIMIT as int,
                        0xFFFF_FFFF_FFFF_FFFF,
                    );
                    lemma_mul_bound(
                        delta as int,
                        2 * j as int + 1,
                        2 * VALUE_LIMIT as int,
                        0x2_0000_0000_0000_0000,
                    );
                    lemma_mul_bound(
                        delta as int,
                        rows@.len() as int + 2,
                        2 * VALUE_LIMIT as int,
                        0x1_0000_0000_0000_0000,
                    );
                }
                let num: i128 =
                    2 * (minv as i128) * (k as i128) + (2 * (j as i128) + 1) * (delta as i128);
                let den: i128 = 2 * (k as i128);
                rows.push(Row::new(Frac { num, den }, open_count));
                open_count = 0;
            }
            proof {
                let ghost bi = rows@.len() as int;
                assert forall|j: int| 0 <= j < k implies (if in_bin(
                    s[idx as int],
                    minv as int,
                    delta as int,
                    k as int,
                    j,
                ) {
                    1int
                } else {
                    0int
                }) == (if j == bi {
                    1int
                } else {
                    0int
                }) by {
                    if j < bi {
                        assert((j + 1) * delta <= bi * delta) by (nonlinear_arith)
                            requires
                                j + 1 <= bi,
                                delta >= 0,
                        ;
                    } else if j > bi {
                        assert((bi + 1) * delta <= j * delta) by (nonlinear_arith)
                            requires
                                bi + 1 <= j,
                                delta >= 0,
                        ;
                    } else {
                        if bi == 0 {
                            assert(s[0] <= s[idx as int]);
                            lemma_mul_le(s[0], s[idx as int], k as int);
                        }
                        assert(0 * delta == 0) by (nonlinear_arith);
                    }
                }
                assert forall|j: int| 0 <= j < k implies count_in_bin(
                    s.take(idx as int + 1),
                    minv as int,
                    delta as int,
                    k as int,
                    j,
                ) == count_in_bin(s.take(idx as int), minv as int, delta as int, k as int, j) + (
                if j == bi {
                    1int
                } else {
                    0int
                }) by {
                    lemma_count_take_step(s, minv as int, delta as int, k as int, j, idx as int);
                }
                assert forall|j: int| rows@.len() < j < k implies #[trigger] count_in_bin(
                    s.take(idx as int + 1),
                    minv as int,
                    delta as int,
                    k as int,
                    j,
                ) == 0 by {
                    assert(count_in_bin(s.take(idx as int), minv as int, delta as int, k as int, j)
                        == 0);
                }
            }
            open_count = open_count + 1;
            idx = idx + 1;
        }
        proof {
            assert(s.take(n as int) =~= s);
        }
        let ghost closed = rows@.len() as int;
        // the pass left bin `j0` open: emit it, then the bins past the last
        // value, which hold nothing
        let j0 = rows.len();
        proof {
            lemma_mul_bound(
                2 * minv as int,
                k as int,
                2 * VALUE_LIMIT as int,
                0xFFFF_FFFF_FFFF_FFFF,
            );
            lemma_mul_bound(
                delta as int,
                2 * j0 as int + 1,
                2 * VALUE_LIMIT as int,
                0x2_0000_0000_0000_0000,
            );
        }
        let num0: i128 =
            2 * (minv as i128) * (k as i128) + (2 * (j0 as i128) + 1) * (delta as i128);
        let den0: i128 = 2 * (k as i128);
        rows.push(Row::new(Frac { num: num0, den: den0 }, open_count));
        while rows.len() < k
            invariant
                n == s.len(),
                n >= 1,
                1 <= k,
                in_value_range(s),
                minv as int == s[0],
                delta as int == s[n - 1] - s[0],
                delta >= 0,
                closed + 1 <= rows@.len() <= k,
                forall|j: int| 0 <= j < rows@.len() ==> {
                    &&& (#[trigger] rows@[j]).occurrences as int == count_in_bin(
                        s,
                        minv as int,
                        delta as int,
                        k as int,
                        j,
                    )
                    &&& rows@[j].x.num == center_num(minv as int, delta as int, k as int, j)
                    &&& rows@[j].x.den == 2 * k as int
                },
                forall|j: int| closed < j < k ==> count_in_bin(
                    s,
                    minv as int,
                    delta as int,
                    k as int,
                    j,
                ) == 0,
            decreases k - rows@.len(),
        {
            let j = rows.len();
            proof {
                lemma_mul_bound(
                    2 * minv as int,
                    k as int,
                    2 * VALUE_LIMIT as int,
                    0xFFFF_FFFF_FFFF_FFFF,
                );
                lemma_mul_bound(
                    delta as int,
                    2 * j as int + 1,
                    2 * VALUE_LIMIT as int,
                    0x2_0000_0000_0000_0000,
                );
            }
            let num: i128 =
                2 * (minv as i128) * (k as i128) + (2 * (j as i128) + 1) * (delta as i128);
            let den: i128 = 2 * (k as i128);
            rows.push(Row::new(Frac { num, den }, 0));
        }
        let h = Histogram {
            occurrences: rows,
            step: Frac { num: delta as i128, den: k as i128 },
            sample_size: n,
        };
        proof {
            lemma_total_count(h, s, k as int);
        }
        h
    }
}

} // verus!
