//! Histogram binning.
//!
//! Given the numeric values of one column, a single linear scan finds
//! their minimum and maximum; `nbins` equal bins then cover `[min, max]`
//! with integer edges `min + i * (max - min) / nbins`.  Each value
//! increments the bin it falls in: lower bounds are inclusive, and values
//! equal to the maximum fall in the last bin, never past it.  A bin no
//! value fell in keeps a zero count, to be rendered as a zero-height bar
//! rather than omitted.

use vstd::prelude::*;

use vstd::arithmetic::div_mod::lemma_div_by_multiple;
use vstd::arithmetic::div_mod::lemma_div_is_ordered;
use vstd::arithmetic::div_mod::lemma_div_pos_is_pos;

verus! {

/// Most bins a histogram may be asked for; keeps the edge formula exact
/// in 128-bit intermediate arithmetic for any `i64` data range.
pub const MAX_BINS: usize = 65536;

/// A render-ready histogram: `nbins + 1` non-decreasing edges and one
/// count per bin.
#[derive(Clone, Debug)]
pub struct HistogramSpec {
    /// Bin boundaries, from the data minimum to the data maximum.
    pub edges: Vec<i64>,
    /// `counts[b]` is how many values fell in bin `b`; zero counts stay.
    pub counts: Vec<usize>,
}

/// Smallest element of a non-empty value sequence (0 for an empty one).
pub open spec fn seq_min(vals: Seq<i64>) -> int
    decreases vals.len(),
{
    if vals.len() == 0 {
        0
    } else if vals.len() == 1 {
        vals[0] as int
    } else {
        let m = seq_min(vals.drop_last());
        if vals.last() < m {
            vals.last() as int
        } else {
            m
        }
    }
}

/// Largest element of a non-empty value sequence (0 for an empty one).
pub open spec fn seq_max(vals: Seq<i64>) -> int
    decreases vals.len(),
{
    if vals.len() == 0 {
        0
    } else if vals.len() == 1 {
        vals[0] as int
    } else {
        let m = seq_max(vals.drop_last());
        if vals.last() > m {
            vals.last() as int
        } else {
            m
        }
    }
}

/// The `i`-th bin boundary over `[min, max]` with `nbins` bins.
pub open spec fn spec_edge(min: int, max: int, nbins: int, i: int) -> int {
    min + (i * (max - min)) / nbins
}

/// Which bin a value of `[min, max]` falls in: inclusive lower bounds,
/// with anything at or past the last lower bound (notably `max` itself)
/// in the last bin — also when the range is degenerate and every value
/// equals the maximum.
pub open spec fn spec_bin_index(v: int, min: int, max: int, nbins: int) -> int {
    if max <= min {
        nbins - 1
    } else {
        let raw = ((v - min) * nbins) / (max - min);
        if raw >= nbins {
            nbins - 1
        } else {
            raw
        }
    }
}

/// Finds the minimum and maximum of the values in one linear scan.
///
/// Returns `Some` exactly when there is at least one value; an empty
/// input is not an error, just an empty chart.
#[verifier::loop_isolation(false)]
pub fn min_max(values: &Vec<i64>) -> (r: Option<(i64, i64)>)
    ensures
        r is Some <==> values@.len() > 0,
        r is Some ==> r.unwrap().0 as int == seq_min(values@),
        r is Some ==> r.unwrap().1 as int == seq_max(values@),
{
    let n: usize = values.len();
    if n == 0 {
        return None;
    }
    let mut lo: i64 = values[0];
    let mut hi: i64 = values[0];
    let mut i: usize = 1;
    proof {
        assert(values@.subrange(0, 1) =~= seq![values@[0]]);
    }
    while i < n
        invariant
            1 <= i <= n,
            lo as int == seq_min(values@.subrange(0, i as int)),
            hi as int == seq_max(values@.subrange(0, i as int)),
        decreases n - i,
    {
        proof {
            assert(values@.subrange(0, i + 1).drop_last() =~= values@.subrange(0, i as int));
            assert(values@.subrange(0, i + 1).last() == values@[i as int]);
        }
        let v = values[i];
        if v < lo {
            lo = v;
        }
        if v > hi {
            hi = v;
        }
        i += 1;
    }
    proof {
        assert(values@.subrange(0, n as int) =~= values@);
    }
    Some((lo, hi))
}

/// Every element lies between the scanned minimum and maximum.
pub proof fn lemma_min_max_bounds(vals: Seq<i64>)
    ensures
        forall|k: int| 0 <= k < vals.len() ==> seq_min(vals) <= #[trigger] vals[k] <= seq_max(vals),
    decreases vals.len(),
{
    if vals.len() > 1 {
        lemma_min_max_bounds(vals.drop_last());
        assert(forall|k: int| 0 <= k < vals.len() - 1 ==> vals.drop_last()[k] == vals[k]);
    }
}

/// Computes the `nbins + 1` integer bin boundaries over `[min, max]`.
///
/// Edge `i` is exactly `min + i * (max - min) / nbins`; the edges start
/// at `min`, end at `max`, and never decrease.
#[verifier::loop_isolation(false)]
pub fn bin_edges(min: i64, max: i64, nbins: usize) -> (edges: Vec<i64>)
    requires
        1 <= nbins <= MAX_BINS,
        min <= max,
    ensures
        edges@.len() == nbins + 1,
        forall|i: int|
            0 <= i <= nbins ==> #[trigger] edges@[i] == spec_edge(
                min as int,
                max as int,
                nbins as int,
                i,
            ),
        edges@[0] == min,
        edges@[nbins as int] == max,
        forall|i: int| 0 <= i < nbins ==> #[trigger] edges@[i] <= edges@[i + 1],
{
    let mut edges: Vec<i64> = Vec::new();
    let mut i: usize = 0;
    let d128: i128 = (max as i128) - (min as i128);
    while i <= nbins
        invariant
            0 <= i <= nbins + 1,
            edges@.len() == i,
            d128 == max as int - min as int,
            forall|k: int|
                0 <= k < i ==> #[trigger] edges@[k] == spec_edge(
                    min as int,
                    max as int,
                    nbins as int,
                    k,
                ),
        decreases nbins + 1 - i,
    {
        proof {
            lemma_edge_in_range(min as int, max as int, nbins as int, i as int);
            assert((i as i128) * d128 <= 65536 * d128) by (nonlinear_arith)
                requires
                    0 <= i as i128 <= 65536,
                    d128 >= 0,
            ;
            assert((i as i128) * d128 >= 0) by (nonlinear_arith)
                requires
                    i as i128 >= 0,
                    d128 >= 0,
            ;
        }
        let q: i128 = ((i as i128) * d128) / (nbins as i128);
        let e: i64 = ((min as i128) + q) as i64;
        edges.push(e);
        i += 1;
    }
    proof {
        assert(edges@[0] == spec_edge(min as int, max as int, nbins as int, 0));
        assert(0int * (max - min) == 0);
        lemma_div_pos_is_pos(0, nbins as int);
        assert(spec_edge(min as int, max as int, nbins as int, 0) == min as int) by {
            assert(0int * (max as int - min as int) / (nbins as int) == 0) by {
                assert(0int * (max as int - min as int) == 0);
                assert(0int / (nbins as int) == 0) by (nonlinear_arith)
                    requires
                        nbins as int > 0,
                ;
            }
        }
        lemma_edge_at_end(min as int, max as int, nbins as int);
        assert forall|k: int| 0 <= k < nbins implies #[trigger] edges@[k] <= edges@[k + 1] by {
            lemma_edge_monotone(min as int, max as int, nbins as int, k);
        }
    }
    edges
}

/// Each edge lies between `min` and `max`.
pub proof fn lemma_edge_in_range(min: int, max: int, nbins: int, i: int)
    requires
        min <= max,
        1 <= nbins,
        0 <= i <= nbins,
    ensures
        min <= spec_edge(min, max, nbins, i) <= max,
{
    let d = max - min;
    assert(i * d >= 0) by (nonlinear_arith)
        requires
            i >= 0,
            d >= 0,
    ;
    lemma_div_pos_is_pos(i * d, nbins);
    assert(i * d <= nbins * d) by (nonlinear_arith)
        requires
            i <= nbins,
            d >= 0,
    ;
    lemma_div_is_ordered(i * d, nbins * d, nbins);
    lemma_div_by_multiple(d, nbins);
    assert(nbins * d == d * nbins) by (nonlinear_arith);
    assert((d * nbins) / nbins == d);
}

/// The last edge is exactly `max`.
pub proof fn lemma_edge_at_end(min: int, max: int, nbins: int)
    requires
        min <= max,
        1 <= nbins,
    ensures
        spec_edge(min, max, nbins, nbins) == max,
{
    let d = max - min;
    lemma_div_by_multiple(d, nbins);
    assert(nbins * d == d * nbins) by (nonlinear_arith);
    assert((d * nbins) / nbins == d);
}

/// Edges never decrease.
pub proof fn lemma_edge_monotone(min: int, max: int, nbins: int, i: int)
    requires
        min <= max,
        1 <= nbins,
        0 <= i,
    ensures
        spec_edge(min, max, nbins, i) <= spec_edge(min, max, nbins, i + 1),
{
    let d = max - min;
    assert(i * d <= (i + 1) * d) by (nonlinear_arith)
        requires
            d >= 0,
    ;
    lemma_div_is_ordered(i * d, (i + 1) * d, nbins);
}

/// The maximum always falls in the last bin.
pub proof fn lemma_max_in_last_bin(min: int, max: int, nbins: int)
    requires
        min <= max,
        1 <= nbins,
    ensures
        spec_bin_index(max, min, max, nbins) == nbins - 1,
{
    if min < max {
        let d = max - min;
        lemma_div_by_multiple(nbins, d);
        assert(d * nbins == nbins * d) by (nonlinear_arith);
        assert((d * nbins) / d == nbins);
    }
}

/// The bin index is always a real bin, below `nbins`.
pub proof fn lemma_bin_index_in_range(v: int, min: int, max: int, nbins: int)
    requires
        min <= v <= max,
        1 <= nbins,
    ensures
        0 <= spec_bin_index(v, min, max, nbins) < nbins,
{
    if max > min {
        let d = max - min;
        assert((v - min) * nbins >= 0) by (nonlinear_arith)
            requires
                v >= min,
                nbins >= 1,
        ;
        lemma_div_pos_is_pos((v - min) * nbins, d);
    }
}

/// Which bin each value falls in, as an executable step.
#[verifier::loop_isolation(false)]
pub fn bin_index(v: i64, min: i64, max: i64, nbins: usize) -> (b: usize)
    requires
        1 <= nbins <= MAX_BINS,
        min <= v <= max,
    ensures
        b as int == spec_bin_index(v as int, min as int, max as int, nbins as int),
        b < nbins,
{
    proof {
        lemma_bin_index_in_range(v as int, min as int, max as int, nbins as int);
    }
    if max <= min {
        return nbins - 1;
    }
    let ghost dv: int = v as int - min as int;
    proof {
        assert(0 <= dv <= 36893488147419103232);
        assert(dv * (nbins as int) <= 36893488147419103232 * 65536) by (nonlinear_arith)
            requires
                0 <= dv <= 36893488147419103232,
                0 < nbins as int <= 65536,
        ;
        assert(dv * (nbins as int) >= 0) by (nonlinear_arith)
            requires
                dv >= 0,
                nbins as int > 0,
        ;
    }
    let num: i128 = ((v as i128) - (min as i128)) * (nbins as i128);
    let raw: i128 = num / ((max as i128) - (min as i128));
    if raw >= nbins as i128 {
        nbins - 1
    } else {
        proof {
            lemma_div_pos_is_pos(num as int, max as int - min as int);
        }
        raw as usize
    }
}

/// How many of `vals` fall in bin `b`.
pub open spec fn spec_bin_count(vals: Seq<i64>, min: int, max: int, nbins: int, b: int) -> int
    decreases vals.len(),
{
    if vals.len() == 0 {
        0
    } else {
        spec_bin_count(vals.drop_last(), min, max, nbins, b) + if spec_bin_index(
            vals.last() as int,
            min,
            max,
            nbins,
        ) == b {
            1int
        } else {
            0int
        }
    }
}

/// Sum of all bin counts.
pub open spec fn sum_counts(counts: Seq<usize>) -> int
    decreases counts.len(),
{
    if counts.len() == 0 {
        0
    } else {
        sum_counts(counts.drop_last()) + counts.last()
    }
}

/// No bin can hold more values than there are.
pub proof fn lemma_bin_count_le(vals: Seq<i64>, min: int, max: int, nbins: int, b: int)
    ensures
        0 <= spec_bin_count(vals, min, max, nbins, b) <= vals.len(),
    decreases vals.len(),
{
    if vals.len() > 0 {
        lemma_bin_count_le(vals.drop_last(), min, max, nbins, b);
    }
}

/// Replacing one count changes the sum by the difference.
pub proof fn lemma_sum_update(s: Seq<usize>, j: int, v: usize)
    requires
        0 <= j < s.len(),
    ensures
        sum_counts(s.update(j, v)) == sum_counts(s) - s[j] + v,
    decreases s.len(),
{
    if j == s.len() - 1 {
        assert(s.update(j, v).drop_last() =~= s.drop_last());
        assert(s.update(j, v).last() == v);
    } else {
        assert(s.update(j, v).drop_last() =~= s.drop_last().update(j, v));
        assert(s.update(j, v).last() == s.last());
        lemma_sum_update(s.drop_last(), j, v);
    }
}

/// Counts how many values fall in each of `nbins` bins over `[min, max]`.
///
/// `counts[b]` is exactly [`spec_bin_count`] for bin `b`, and the counts
/// sum to the number of values handed in: every value lands in exactly
/// one bin, and none lands past the last.
#[verifier::loop_isolation(false)]
pub fn histogram_counts(values: &Vec<i64>, min: i64, max: i64, nbins: usize) -> (counts: Vec<
    usize,
>)
    requires
        1 <= nbins <= MAX_BINS,
        forall|k: int| 0 <= k < values@.len() ==> min <= #[trigger] values@[k] <= max,
    ensures
        counts@.len() == nbins,
        forall|b: int|
            0 <= b < nbins ==> #[trigger] counts@[b] as int == spec_bin_count(
                values@,
                min as int,
                max as int,
                nbins as int,
                b,
            ),
        sum_counts(counts@) == values@.len(),
{
    let mut counts: Vec<usize> = Vec::new();
    let mut z: usize = 0;
    while z < nbins
        invariant
            0 <= z <= nbins,
            counts@.len() == z,
            forall|k: int| 0 <= k < z ==> #[trigger] counts@[k] == 0,
        decreases nbins - z,
    {
        counts.push(0);
        z += 1;
    }
    proof {
        lemma_sum_zero(counts@);
    }
    let n: usize = values.len();
    let mut i: usize = 0;
    while i < n
        invariant
            0 <= i <= n,
            counts@.len() == nbins,
            forall|b: int|
                0 <= b < nbins ==> #[trigger] counts@[b] as int == spec_bin_count(
                    values@.subrange(0, i as int),
                    min as int,
                    max as int,
                    nbins as int,
                    b,
                ),
            sum_counts(counts@) == i,
        decreases n - i,
    {
        let ghost prefix = values@.subrange(0, i as int);
        proof {
            assert(values@.subrange(0, i + 1).drop_last() =~= prefix);
            assert(values@.subrange(0, i + 1).last() == values@[i as int]);
        }
        let bi = bin_index(values[i], min, max, nbins);
        let ghost old_counts = counts@;
        proof {
            lemma_bin_count_le(prefix, min as int, max as int, nbins as int, bi as int);
            assert(prefix.len() == i as int);
            lemma_sum_update(old_counts, bi as int, (old_counts[bi as int] + 1) as usize);
        }
        counts[bi] = counts[bi] + 1;
        i += 1;
    }
    proof {
        assert(values@.subrange(0, n as int) =~= values@);
    }
    counts
}

/// A sequence of zeros sums to zero.
pub proof fn lemma_sum_zero(s: Seq<usize>)
    requires
        forall|k: int| 0 <= k < s.len() ==> #[trigger] s[k] == 0,
    ensures
        sum_counts(s) == 0,
    decreases s.len(),
{
    if s.len() > 0 {
        lemma_sum_zero(s.drop_last());
        assert(forall|k: int| 0 <= k < s.len() - 1 ==> s.drop_last()[k] == s[k]);
    }
}

/// Bins one column of values: a single scan for `min` and `max`, then
/// edges and counts over `[min, max]`.
///
/// Returns `Some` exactly when there is at least one value; the edges and
/// counts are then pinned by [`spec_edge`] and [`spec_bin_count`] over
/// the scanned minimum and maximum, and the counts sum to the number of
/// values.  An empty input yields `None`: an empty chart, not an error.
pub fn build_histogram(values: &Vec<i64>, nbins: usize) -> (r: Option<HistogramSpec>)
    requires
        1 <= nbins <= MAX_BINS,
    ensures
        r is Some <==> values@.len() > 0,
        r is Some ==> ({
            let h = r.unwrap();
            let lo = seq_min(values@);
            let hi = seq_max(values@);
            &&& h.edges@.len() == nbins + 1
            &&& forall|i: int|
                0 <= i <= nbins ==> #[trigger] h.edges@[i] == spec_edge(lo, hi, nbins as int, i)
            &&& h.edges@[0] == lo
            &&& h.edges@[nbins as int] == hi
            &&& h.counts@.len() == nbins
            &&& forall|b: int|
                0 <= b < nbins ==> #[trigger] h.counts@[b] as int == spec_bin_count(
                    values@,
                    lo,
                    hi,
                    nbins as int,
                    b,
                )
            &&& sum_counts(h.counts@) == values@.len()
        }),
{
    match min_max(values) {
        None => None,
        Some((lo, hi)) => {
            proof {
                lemma_min_max_bounds(values@);
            }
            let edges = bin_edges(lo, hi, nbins);
            let counts = histogram_counts(values, lo, hi, nbins);
            Some(HistogramSpec { edges, counts })
        },
    }
}

} // verus!
