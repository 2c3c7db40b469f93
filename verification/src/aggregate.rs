//! Grouped-scalar aggregation.
//!
//! Rows carrying a categorical key, a series name and a numeric value are
//! reduced to one optional value per (category, series) pair.  The
//! category and series domains are declared up front: a row whose key is
//! outside either domain is dropped (and counted), never aggregated into
//! an "other" bucket.  Re-encountering a (category, series) pair
//! overwrites the previous value — last write wins, with the number of
//! overwrites exposed for diagnostic visibility.

use vstd::prelude::*;

use crate::mapper::find_index;
use crate::mapper::find_label;
use crate::mapper::lemma_find_label;

verus! {

/// One aggregatable observation: a categorical key, the series it belongs
/// to, and its numeric value in milli-units.
#[derive(Clone, Debug)]
pub struct GroupedRow {
    /// The categorical key, matched against the declared category domain.
    pub category: String,
    /// The series name, matched against the declared series domain.
    pub series: String,
    /// The observed value.
    pub value: i64,
}

/// What a grouped row is mathematically: its key views and its value.
pub type RowView = (Seq<char>, Seq<char>, i64);

/// The rows of a vector as (category, series, value) view triples.
pub open spec fn grouped_rows_view(rows: Seq<GroupedRow>) -> Seq<RowView> {
    Seq::new(rows.len(), |i: int| (rows[i].category@, rows[i].series@, rows[i].value))
}

/// The result of grouped-scalar aggregation: one optional value per
/// (category slot, series slot), plus diagnostic counts.
#[derive(Clone, Debug)]
pub struct AggregatedGroup {
    /// `cells[c][s]` is the last value written for category slot `c` and
    /// series slot `s`, or `None` if no kept row targeted that pair.
    pub cells: Vec<Vec<Option<i64>>>,
    /// How many kept rows overwrote an already-present value.
    pub overwrites: usize,
    /// How many rows were dropped for a key outside the declared domains.
    pub dropped: usize,
}

/// The cell matrix as a sequence of sequences.
pub open spec fn cells_view(cells: Vec<Vec<Option<i64>>>) -> Seq<Seq<Option<i64>>> {
    Seq::new(cells@.len() as nat, |i: int| cells@[i]@)
}

/// A cell matrix with every cell empty.
pub open spec fn spec_empty_cells(n_cats: nat, n_sers: nat) -> Seq<Seq<Option<i64>>> {
    Seq::new(n_cats, |c: int| Seq::new(n_sers, |s: int| None::<i64>))
}

/// Whether a row's keys lie inside the declared domains.
pub open spec fn in_domain(r: RowView, cats: Seq<Seq<char>>, sers: Seq<Seq<char>>) -> bool {
    find_label(cats, r.0) < cats.len() && find_label(sers, r.1) < sers.len()
}

/// The cell matrix that aggregating `rows` in order yields: each kept row
/// writes its value at (first index of its category, first index of its
/// series), overwriting whatever was there.
pub open spec fn spec_aggregate_cells(
    rows: Seq<RowView>,
    cats: Seq<Seq<char>>,
    sers: Seq<Seq<char>>,
) -> Seq<Seq<Option<i64>>>
    decreases rows.len(),
{
    if rows.len() == 0 {
        spec_empty_cells(cats.len(), sers.len())
    } else {
        let prev = spec_aggregate_cells(rows.drop_last(), cats, sers);
        let r = rows.last();
        if in_domain(r, cats, sers) {
            let ci = find_label(cats, r.0);
            let si = find_label(sers, r.1);
            prev.update(ci, prev[ci].update(si, Some(r.2)))
        } else {
            prev
        }
    }
}

/// How many rows of `rows` fall outside the declared domains.
pub open spec fn spec_dropped(rows: Seq<RowView>, cats: Seq<Seq<char>>, sers: Seq<Seq<char>>) -> int
    decreases rows.len(),
{
    if rows.len() == 0 {
        0
    } else {
        spec_dropped(rows.drop_last(), cats, sers) + if in_domain(rows.last(), cats, sers) {
            0int
        } else {
            1int
        }
    }
}

/// How many kept rows overwrite an already-present cell value.
pub open spec fn spec_overwrites(
    rows: Seq<RowView>,
    cats: Seq<Seq<char>>,
    sers: Seq<Seq<char>>,
) -> int
    decreases rows.len(),
{
    if rows.len() == 0 {
        0
    } else {
        let prev_count = spec_overwrites(rows.drop_last(), cats, sers);
        let prev = spec_aggregate_cells(rows.drop_last(), cats, sers);
        let r = rows.last();
        if in_domain(r, cats, sers) && prev[find_label(cats, r.0)][find_label(sers, r.1)] is Some {
            prev_count + 1
        } else {
            prev_count
        }
    }
}

/// The aggregated matrix keeps its declared shape: one row per category,
/// one cell per series.
pub proof fn lemma_aggregate_shape(rows: Seq<RowView>, cats: Seq<Seq<char>>, sers: Seq<Seq<char>>)
    ensures
        spec_aggregate_cells(rows, cats, sers).len() == cats.len(),
        forall|c: int|
            0 <= c < cats.len() ==> (#[trigger] spec_aggregate_cells(rows, cats, sers)[c]).len()
                == sers.len(),
    decreases rows.len(),
{
    if rows.len() > 0 {
        lemma_aggregate_shape(rows.drop_last(), cats, sers);
        let r = rows.last();
        if in_domain(r, cats, sers) {
            lemma_find_label(cats, r.0);
            lemma_find_label(sers, r.1);
        }
    }
}

/// A vector of `n` empty cells.
fn none_row(n: usize) -> (r: Vec<Option<i64>>)
    ensures
        r@ =~= Seq::new(n as nat, |s: int| None::<i64>),
{
    let mut r: Vec<Option<i64>> = Vec::new();
    let mut j: usize = 0;
    while j < n
        invariant
            0 <= j <= n,
            r@.len() == j,
            forall|k: int| 0 <= k < j ==> r@[k] is None,
        decreases n - j,
    {
        r.push(None);
        j += 1;
    }
    r
}

/// Groups rows by (category, series) and reduces each pair to the value
/// of the last row written to it.
///
/// The cell matrix, the overwrite count and the dropped count are exactly
/// [`spec_aggregate_cells`], [`spec_overwrites`] and [`spec_dropped`] of
/// the inputs; rows outside the declared domains contribute nothing.
#[verifier::loop_isolation(false)]
pub fn aggregate_grouped(
    rows: &Vec<GroupedRow>,
    categories: &Vec<String>,
    series: &Vec<String>,
) -> (g: AggregatedGroup)
    ensures
        cells_view(g.cells) == spec_aggregate_cells(
            grouped_rows_view(rows@),
            categories.deep_view(),
            series.deep_view(),
        ),
        g.overwrites as int == spec_overwrites(
            grouped_rows_view(rows@),
            categories.deep_view(),
            series.deep_view(),
        ),
        g.dropped as int == spec_dropped(
            grouped_rows_view(rows@),
            categories.deep_view(),
            series.deep_view(),
        ),
        g.cells@.len() == categories@.len(),
        forall|c: int| 0 <= c < g.cells@.len() ==> (#[trigger] g.cells@[c])@.len() == series@.len(),
{
    let ghost cats = categories.deep_view();
    let ghost sers = series.deep_view();
    let ghost rv = grouped_rows_view(rows@);
    let n_cats: usize = categories.len();
    let n_sers: usize = series.len();
    let mut cells: Vec<Vec<Option<i64>>> = Vec::new();
    let mut c: usize = 0;
    while c < n_cats
        invariant
            0 <= c <= n_cats,
            cells@.len() == c,
            forall|k: int|
                0 <= k < c ==> (#[trigger] cells@[k])@ =~= Seq::new(
                    n_sers as nat,
                    |s: int| None::<i64>,
                ),
        decreases n_cats - c,
    {
        cells.push(none_row(n_sers));
        c += 1;
    }
    proof {
        assert(cells_view(cells) =~~= spec_empty_cells(cats.len(), sers.len()));
    }
    let mut overwrites: usize = 0;
    let mut dropped: usize = 0;
    let n: usize = rows.len();
    let mut i: usize = 0;
    while i < n
        invariant
            0 <= i <= n,
            cells@.len() == n_cats,
            forall|k: int| 0 <= k < n_cats ==> (#[trigger] cells@[k])@.len() == n_sers,
            cells_view(cells) == spec_aggregate_cells(rv.subrange(0, i as int), cats, sers),
            overwrites as int == spec_overwrites(rv.subrange(0, i as int), cats, sers),
            dropped as int == spec_dropped(rv.subrange(0, i as int), cats, sers),
            overwrites <= i,
            dropped <= i,
        decreases n - i,
    {
        let row = &rows[i];
        proof {
            assert(rv.subrange(0, i + 1).drop_last() =~= rv.subrange(0, i as int));
            assert(rv.subrange(0, i + 1).last() == rv[i as int]);
            assert(rv[i as int] == (row.category@, row.series@, row.value));
        }
        let oci = find_index(categories, &row.category);
        let osi = find_index(series, &row.series);
        match (oci, osi) {
            (Some(ci), Some(si)) => {
                proof {
                    lemma_find_label(cats, row.category@);
                    lemma_find_label(sers, row.series@);
                }
                let ghost prev = cells_view(cells);
                if cells[ci][si].is_some() {
                    overwrites += 1;
                }
                cells[ci][si] = Some(row.value);
                proof {
                    assert(cells_view(cells) =~~= prev.update(
                        ci as int,
                        prev[ci as int].update(si as int, Some(row.value)),
                    ));
                }
            },
            _ => {
                proof {
                    assert(!in_domain(rv[i as int], cats, sers)) by {
                        lemma_find_label(cats, row.category@);
                        lemma_find_label(sers, row.series@);
                    }
                }
                dropped += 1;
            },
        }
        i += 1;
    }
    proof {
        assert(rv.subrange(0, n as int) =~= rv);
    }
    AggregatedGroup { cells, overwrites, dropped }
}

/// Aggregation is a pure function of its inputs: two aggregations of the
/// same rows with the same declared domains agree in every cell and in
/// both diagnostic counts.
pub proof fn lemma_aggregate_deterministic(
    rows: Seq<RowView>,
    cats: Seq<Seq<char>>,
    sers: Seq<Seq<char>>,
    a: AggregatedGroup,
    b: AggregatedGroup,
)
    requires
        cells_view(a.cells) == spec_aggregate_cells(rows, cats, sers),
        a.overwrites as int == spec_overwrites(rows, cats, sers),
        a.dropped as int == spec_dropped(rows, cats, sers),
        cells_view(b.cells) == spec_aggregate_cells(rows, cats, sers),
        b.overwrites as int == spec_overwrites(rows, cats, sers),
        b.dropped as int == spec_dropped(rows, cats, sers),
    ensures
        cells_view(a.cells) == cells_view(b.cells),
        a.overwrites == b.overwrites,
        a.dropped == b.dropped,
{
}

/// The value written last for a (category, series) key, in row order.
pub open spec fn last_value(rows: Seq<RowView>, c: Seq<char>, s: Seq<char>) -> Option<i64>
    decreases rows.len(),
{
    if rows.len() == 0 {
        None
    } else if rows.last().0 == c && rows.last().1 == s {
        Some(rows.last().2)
    } else {
        last_value(rows.drop_last(), c, s)
    }
}

/// Last write wins: for a category and a series that stand (first) at
/// slots `ci` and `si` of their domains, the aggregated cell holds the
/// value of the last row with exactly that key — in particular, of two
/// rows with the same key and different values, the later one's.
pub proof fn lemma_last_write_wins(
    rows: Seq<RowView>,
    cats: Seq<Seq<char>>,
    sers: Seq<Seq<char>>,
    ci: int,
    si: int,
)
    requires
        0 <= ci < cats.len(),
        0 <= si < sers.len(),
        find_label(cats, cats[ci]) == ci,
        find_label(sers, sers[si]) == si,
    ensures
        spec_aggregate_cells(rows, cats, sers)[ci][si] == last_value(rows, cats[ci], sers[si]),
    decreases rows.len(),
{
    lemma_aggregate_shape(rows, cats, sers);
    if rows.len() == 0 {
    } else {
        lemma_last_write_wins(rows.drop_last(), cats, sers, ci, si);
        lemma_aggregate_shape(rows.drop_last(), cats, sers);
        let r = rows.last();
        let prev = spec_aggregate_cells(rows.drop_last(), cats, sers);
        lemma_find_label(cats, r.0);
        lemma_find_label(sers, r.1);
        if r.0 == cats[ci] && r.1 == sers[si] {
            assert(find_label(cats, r.0) == ci);
            assert(find_label(sers, r.1) == si);
        } else {
            if in_domain(r, cats, sers) {
                let rci = find_label(cats, r.0);
                let rsi = find_label(sers, r.1);
                assert(cats[rci] == r.0 && sers[rsi] == r.1);
                assert(rci != ci || rsi != si);
            }
        }
    }
}

/// Domain filtering: a row whose category or series is outside the
/// declared domains contributes nothing — dropping all such rows first
/// yields the same cell matrix.
pub proof fn lemma_domain_filtering(rows: Seq<RowView>, cats: Seq<Seq<char>>, sers: Seq<Seq<char>>)
    ensures
        spec_aggregate_cells(rows.filter(|r: RowView| in_domain(r, cats, sers)), cats, sers)
            == spec_aggregate_cells(rows, cats, sers),
    decreases rows.len(),
{
    reveal(Seq::filter);
    let pred = |r: RowView| in_domain(r, cats, sers);
    if rows.len() == 0 {
    } else {
        lemma_domain_filtering(rows.drop_last(), cats, sers);
        let r = rows.last();
        if pred(r) {
            assert(rows.filter(pred) == rows.drop_last().filter(pred).push(r));
            assert(rows.filter(pred).drop_last() =~= rows.drop_last().filter(pred));
            assert(rows.filter(pred).last() == r);
        } else {
            assert(rows.filter(pred) == rows.drop_last().filter(pred));
        }
    }
}

} // verus!
