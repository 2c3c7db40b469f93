//! Chart pipelines: from an untyped table to render-ready geometry.
//!
//! Each entry point takes the whole per-invocation configuration as
//! explicit parameters — column bindings, categorical domains, layout
//! widths — resolves the bindings once, shapes the rows, aggregates, and
//! builds geometry.  Fatal errors (an unresolvable column) abort the
//! pipeline; cell-scoped failures are reported and skipped.

use vstd::prelude::*;

use crate::aggregate::AggregatedGroup;
use crate::aggregate::GroupedRow;
use crate::aggregate::RowView;
use crate::aggregate::aggregate_grouped;
use crate::aggregate::cells_view;
use crate::aggregate::grouped_rows_view;
use crate::aggregate::spec_aggregate_cells;
use crate::aggregate::spec_dropped;
use crate::aggregate::spec_overwrites;
use crate::chartspec::BarRect;
use crate::chartspec::MAX_SLOTS;
use crate::chartspec::MAX_WIDTH;
use crate::chartspec::build_grouped_bars;
use crate::chartspec::spec_grouped_bars;
use crate::histogram::HistogramSpec;
use crate::histogram::MAX_BINS;
use crate::histogram::build_histogram;
use crate::histogram::seq_max;
use crate::histogram::seq_min;
use crate::histogram::spec_bin_count;
use crate::histogram::spec_edge;
use crate::histogram::sum_counts;
use crate::mapper::CellError;
use crate::mapper::ColumnLocator;
use crate::mapper::cell_errors_match;
use crate::mapper::numeric_column;
use crate::mapper::resolve_column;
use crate::mapper::spec_column_errors;
use crate::mapper::spec_numeric_column;
use crate::mapper::spec_resolve;
use crate::table::PipelineError;
use crate::table::Table;
use crate::value::parse_scaled;
use crate::value::spec_parse_scaled;

verus! {

/// The grouped rows a long-format table yields: one observation per row
/// whose category, series and value cells all exist and whose value
/// parses.
pub open spec fn spec_long_rows(rows: Seq<Seq<Seq<char>>>, ci: int, si: int, vi: int) -> Seq<
    RowView,
>
    decreases rows.len(),
{
    if rows.len() == 0 {
        Seq::empty()
    } else {
        let p = spec_long_rows(rows.drop_last(), ci, si, vi);
        let row = rows.last();
        if 0 <= ci < row.len() && 0 <= si < row.len() && 0 <= vi < row.len() && spec_parse_scaled(
            row[vi],
        ) is Some {
            p.push((row[ci], row[si], spec_parse_scaled(row[vi]).unwrap()))
        } else {
            p
        }
    }
}

/// Shapes a long-format table (category, series and value columns) into
/// grouped rows, reporting value cells that fail to parse.
///
/// The kept observations are exactly [`spec_long_rows`]; the reported
/// errors are exactly the value column's [`spec_column_errors`].
#[verifier::loop_isolation(false)]
pub fn long_grouped_rows(table: &Table, ci: usize, si: usize, vi: usize) -> (r: (
    Vec<GroupedRow>,
    Vec<CellError>,
))
    ensures
        grouped_rows_view(r.0@) == spec_long_rows(table.spec_rows(), ci as int, si as int, vi as int),
        cell_errors_match(r.1@, spec_column_errors(table.spec_rows(), vi as int)),
{
    let ghost rows = table.spec_rows();
    let mut out: Vec<GroupedRow> = Vec::new();
    let mut errors: Vec<CellError> = Vec::new();
    let n: usize = table.rows.len();
    let mut i: usize = 0;
    while i < n
        invariant
            0 <= i <= n,
            grouped_rows_view(out@) == spec_long_rows(
                rows.subrange(0, i as int),
                ci as int,
                si as int,
                vi as int,
            ),
            cell_errors_match(errors@, spec_column_errors(rows.subrange(0, i as int), vi as int)),
        decreases n - i,
    {
        let row = &table.rows[i];
        proof {
            assert(rows[i as int] == row.deep_view());
            assert(rows.subrange(0, i + 1).drop_last() =~= rows.subrange(0, i as int));
            assert(rows.subrange(0, i + 1).last() == rows[i as int]);
        }
        if vi < row.len() {
            proof {
                assert(row.deep_view()[vi as int] == row@[vi as int]@);
            }
            match parse_scaled(row[vi].as_str()) {
                Some(v) => {
                    if ci < row.len() && si < row.len() {
                        proof {
                            assert(row.deep_view()[ci as int] == row@[ci as int]@);
                            assert(row.deep_view()[si as int] == row@[si as int]@);
                        }
                        let g = GroupedRow {
                            category: row[ci].clone(),
                            series: row[si].clone(),
                            value: v,
                        };
                        let ghost before = out@;
                        out.push(g);
                        proof {
                            assert(grouped_rows_view(out@) =~= grouped_rows_view(before).push(
                                (row.deep_view()[ci as int], row.deep_view()[si as int], v),
                            ));
                        }
                    }
                },
                None => {
                    errors.push(CellError { row: i, column: vi, raw: row[vi].clone() });
                },
            }
        } else {
            errors.push(CellError { row: i, column: vi, raw: String::new() });
        }
        i += 1;
    }
    proof {
        assert(rows.subrange(0, n as int) =~= rows);
    }
    (out, errors)
}

/// The grouped rows one wide-format table row yields: one observation
/// per value column whose cell exists and parses, with the column's
/// header as the series name.
pub open spec fn spec_wide_row(
    headers: Seq<Seq<char>>,
    row: Seq<Seq<char>>,
    ci: int,
    vcols: Seq<usize>,
) -> Seq<RowView>
    decreases vcols.len(),
{
    if vcols.len() == 0 {
        Seq::empty()
    } else {
        let p = spec_wide_row(headers, row, ci, vcols.drop_last());
        let vc = vcols.last() as int;
        if 0 <= ci < row.len() && 0 <= vc < row.len() && 0 <= vc < headers.len()
            && spec_parse_scaled(row[vc]) is Some {
            p.push((row[ci], headers[vc], spec_parse_scaled(row[vc]).unwrap()))
        } else {
            p
        }
    }
}

/// The grouped rows a whole wide-format table yields, row by row.
pub open spec fn spec_wide_rows(
    headers: Seq<Seq<char>>,
    rows: Seq<Seq<Seq<char>>>,
    ci: int,
    vcols: Seq<usize>,
) -> Seq<RowView>
    decreases rows.len(),
{
    if rows.len() == 0 {
        Seq::empty()
    } else {
        spec_wide_rows(headers, rows.drop_last(), ci, vcols) + spec_wide_row(
            headers,
            rows.last(),
            ci,
            vcols,
        )
    }
}

/// Shapes a wide-format table into grouped rows: each row contributes one
/// observation per value column, keyed by the row's category cell and the
/// value column's header name.
///
/// The kept observations are exactly [`spec_wide_rows`]; a missing or
/// unparseable cell skips that observation only.
#[verifier::loop_isolation(false)]
pub fn wide_grouped_rows(table: &Table, ci: usize, vcols: &Vec<usize>) -> (r: Vec<GroupedRow>)
    ensures
        grouped_rows_view(r@) == spec_wide_rows(
            table.spec_headers(),
            table.spec_rows(),
            ci as int,
            vcols@,
        ),
{
    let ghost headers = table.spec_headers();
    let ghost rows = table.spec_rows();
    let mut out: Vec<GroupedRow> = Vec::new();
    let n: usize = table.rows.len();
    let mut i: usize = 0;
    while i < n
        invariant
            0 <= i <= n,
            grouped_rows_view(out@) == spec_wide_rows(
                headers,
                rows.subrange(0, i as int),
                ci as int,
                vcols@,
            ),
        decreases n - i,
    {
        let row = &table.rows[i];
        proof {
            assert(rows[i as int] == row.deep_view());
            assert(rows.subrange(0, i + 1).drop_last() =~= rows.subrange(0, i as int));
            assert(rows.subrange(0, i + 1).last() == rows[i as int]);
        }
        let m: usize = vcols.len();
        let mut j: usize = 0;
        while j < m
            invariant
                0 <= j <= m,
                grouped_rows_view(out@) == spec_wide_rows(
                    headers,
                    rows.subrange(0, i as int),
                    ci as int,
                    vcols@,
                ) + spec_wide_row(headers, rows[i as int], ci as int, vcols@.subrange(0, j as int)),
            decreases m - j,
        {
            proof {
                assert(vcols@.subrange(0, j + 1).drop_last() =~= vcols@.subrange(0, j as int));
                assert(vcols@.subrange(0, j + 1).last() == vcols@[j as int]);
            }
            let vc = vcols[j];
            if ci < row.len() && vc < row.len() && vc < table.headers.len() {
                proof {
                    assert(row.deep_view()[ci as int] == row@[ci as int]@);
                    assert(row.deep_view()[vc as int] == row@[vc as int]@);
                    assert(table.spec_headers()[vc as int] == table.headers@[vc as int]@);
                }
                match parse_scaled(row[vc].as_str()) {
                    Some(v) => {
                        let g = GroupedRow {
                            category: row[ci].clone(),
                            series: table.headers[vc].clone(),
                            value: v,
                        };
                        let ghost before = out@;
                        out.push(g);
                        proof {
                            assert(grouped_rows_view(out@) =~= grouped_rows_view(before).push(
                                (
                                    row.deep_view()[ci as int],
                                    headers[vc as int],
                                    v,
                                ),
                            ));
                        }
                    },
                    None => {},
                }
            }
            j += 1;
        }
        proof {
            assert(vcols@.subrange(0, m as int) =~= vcols@);
        }
        i += 1;
    }
    proof {
        assert(rows.subrange(0, n as int) =~= rows);
    }
    out
}

/// Per-invocation configuration of a grouped bar chart over a
/// long-format table.
#[derive(Clone, Debug)]
pub struct GroupedBarConfig {
    /// Where the categorical key stands.
    pub category_column: ColumnLocator,
    /// Where the series name stands.
    pub series_column: ColumnLocator,
    /// Where the numeric value stands.
    pub value_column: ColumnLocator,
    /// The ordered categorical domain: one slot per entry, rows keyed
    /// outside it are dropped.
    pub categories: Vec<String>,
    /// The ordered series domain: one sub-bar per entry.
    pub series: Vec<String>,
    /// Width of one category slot.
    pub slot_width: i64,
    /// Width of one sub-bar.
    pub bar_width: i64,
    /// Gap between adjacent sub-bars of one slot.
    pub gap: i64,
}

/// Runs the whole grouped-bar pipeline: resolves the three column
/// bindings, shapes the rows, aggregates with last-write-wins over the
/// declared domains, and lays the bars out.
///
/// Fails with the first unresolvable binding's error (category, then
/// series, then value column); otherwise every stage's result is pinned
/// by that stage's contract, composed over the table's contents.
pub fn grouped_bar_chart(table: &Table, cfg: &GroupedBarConfig) -> (r: Result<
    (AggregatedGroup, Vec<BarRect>, Vec<CellError>),
    PipelineError,
>)
    requires
        cfg.categories@.len() <= MAX_SLOTS,
        cfg.series@.len() <= MAX_SLOTS,
        0 <= cfg.slot_width <= MAX_WIDTH,
        0 <= cfg.bar_width <= MAX_WIDTH,
        0 <= cfg.gap <= MAX_WIDTH,
    ensures
        ({
            let h = table.spec_headers();
            let rc = spec_resolve(h, cfg.category_column);
            let rs = spec_resolve(h, cfg.series_column);
            let rv = spec_resolve(h, cfg.value_column);
            &&& (r is Ok <==> rc is Ok && rs is Ok && rv is Ok)
            &&& (r is Err ==> r->Err_0 == (if rc is Err {
                rc->Err_0
            } else if rs is Err {
                rs->Err_0
            } else {
                rv->Err_0
            }))
            &&& (r is Ok ==> ({
                let rowsv = spec_long_rows(table.spec_rows(), rc->Ok_0, rs->Ok_0, rv->Ok_0);
                let cats = cfg.categories.deep_view();
                let sers = cfg.series.deep_view();
                let cells = spec_aggregate_cells(rowsv, cats, sers);
                &&& cells_view(r->Ok_0.0.cells) == cells
                &&& r->Ok_0.0.overwrites as int == spec_overwrites(rowsv, cats, sers)
                &&& r->Ok_0.0.dropped as int == spec_dropped(rowsv, cats, sers)
                &&& r->Ok_0.1@ == spec_grouped_bars(
                    cells,
                    cfg.slot_width as int,
                    cfg.bar_width as int,
                    cfg.gap as int,
                )
                &&& cell_errors_match(
                    r->Ok_0.2@,
                    spec_column_errors(table.spec_rows(), rv->Ok_0),
                )
            }))
        }),
{
    let ci = match resolve_column(table, &cfg.category_column) {
        Ok(c) => c,
        Err(e) => {
            return Err(e);
        },
    };
    let si = match resolve_column(table, &cfg.series_column) {
        Ok(s) => s,
        Err(e) => {
            return Err(e);
        },
    };
    let vi = match resolve_column(table, &cfg.value_column) {
        Ok(v) => v,
        Err(e) => {
            return Err(e);
        },
    };
    let (rows, errors) = long_grouped_rows(table, ci, si, vi);
    let group = aggregate_grouped(&rows, &cfg.categories, &cfg.series);
    proof {
        crate::aggregate::lemma_aggregate_shape(
            grouped_rows_view(rows@),
            cfg.categories.deep_view(),
            cfg.series.deep_view(),
        );
    }
    let bars = build_grouped_bars(&group.cells, cfg.slot_width, cfg.bar_width, cfg.gap);
    proof {
        assert(Seq::new(group.cells@.len() as nat, |c: int| group.cells@[c]@) == cells_view(
            group.cells,
        ));
    }
    Ok((group, bars, errors))
}

/// Runs the whole histogram pipeline: resolves the value column, parses
/// its cells, scans for the data range and bins the values.
///
/// Fails exactly when the column binding cannot be resolved.  Otherwise
/// the parsed values, the reported cell errors, and (for a non-empty
/// column) the edges and counts are all pinned by the stage contracts;
/// an empty column yields no histogram and no error.
pub fn histogram_chart(table: &Table, column: &ColumnLocator, nbins: usize) -> (r: Result<
    (Option<HistogramSpec>, Vec<CellError>),
    PipelineError,
>)
    requires
        1 <= nbins <= MAX_BINS,
    ensures
        ({
            let rv = spec_resolve(table.spec_headers(), *column);
            &&& (r is Ok <==> rv is Ok)
            &&& (r is Err ==> r->Err_0 == rv->Err_0)
            &&& (r is Ok ==> ({
                let vals = spec_numeric_column(table.spec_rows(), rv->Ok_0);
                let lo = seq_min(vals);
                let hi = seq_max(vals);
                &&& cell_errors_match(
                    r->Ok_0.1@,
                    spec_column_errors(table.spec_rows(), rv->Ok_0),
                )
                &&& (r->Ok_0.0 is Some <==> vals.len() > 0)
                &&& (r->Ok_0.0 is Some ==> ({
                    let h = r->Ok_0.0->0;
                    &&& h.edges@.len() == nbins + 1
                    &&& forall|i: int|
                        0 <= i <= nbins ==> #[trigger] h.edges@[i] == spec_edge(
                            lo,
                            hi,
                            nbins as int,
                            i,
                        )
                    &&& h.edges@[0] == lo
                    &&& h.edges@[nbins as int] == hi
                    &&& h.counts@.len() == nbins
                    &&& forall|b: int|
                        0 <= b < nbins ==> #[trigger] h.counts@[b] as int == spec_bin_count(
                            vals,
                            lo,
                            hi,
                            nbins as int,
                            b,
                        )
                    &&& sum_counts(h.counts@) == vals.len()
                }))
            }))
        }),
{
    let vi = match resolve_column(table, column) {
        Ok(v) => v,
        Err(e) => {
            return Err(e);
        },
    };
    let (values, errors) = numeric_column(table, vi);
    let hist = build_histogram(&values, nbins);
    Ok((hist, errors))
}

} // verus!
