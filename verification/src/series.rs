//! Ordered-series collection for line and scatter charts.
//!
//! For each declared series, (x, y) pairs are collected in row-encounter
//! order.  The x value is resolved either directly from a numeric column
//! or indirectly through a categorical lookup table (a month name becomes
//! its index); a row whose x or y cannot be resolved is skipped for that
//! series only, and the remaining rows are still collected.

use vstd::prelude::*;

use crate::mapper::CellError;
use crate::mapper::cell_errors_match;
use crate::mapper::find_index;
use crate::mapper::find_label;
use crate::table::Table;
use crate::value::parse_scaled;
use crate::value::spec_parse_scaled;

verus! {

/// The (x, y) pairs of rows whose cells at `xc` and `yc` both exist and
/// parse as numbers, in row order.
pub open spec fn spec_xy_numeric(rows: Seq<Seq<Seq<char>>>, xc: int, yc: int) -> Seq<(i64, i64)>
    decreases rows.len(),
{
    if rows.len() == 0 {
        Seq::empty()
    } else {
        let p = spec_xy_numeric(rows.drop_last(), xc, yc);
        let row = rows.last();
        if 0 <= xc < row.len() && 0 <= yc < row.len() && spec_parse_scaled(row[xc]) is Some
            && spec_parse_scaled(row[yc]) is Some {
            p.push((spec_parse_scaled(row[xc]).unwrap(), spec_parse_scaled(row[yc]).unwrap()))
        } else {
            p
        }
    }
}

/// The (x, y, z) triples of rows whose cells at `xc`, `yc` and `zc` all
/// exist and parse as numbers, in row order.
pub open spec fn spec_xyz_numeric(rows: Seq<Seq<Seq<char>>>, xc: int, yc: int, zc: int) -> Seq<
    (i64, i64, i64),
>
    decreases rows.len(),
{
    if rows.len() == 0 {
        Seq::empty()
    } else {
        let p = spec_xyz_numeric(rows.drop_last(), xc, yc, zc);
        let row = rows.last();
        if 0 <= xc < row.len() && 0 <= yc < row.len() && 0 <= zc < row.len() && spec_parse_scaled(
            row[xc],
        ) is Some && spec_parse_scaled(row[yc]) is Some && spec_parse_scaled(row[zc]) is Some {
            p.push(
                (
                    spec_parse_scaled(row[xc]).unwrap(),
                    spec_parse_scaled(row[yc]).unwrap(),
                    spec_parse_scaled(row[zc]).unwrap(),
                ),
            )
        } else {
            p
        }
    }
}

/// The (x-slot, y) pairs of rows whose cell at `xc` is a label of the
/// lookup domain and whose cell at `yc` parses, in row order; x is the
/// label's first index in the domain.
pub open spec fn spec_xy_categorical(
    rows: Seq<Seq<Seq<char>>>,
    xc: int,
    yc: int,
    domain: Seq<Seq<char>>,
) -> Seq<(usize, i64)>
    decreases rows.len(),
{
    if rows.len() == 0 {
        Seq::empty()
    } else {
        let p = spec_xy_categorical(rows.drop_last(), xc, yc, domain);
        let row = rows.last();
        if 0 <= xc < row.len() && 0 <= yc < row.len() && find_label(domain, row[xc])
            < domain.len() && spec_parse_scaled(row[yc]) is Some {
            p.push(
                (
                    find_label(domain, row[xc]) as usize,
                    spec_parse_scaled(row[yc]).unwrap(),
                ),
            )
        } else {
            p
        }
    }
}

/// Collects the (x, y) pairs of two numeric columns, in row order.
///
/// The result is exactly [`spec_xy_numeric`]: a row whose x or y cell is
/// missing or fails to parse is skipped, the rest are kept in order.
#[verifier::loop_isolation(false)]
pub fn collect_xy_numeric(table: &Table, xc: usize, yc: usize) -> (r: Vec<(i64, i64)>)
    ensures
        r@ == spec_xy_numeric(table.spec_rows(), xc as int, yc as int),
{
    let ghost rows = table.spec_rows();
    let mut out: Vec<(i64, i64)> = Vec::new();
    let n: usize = table.rows.len();
    let mut i: usize = 0;
    while i < n
        invariant
            0 <= i <= n,
            out@ == spec_xy_numeric(rows.subrange(0, i as int), xc as int, yc as int),
        decreases n - i,
    {
        let row = &table.rows[i];
        proof {
            assert(rows[i as int] == row.deep_view());
            assert(rows.subrange(0, i + 1).drop_last() =~= rows.subrange(0, i as int));
            assert(rows.subrange(0, i + 1).last() == rows[i as int]);
        }
        if xc < row.len() && yc < row.len() {
            proof {
                assert(row.deep_view()[xc as int] == row@[xc as int]@);
                assert(row.deep_view()[yc as int] == row@[yc as int]@);
            }
            let px = parse_scaled(row[xc].as_str());
            let py = parse_scaled(row[yc].as_str());
            match (px, py) {
                (Some(x), Some(y)) => {
                    out.push((x, y));
                },
                _ => {},
            }
        }
        i += 1;
    }
    proof {
        assert(rows.subrange(0, n as int) =~= rows);
    }
    out
}

/// Collects the (x, y, z) triples of three numeric columns, in row order.
///
/// The result is exactly [`spec_xyz_numeric`]: a row with any missing or
/// unparseable coordinate is skipped, the rest are kept in order.
#[verifier::loop_isolation(false)]
pub fn collect_xyz_numeric(table: &Table, xc: usize, yc: usize, zc: usize) -> (r: Vec<
    (i64, i64, i64),
>)
    ensures
        r@ == spec_xyz_numeric(table.spec_rows(), xc as int, yc as int, zc as int),
{
    let ghost rows = table.spec_rows();
    let mut out: Vec<(i64, i64, i64)> = Vec::new();
    let n: usize = table.rows.len();
    let mut i: usize = 0;
    while i < n
        invariant
            0 <= i <= n,
            out@ == spec_xyz_numeric(rows.subrange(0, i as int), xc as int, yc as int, zc as int),
        decreases n - i,
    {
        let row = &table.rows[i];
        proof {
            assert(rows[i as int] == row.deep_view());
            assert(rows.subrange(0, i + 1).drop_last() =~= rows.subrange(0, i as int));
            assert(rows.subrange(0, i + 1).last() == rows[i as int]);
        }
        if xc < row.len() && yc < row.len() && zc < row.len() {
            proof {
                assert(row.deep_view()[xc as int] == row@[xc as int]@);
                assert(row.deep_view()[yc as int] == row@[yc as int]@);
                assert(row.deep_view()[zc as int] == row@[zc as int]@);
            }
            let px = parse_scaled(row[xc].as_str());
            let py = parse_scaled(row[yc].as_str());
            let pz = parse_scaled(row[zc].as_str());
            match (px, py, pz) {
                (Some(x), Some(y), Some(z)) => {
                    out.push((x, y, z));
                },
                _ => {},
            }
        }
        i += 1;
    }
    proof {
        assert(rows.subrange(0, n as int) =~= rows);
    }
    out
}

/// Collects (x-slot, y) pairs where x comes from a categorical lookup.
///
/// The result is exactly [`spec_xy_categorical`]: a row whose x label is
/// outside the lookup domain, or whose y cell is missing or unparseable,
/// is skipped for this series only.
#[verifier::loop_isolation(false)]
pub fn collect_xy_categorical(table: &Table, xc: usize, yc: usize, domain: &Vec<String>) -> (r:
    Vec<(usize, i64)>)
    ensures
        r@ == spec_xy_categorical(table.spec_rows(), xc as int, yc as int, domain.deep_view()),
{
    let ghost rows = table.spec_rows();
    let ghost dom = domain.deep_view();
    let mut out: Vec<(usize, i64)> = Vec::new();
    let n: usize = table.rows.len();
    let mut i: usize = 0;
    while i < n
        invariant
            0 <= i <= n,
            out@ == spec_xy_categorical(rows.subrange(0, i as int), xc as int, yc as int, dom),
        decreases n - i,
    {
        let row = &table.rows[i];
        proof {
            assert(rows[i as int] == row.deep_view());
            assert(rows.subrange(0, i + 1).drop_last() =~= rows.subrange(0, i as int));
            assert(rows.subrange(0, i + 1).last() == rows[i as int]);
        }
        if xc < row.len() && yc < row.len() {
            proof {
                assert(row.deep_view()[xc as int] == row@[xc as int]@);
                assert(row.deep_view()[yc as int] == row@[yc as int]@);
            }
            let ox = find_index(domain, &row[xc]);
            let py = parse_scaled(row[yc].as_str());
            match (ox, py) {
                (Some(x), Some(y)) => {
                    out.push((x, y));
                },
                _ => {},
            }
        }
        i += 1;
    }
    proof {
        assert(rows.subrange(0, n as int) =~= rows);
    }
    out
}

/// The rows [`spec_xy_numeric`] skips, one report each: the first failing
/// cell of the row — missing or unparseable x, else missing or
/// unparseable y — with its raw text (empty when the cell is missing).
pub open spec fn spec_xy_numeric_errors(rows: Seq<Seq<Seq<char>>>, xc: int, yc: int) -> Seq<
    (int, int, Seq<char>),
>
    decreases rows.len(),
{
    if rows.len() == 0 {
        Seq::empty()
    } else {
        let p = spec_xy_numeric_errors(rows.drop_last(), xc, yc);
        let row = rows.last();
        let i = rows.len() - 1;
        if !(0 <= xc < row.len()) {
            p.push((i, xc, Seq::empty()))
        } else if spec_parse_scaled(row[xc]) is None {
            p.push((i, xc, row[xc]))
        } else if !(0 <= yc < row.len()) {
            p.push((i, yc, Seq::empty()))
        } else if spec_parse_scaled(row[yc]) is None {
            p.push((i, yc, row[yc]))
        } else {
            p
        }
    }
}

/// Every row is either collected or reported: the kept pairs and the
/// skip reports of one scan partition the rows.
pub proof fn lemma_xy_numeric_partition(rows: Seq<Seq<Seq<char>>>, xc: int, yc: int)
    ensures
        spec_xy_numeric(rows, xc, yc).len() + spec_xy_numeric_errors(rows, xc, yc).len()
            == rows.len(),
    decreases rows.len(),
{
    if rows.len() > 0 {
        lemma_xy_numeric_partition(rows.drop_last(), xc, yc);
    }
}

/// Reports the rows that [`collect_xy_numeric`] skips, one [`CellError`]
/// per skipped row, naming the first cell that failed.
#[verifier::loop_isolation(false)]
pub fn xy_numeric_errors(table: &Table, xc: usize, yc: usize) -> (r: Vec<CellError>)
    ensures
        cell_errors_match(r@, spec_xy_numeric_errors(table.spec_rows(), xc as int, yc as int)),
{
    let ghost rows = table.spec_rows();
    let mut errors: Vec<CellError> = Vec::new();
    let n: usize = table.rows.len();
    let mut i: usize = 0;
    while i < n
        invariant
            0 <= i <= n,
            cell_errors_match(
                errors@,
                spec_xy_numeric_errors(rows.subrange(0, i as int), xc as int, yc as int),
            ),
        decreases n - i,
    {
        let row = &table.rows[i];
        proof {
            assert(rows[i as int] == row.deep_view());
            assert(rows.subrange(0, i + 1).drop_last() =~= rows.subrange(0, i as int));
            assert(rows.subrange(0, i + 1).last() == rows[i as int]);
            assert(forall|k: int|
                0 <= k < row@.len() ==> #[trigger] row.deep_view()[k] == row@[k]@);
        }
        if xc >= row.len() {
            errors.push(CellError { row: i, column: xc, raw: String::new() });
        } else if parse_scaled(row[xc].as_str()).is_none() {
            errors.push(CellError { row: i, column: xc, raw: row[xc].clone() });
        } else if yc >= row.len() {
            errors.push(CellError { row: i, column: yc, raw: String::new() });
        } else if parse_scaled(row[yc].as_str()).is_none() {
            errors.push(CellError { row: i, column: yc, raw: row[yc].clone() });
        }
        i += 1;
    }
    proof {
        assert(rows.subrange(0, n as int) =~= rows);
    }
    errors
}

/// The rows [`spec_xyz_numeric`] skips, one report each, naming the
/// first failing coordinate cell.
pub open spec fn spec_xyz_numeric_errors(
    rows: Seq<Seq<Seq<char>>>,
    xc: int,
    yc: int,
    zc: int,
) -> Seq<(int, int, Seq<char>)>
    decreases rows.len(),
{
    if rows.len() == 0 {
        Seq::empty()
    } else {
        let p = spec_xyz_numeric_errors(rows.drop_last(), xc, yc, zc);
        let row = rows.last();
        let i = rows.len() - 1;
        if !(0 <= xc < row.len()) {
            p.push((i, xc, Seq::empty()))
        } else if spec_parse_scaled(row[xc]) is None {
            p.push((i, xc, row[xc]))
        } else if !(0 <= yc < row.len()) {
            p.push((i, yc, Seq::empty()))
        } else if spec_parse_scaled(row[yc]) is None {
            p.push((i, yc, row[yc]))
        } else if !(0 <= zc < row.len()) {
            p.push((i, zc, Seq::empty()))
        } else if spec_parse_scaled(row[zc]) is None {
            p.push((i, zc, row[zc]))
        } else {
            p
        }
    }
}

/// Every row is either collected as a triple or reported.
pub proof fn lemma_xyz_numeric_partition(rows: Seq<Seq<Seq<char>>>, xc: int, yc: int, zc: int)
    ensures
        spec_xyz_numeric(rows, xc, yc, zc).len() + spec_xyz_numeric_errors(rows, xc, yc, zc).len()
            == rows.len(),
    decreases rows.len(),
{
    if rows.len() > 0 {
        lemma_xyz_numeric_partition(rows.drop_last(), xc, yc, zc);
    }
}

/// Reports the rows that [`collect_xyz_numeric`] skips, one
/// [`CellError`] per skipped row.
#[verifier::loop_isolation(false)]
pub fn xyz_numeric_errors(table: &Table, xc: usize, yc: usize, zc: usize) -> (r: Vec<CellError>)
    ensures
        cell_errors_match(
            r@,
            spec_xyz_numeric_errors(table.spec_rows(), xc as int, yc as int, zc as int),
        ),
{
    let ghost rows = table.spec_rows();
    let mut errors: Vec<CellError> = Vec::new();
    let n: usize = table.rows.len();
    let mut i: usize = 0;
    while i < n
        invariant
            0 <= i <= n,
            cell_errors_match(
                errors@,
                spec_xyz_numeric_errors(
                    rows.subrange(0, i as int),
                    xc as int,
                    yc as int,
                    zc as int,
                ),
            ),
        decreases n - i,
    {
        let row = &table.rows[i];
        proof {
            assert(rows[i as int] == row.deep_view());
            assert(rows.subrange(0, i + 1).drop_last() =~= rows.subrange(0, i as int));
            assert(rows.subrange(0, i + 1).last() == rows[i as int]);
            assert(forall|k: int|
                0 <= k < row@.len() ==> #[trigger] row.deep_view()[k] == row@[k]@);
        }
        if xc >= row.len() {
            errors.push(CellError { row: i, column: xc, raw: String::new() });
        } else if parse_scaled(row[xc].as_str()).is_none() {
            errors.push(CellError { row: i, column: xc, raw: row[xc].clone() });
        } else if yc >= row.len() {
            errors.push(CellError { row: i, column: yc, raw: String::new() });
        } else if parse_scaled(row[yc].as_str()).is_none() {
            errors.push(CellError { row: i, column: yc, raw: row[yc].clone() });
        } else if zc >= row.len() {
            errors.push(CellError { row: i, column: zc, raw: String::new() });
        } else if parse_scaled(row[zc].as_str()).is_none() {
            errors.push(CellError { row: i, column: zc, raw: row[zc].clone() });
        }
        i += 1;
    }
    proof {
        assert(rows.subrange(0, n as int) =~= rows);
    }
    errors
}

/// The rows [`spec_xy_categorical`] skips, one report each: a missing x
/// cell, an x label outside the lookup domain (its raw text kept), or a
/// missing or unparseable y cell.
pub open spec fn spec_xy_categorical_errors(
    rows: Seq<Seq<Seq<char>>>,
    xc: int,
    yc: int,
    domain: Seq<Seq<char>>,
) -> Seq<(int, int, Seq<char>)>
    decreases rows.len(),
{
    if rows.len() == 0 {
        Seq::empty()
    } else {
        let p = spec_xy_categorical_errors(rows.drop_last(), xc, yc, domain);
        let row = rows.last();
        let i = rows.len() - 1;
        if !(0 <= xc < row.len()) {
            p.push((i, xc, Seq::empty()))
        } else if find_label(domain, row[xc]) >= domain.len() {
            p.push((i, xc, row[xc]))
        } else if !(0 <= yc < row.len()) {
            p.push((i, yc, Seq::empty()))
        } else if spec_parse_scaled(row[yc]) is None {
            p.push((i, yc, row[yc]))
        } else {
            p
        }
    }
}

/// Every row is either collected against the lookup domain or reported.
pub proof fn lemma_xy_categorical_partition(
    rows: Seq<Seq<Seq<char>>>,
    xc: int,
    yc: int,
    domain: Seq<Seq<char>>,
)
    ensures
        spec_xy_categorical(rows, xc, yc, domain).len() + spec_xy_categorical_errors(
            rows,
            xc,
            yc,
            domain,
        ).len() == rows.len(),
    decreases rows.len(),
{
    if rows.len() > 0 {
        lemma_xy_categorical_partition(rows.drop_last(), xc, yc, domain);
        crate::mapper::lemma_find_label(domain, rows.last()[xc]);
    }
}

/// Reports the rows that [`collect_xy_categorical`] skips, one
/// [`CellError`] per skipped row; an out-of-domain x label is reported
/// with its raw text.
#[verifier::loop_isolation(false)]
pub fn xy_categorical_errors(table: &Table, xc: usize, yc: usize, domain: &Vec<String>) -> (r: Vec<
    CellError,
>)
    ensures
        cell_errors_match(
            r@,
            spec_xy_categorical_errors(
                table.spec_rows(),
                xc as int,
                yc as int,
                domain.deep_view(),
            ),
        ),
{
    let ghost rows = table.spec_rows();
    let ghost dom = domain.deep_view();
    let mut errors: Vec<CellError> = Vec::new();
    let n: usize = table.rows.len();
    let mut i: usize = 0;
    while i < n
        invariant
            0 <= i <= n,
            cell_errors_match(
                errors@,
                spec_xy_categorical_errors(rows.subrange(0, i as int), xc as int, yc as int, dom),
            ),
        decreases n - i,
    {
        let row = &table.rows[i];
        proof {
            assert(rows[i as int] == row.deep_view());
            assert(rows.subrange(0, i + 1).drop_last() =~= rows.subrange(0, i as int));
            assert(rows.subrange(0, i + 1).last() == rows[i as int]);
            assert(forall|k: int|
                0 <= k < row@.len() ==> #[trigger] row.deep_view()[k] == row@[k]@);
        }
        if xc >= row.len() {
            errors.push(CellError { row: i, column: xc, raw: String::new() });
        } else if find_index(domain, &row[xc]).is_none() {
            errors.push(CellError { row: i, column: xc, raw: row[xc].clone() });
        } else if yc >= row.len() {
            errors.push(CellError { row: i, column: yc, raw: String::new() });
        } else if parse_scaled(row[yc].as_str()).is_none() {
            errors.push(CellError { row: i, column: yc, raw: row[yc].clone() });
        }
        i += 1;
    }
    proof {
        assert(rows.subrange(0, n as int) =~= rows);
    }
    errors
}

/// Collects one line per value column: series `j` holds the (x-slot, y)
/// pairs of column `ycols[j]`, with x resolved through the categorical
/// lookup domain.
///
/// Each series is exactly [`spec_xy_categorical`] of its own column; an
/// unresolvable row is skipped for that series only.
#[verifier::loop_isolation(false)]
pub fn collect_line_series(table: &Table, xc: usize, ycols: &Vec<usize>, domain: &Vec<String>) -> (r:
    Vec<Vec<(usize, i64)>>)
    ensures
        r@.len() == ycols@.len(),
        forall|j: int|
            0 <= j < r@.len() ==> (#[trigger] r@[j])@ == spec_xy_categorical(
                table.spec_rows(),
                xc as int,
                ycols@[j] as int,
                domain.deep_view(),
            ),
{
    let mut out: Vec<Vec<(usize, i64)>> = Vec::new();
    let m: usize = ycols.len();
    let mut j: usize = 0;
    while j < m
        invariant
            0 <= j <= m,
            out@.len() == j,
            forall|k: int|
                0 <= k < j ==> (#[trigger] out@[k])@ == spec_xy_categorical(
                    table.spec_rows(),
                    xc as int,
                    ycols@[k] as int,
                    domain.deep_view(),
                ),
        decreases m - j,
    {
        let series = collect_xy_categorical(table, xc, ycols[j], domain);
        out.push(series);
        j += 1;
    }
    out
}

/// The (x, y) pairs of rows that also carry a label cell at `lc`: a row
/// is kept when all three cells exist and x and y parse.
pub open spec fn spec_labeled_points(rows: Seq<Seq<Seq<char>>>, xc: int, yc: int, lc: int) -> Seq<
    (i64, i64),
>
    decreases rows.len(),
{
    if rows.len() == 0 {
        Seq::empty()
    } else {
        let p = spec_labeled_points(rows.drop_last(), xc, yc, lc);
        let row = rows.last();
        if 0 <= xc < row.len() && 0 <= yc < row.len() && 0 <= lc < row.len() && spec_parse_scaled(
            row[xc],
        ) is Some && spec_parse_scaled(row[yc]) is Some {
            p.push((spec_parse_scaled(row[xc]).unwrap(), spec_parse_scaled(row[yc]).unwrap()))
        } else {
            p
        }
    }
}

/// The label cells of the rows kept by [`spec_labeled_points`], in the
/// same order.
pub open spec fn spec_point_labels(rows: Seq<Seq<Seq<char>>>, xc: int, yc: int, lc: int) -> Seq<
    Seq<char>,
>
    decreases rows.len(),
{
    if rows.len() == 0 {
        Seq::empty()
    } else {
        let p = spec_point_labels(rows.drop_last(), xc, yc, lc);
        let row = rows.last();
        if 0 <= xc < row.len() && 0 <= yc < row.len() && 0 <= lc < row.len() && spec_parse_scaled(
            row[xc],
        ) is Some && spec_parse_scaled(row[yc]) is Some {
            p.push(row[lc])
        } else {
            p
        }
    }
}

/// Collects (x, y) pairs together with each row's categorical label, for
/// scatter charts whose point color is keyed by that label.
///
/// The points are exactly [`spec_labeled_points`] and the labels exactly
/// [`spec_point_labels`]: one label per kept point, in the same order.
#[verifier::loop_isolation(false)]
pub fn collect_xy_labeled(table: &Table, xc: usize, yc: usize, lc: usize) -> (r: (
    Vec<(i64, i64)>,
    Vec<String>,
))
    ensures
        r.0@ == spec_labeled_points(table.spec_rows(), xc as int, yc as int, lc as int),
        r.1.deep_view() == spec_point_labels(table.spec_rows(), xc as int, yc as int, lc as int),
        r.0@.len() == r.1@.len(),
{
    let ghost rows = table.spec_rows();
    let mut points: Vec<(i64, i64)> = Vec::new();
    let mut labels: Vec<String> = Vec::new();
    let n: usize = table.rows.len();
    let mut i: usize = 0;
    while i < n
        invariant
            0 <= i <= n,
            points@ == spec_labeled_points(rows.subrange(0, i as int), xc as int, yc as int, lc as int),
            labels.deep_view() == spec_point_labels(
                rows.subrange(0, i as int),
                xc as int,
                yc as int,
                lc as int,
            ),
            points@.len() == labels@.len(),
        decreases n - i,
    {
        let row = &table.rows[i];
        proof {
            assert(rows[i as int] == row.deep_view());
            assert(rows.subrange(0, i + 1).drop_last() =~= rows.subrange(0, i as int));
            assert(rows.subrange(0, i + 1).last() == rows[i as int]);
        }
        if xc < row.len() && yc < row.len() && lc < row.len() {
            proof {
                assert(row.deep_view()[xc as int] == row@[xc as int]@);
                assert(row.deep_view()[yc as int] == row@[yc as int]@);
                assert(row.deep_view()[lc as int] == row@[lc as int]@);
            }
            let px = parse_scaled(row[xc].as_str());
            let py = parse_scaled(row[yc].as_str());
            match (px, py) {
                (Some(x), Some(y)) => {
                    let ghost before = labels.deep_view();
                    points.push((x, y));
                    labels.push(row[lc].clone());
                    proof {
                        assert(labels.deep_view() =~= before.push(row.deep_view()[lc as int]));
                    }
                },
                _ => {},
            }
        }
        i += 1;
    }
    proof {
        assert(rows.subrange(0, n as int) =~= rows);
    }
    (points, labels)
}

/// The rows [`spec_labeled_points`] skips, one report each: a missing or
/// unparseable x or y cell, or a missing label cell.
pub open spec fn spec_labeled_errors(rows: Seq<Seq<Seq<char>>>, xc: int, yc: int, lc: int) -> Seq<
    (int, int, Seq<char>),
>
    decreases rows.len(),
{
    if rows.len() == 0 {
        Seq::empty()
    } else {
        let p = spec_labeled_errors(rows.drop_last(), xc, yc, lc);
        let row = rows.last();
        let i = rows.len() - 1;
        if !(0 <= xc < row.len()) {
            p.push((i, xc, Seq::empty()))
        } else if spec_parse_scaled(row[xc]) is None {
            p.push((i, xc, row[xc]))
        } else if !(0 <= yc < row.len()) {
            p.push((i, yc, Seq::empty()))
        } else if spec_parse_scaled(row[yc]) is None {
            p.push((i, yc, row[yc]))
        } else if !(0 <= lc < row.len()) {
            p.push((i, lc, Seq::empty()))
        } else {
            p
        }
    }
}

/// Every row is either collected as a labeled point or reported.
pub proof fn lemma_labeled_partition(rows: Seq<Seq<Seq<char>>>, xc: int, yc: int, lc: int)
    ensures
        spec_labeled_points(rows, xc, yc, lc).len() + spec_labeled_errors(rows, xc, yc, lc).len()
            == rows.len(),
    decreases rows.len(),
{
    if rows.len() > 0 {
        lemma_labeled_partition(rows.drop_last(), xc, yc, lc);
    }
}

/// Reports the rows that [`collect_xy_labeled`] skips, one [`CellError`]
/// per skipped row.
#[verifier::loop_isolation(false)]
pub fn xy_labeled_errors(table: &Table, xc: usize, yc: usize, lc: usize) -> (r: Vec<CellError>)
    ensures
        cell_errors_match(
            r@,
            spec_labeled_errors(table.spec_rows(), xc as int, yc as int, lc as int),
        ),
{
    let ghost rows = table.spec_rows();
    let mut errors: Vec<CellError> = Vec::new();
    let n: usize = table.rows.len();
    let mut i: usize = 0;
    while i < n
        invariant
            0 <= i <= n,
            cell_errors_match(
                errors@,
                spec_labeled_errors(rows.subrange(0, i as int), xc as int, yc as int, lc as int),
            ),
        decreases n - i,
    {
        let row = &table.rows[i];
        proof {
            assert(rows[i as int] == row.deep_view());
            assert(rows.subrange(0, i + 1).drop_last() =~= rows.subrange(0, i as int));
            assert(rows.subrange(0, i + 1).last() == rows[i as int]);
            assert(forall|k: int|
                0 <= k < row@.len() ==> #[trigger] row.deep_view()[k] == row@[k]@);
        }
        if xc >= row.len() {
            errors.push(CellError { row: i, column: xc, raw: String::new() });
        } else if parse_scaled(row[xc].as_str()).is_none() {
            errors.push(CellError { row: i, column: xc, raw: row[xc].clone() });
        } else if yc >= row.len() {
            errors.push(CellError { row: i, column: yc, raw: String::new() });
        } else if parse_scaled(row[yc].as_str()).is_none() {
            errors.push(CellError { row: i, column: yc, raw: row[yc].clone() });
        } else if lc >= row.len() {
            errors.push(CellError { row: i, column: lc, raw: String::new() });
        }
        i += 1;
    }
    proof {
        assert(rows.subrange(0, n as int) =~= rows);
    }
    errors
}

} // verus!
