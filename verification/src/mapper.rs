//! Column resolution and typed cell extraction.
//!
//! A logical role ("x", "y", "category") is bound to a physical column
//! either by zero-based index or by header-name lookup; the binding is
//! resolved once per dataset.  Cell conversion is per-cell: a cell that
//! fails numeric parsing is skipped and reported as a [`CellError`], and
//! the rest of the dataset is still processed.

use vstd::prelude::*;

use crate::table::PipelineError;
use crate::table::Table;
use crate::value::spec_parse_scaled;
use crate::value::parse_scaled;

verus! {

/// How a logical role finds its physical column.
#[derive(Clone, Debug)]
pub enum ColumnLocator {
    /// A zero-based column index.
    ByIndex(usize),
    /// The name of a header cell; the first matching column is used.
    ByName(String),
}

/// A recoverable, cell-scoped conversion failure: the cell at `row` /
/// `column` did not parse as a number (or the row was too short to hold
/// that column, in which case `raw` is empty).
#[derive(Clone, Debug)]
pub struct CellError {
    /// Zero-based data-row index of the offending cell.
    pub row: usize,
    /// Zero-based column index of the offending cell.
    pub column: usize,
    /// The cell's text as it stood in the dataset.
    pub raw: String,
}

/// Index of the first label in `labels` equal to `x`, or `labels.len()`
/// if none is.
pub open spec fn find_label(labels: Seq<Seq<char>>, x: Seq<char>) -> int
    decreases labels.len(),
{
    if labels.len() == 0 {
        0
    } else if labels[0] == x {
        0
    } else {
        1 + find_label(labels.drop_first(), x)
    }
}

/// `find_label` points at the first match: nothing before it matches, and
/// it matches unless it is `labels.len()`.
pub proof fn lemma_find_label(labels: Seq<Seq<char>>, x: Seq<char>)
    ensures
        0 <= find_label(labels, x) <= labels.len(),
        find_label(labels, x) < labels.len() ==> labels[find_label(labels, x)] == x,
        forall|i: int| 0 <= i < find_label(labels, x) ==> labels[i] != x,
    decreases labels.len(),
{
    if labels.len() == 0 {
    } else if labels[0] == x {
    } else {
        lemma_find_label(labels.drop_first(), x);
        assert forall|i: int| 0 <= i < find_label(labels, x) implies labels[i] != x by {
            if i > 0 {
                assert(labels.drop_first()[i - 1] == labels[i]);
            }
        }
    }
}

/// Index of the first entry of `labels` equal to `x`, if any.
///
/// Returns `Some` of the first match exactly when [`find_label`] finds
/// one, `None` exactly when no entry matches.
#[verifier::loop_isolation(false)]
pub fn find_index(labels: &Vec<String>, x: &String) -> (r: Option<usize>)
    ensures
        ({
            let fl = find_label(labels.deep_view(), x@);
            &&& (r is Some <==> fl < labels.deep_view().len())
            &&& (r is Some ==> r.unwrap() as int == fl)
        }),
{
    proof {
        lemma_find_label(labels.deep_view(), x@);
    }
    let ghost fl = find_label(labels.deep_view(), x@);
    let n: usize = labels.len();
    let mut i: usize = 0;
    while i < n
        invariant
            0 <= i <= n,
            forall|k: int| 0 <= k < i ==> labels.deep_view()[k] != x@,
        decreases n - i,
    {
        let li: &String = &labels[i];
        if li.eq(x) {
            proof {
                assert(labels.deep_view()[i as int] == x@);
                if fl < i {
                    assert(labels.deep_view()[fl] == x@);
                }
                if fl > i {
                    assert(labels.deep_view()[i as int] != x@);
                }
                assert(fl == i as int);
            }
            return Some(i);
        }
        i += 1;
    }
    proof {
        if fl < n {
            assert(labels.deep_view()[fl] == x@);
        }
    }
    None
}

/// What resolving a locator against a header row yields: the column index
/// for a valid binding, the fatal error for an absent name or an index
/// past the last column.
pub open spec fn spec_resolve(headers: Seq<Seq<char>>, loc: ColumnLocator) -> Result<
    int,
    PipelineError,
> {
    match loc {
        ColumnLocator::ByIndex(i) => {
            if i < headers.len() {
                Ok(i as int)
            } else {
                Err(PipelineError::ColumnOutOfRange)
            }
        },
        ColumnLocator::ByName(n) => {
            let j = find_label(headers, n@);
            if j < headers.len() {
                Ok(j)
            } else {
                Err(PipelineError::ColumnNotFound)
            }
        },
    }
}

/// Resolves a column locator against the table's header row.
///
/// Returns exactly what [`spec_resolve`] describes: the column index when
/// the binding is valid, the corresponding fatal error when it is not.
pub fn resolve_column(table: &Table, loc: &ColumnLocator) -> (r: Result<usize, PipelineError>)
    ensures
        r is Ok <==> spec_resolve(table.spec_headers(), *loc) is Ok,
        r is Ok ==> r.unwrap() as int == spec_resolve(table.spec_headers(), *loc)->Ok_0,
        r is Err ==> r.unwrap_err() == spec_resolve(table.spec_headers(), *loc)->Err_0,
{
    match loc {
        ColumnLocator::ByIndex(i) => {
            if *i < table.headers.len() {
                Ok(*i)
            } else {
                Err(PipelineError::ColumnOutOfRange)
            }
        },
        ColumnLocator::ByName(n) => {
            proof {
                lemma_find_label(table.spec_headers(), n@);
            }
            match find_index(&table.headers, n) {
                Some(j) => Ok(j),
                None => Err(PipelineError::ColumnNotFound),
            }
        },
    }
}

/// The numeric values of one column, in row order: one entry per row whose
/// cell at `col` exists and parses as a fixed-point number.
pub open spec fn spec_numeric_column(rows: Seq<Seq<Seq<char>>>, col: int) -> Seq<i64>
    decreases rows.len(),
{
    if rows.len() == 0 {
        Seq::empty()
    } else {
        let prefix = spec_numeric_column(rows.drop_last(), col);
        let row = rows.last();
        if 0 <= col < row.len() && spec_parse_scaled(row[col]) is Some {
            prefix.push(spec_parse_scaled(row[col]).unwrap())
        } else {
            prefix
        }
    }
}

/// The cell-scoped failures of one column, in row order: for each row
/// whose cell at `col` is missing or does not parse, the row index, the
/// column index, and the raw cell text (empty when the row is short).
pub open spec fn spec_column_errors(rows: Seq<Seq<Seq<char>>>, col: int) -> Seq<
    (int, int, Seq<char>),
>
    decreases rows.len(),
{
    if rows.len() == 0 {
        Seq::empty()
    } else {
        let prefix = spec_column_errors(rows.drop_last(), col);
        let row = rows.last();
        if 0 <= col < row.len() && spec_parse_scaled(row[col]) is Some {
            prefix
        } else {
            let raw: Seq<char> = if 0 <= col < row.len() {
                row[col]
            } else {
                Seq::empty()
            };
            prefix.push((rows.len() - 1, col, raw))
        }
    }
}

/// Whether a vector of cell errors carries exactly the described failures.
pub open spec fn cell_errors_match(errs: Seq<CellError>, described: Seq<(int, int, Seq<char>)>) -> bool {
    &&& errs.len() == described.len()
    &&& forall|k: int|
        0 <= k < errs.len() ==> {
            &&& (#[trigger] errs[k]).row as int == described[k].0
            &&& errs[k].column as int == described[k].1
            &&& errs[k].raw@ == described[k].2
        }
}

/// Extracts one column as numeric values, reporting per-cell failures.
///
/// The values are exactly [`spec_numeric_column`] of the table's rows; the
/// errors are exactly [`spec_column_errors`].  No failure aborts the scan.
#[verifier::loop_isolation(false)]
pub fn numeric_column(table: &Table, col: usize) -> (r: (Vec<i64>, Vec<CellError>))
    ensures
        r.0@ == spec_numeric_column(table.spec_rows(), col as int),
        cell_errors_match(r.1@, spec_column_errors(table.spec_rows(), col as int)),
{
    let ghost rows = table.spec_rows();
    let mut values: Vec<i64> = Vec::new();
    let mut errors: Vec<CellError> = Vec::new();
    let n: usize = table.rows.len();
    let mut i: usize = 0;
    while i < n
        invariant
            0 <= i <= n,
            values@ == spec_numeric_column(rows.subrange(0, i as int), col as int),
            cell_errors_match(errors@, spec_column_errors(rows.subrange(0, i as int), col as int)),
        decreases n - i,
    {
        let row = &table.rows[i];
        proof {
            assert(rows[i as int] == row.deep_view());
            assert(rows.subrange(0, i + 1).drop_last() =~= rows.subrange(0, i as int));
            assert(rows.subrange(0, i + 1).last() == rows[i as int]);
        }
        if col < row.len() {
            proof {
                assert(row.deep_view()[col as int] == row@[col as int]@);
            }
            match parse_scaled(row[col].as_str()) {
                Some(v) => {
                    values.push(v);
                },
                None => {
                    errors.push(
                        CellError { row: i, column: col, raw: row[col].clone() },
                    );
                },
            }
        } else {
            errors.push(CellError { row: i, column: col, raw: String::new() });
        }
        i += 1;
    }
    proof {
        assert(rows.subrange(0, n as int) =~= rows);
    }
    (values, errors)
}

} // verus!
