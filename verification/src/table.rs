//! Tabular datasets: an ordered header row and rows of string cells.
//!
//! A [`Table`] is the untyped input of the pipeline.  It is built from an
//! in-memory delimited-text buffer through the csv crate; the parse is a
//! pure function of the bytes, named by [`csv_table_of`].  Rows are kept as
//! they were read: a row with the wrong cell count is a row-level problem
//! for later stages, never a reason to drop the dataset.

use vstd::prelude::*;

verus! {

/// An untyped dataset: ordered column names and rows of string cells.
#[derive(Clone, Debug)]
pub struct Table {
    /// The header row: one name per column, in file order.
    pub headers: Vec<String>,
    /// The data rows, in file order; each row's cells are in column order.
    pub rows: Vec<Vec<String>>,
}

/// A fatal, run-aborting failure of the pipeline.
#[derive(Clone, Copy, Debug, PartialEq, Eq, Structural)]
pub enum PipelineError {
    /// The delimited text could not be parsed at all.
    CsvParse,
    /// A column was requested by a name absent from the header row.
    ColumnNotFound,
    /// A column was requested by an index not below the column count.
    ColumnOutOfRange,
}

impl Table {
    /// The header row as a sequence of character sequences.
    pub open spec fn spec_headers(self) -> Seq<Seq<char>> {
        self.headers.deep_view()
    }

    /// The data rows as sequences of character sequences.
    pub open spec fn spec_rows(self) -> Seq<Seq<Seq<char>>> {
        self.rows.deep_view()
    }

    /// Number of columns declared by the header row.
    pub fn column_count(&self) -> (n: usize)
        ensures
            n == self.spec_headers().len(),
    {
        self.headers.len()
    }

    /// Number of data rows.
    pub fn row_count(&self) -> (n: usize)
        ensures
            n == self.spec_rows().len(),
    {
        self.rows.len()
    }
}

/// The data-row indexes whose cell count differs from the header's, in
/// row order.
pub open spec fn spec_mismatched_rows(headers: Seq<Seq<char>>, rows: Seq<Seq<Seq<char>>>) -> Seq<
    int,
>
    decreases rows.len(),
{
    if rows.len() == 0 {
        Seq::empty()
    } else {
        let prefix = spec_mismatched_rows(headers, rows.drop_last());
        if rows.last().len() == headers.len() {
            prefix
        } else {
            prefix.push(rows.len() - 1)
        }
    }
}

impl Table {
    /// Reports every row whose cell count differs from the header's.
    ///
    /// Such rows are a row-level problem — they stay in the table, and
    /// later stages treat their missing cells as cell errors — but a
    /// caller can log them.  The result is exactly
    /// [`spec_mismatched_rows`].
    #[verifier::loop_isolation(false)]
    pub fn mismatched_rows(&self) -> (r: Vec<usize>)
        ensures
            r@.map_values(|v: usize| v as int) == spec_mismatched_rows(
                self.spec_headers(),
                self.spec_rows(),
            ),
    {
        let ghost headers = self.spec_headers();
        let ghost rows = self.spec_rows();
        let width: usize = self.headers.len();
        let mut out: Vec<usize> = Vec::new();
        let n: usize = self.rows.len();
        let mut i: usize = 0;
        while i < n
            invariant
                0 <= i <= n,
                out@.map_values(|v: usize| v as int) == spec_mismatched_rows(
                    headers,
                    rows.subrange(0, i as int),
                ),
            decreases n - i,
        {
            proof {
                assert(rows[i as int] == self.rows@[i as int].deep_view());
                assert(rows.subrange(0, i + 1).drop_last() =~= rows.subrange(0, i as int));
                assert(rows.subrange(0, i + 1).last() == rows[i as int]);
            }
            if self.rows[i].len() != width {
                let ghost before = out@;
                out.push(i);
                proof {
                    assert(out@.map_values(|v: usize| v as int) =~= before.map_values(
                        |v: usize| v as int,
                    ).push(i as int));
                }
            }
            i += 1;
        }
        proof {
            assert(rows.subrange(0, n as int) =~= rows);
        }
        out
    }
}

/// What the csv crate yields for a byte buffer read with a header row:
/// `None` when the buffer is rejected, otherwise the header cells and the
/// data rows' cells.  A function of the bytes alone.
pub uninterp spec fn csv_table_of(data: Seq<u8>) -> Option<(Seq<Seq<char>>, Seq<Seq<Seq<char>>>)>;

/// Relies on csv::ReaderBuilder / csv::Reader with `has_headers(true)`
/// and `flexible(true)`: `headers` yields the first row, `records` the
/// remaining rows (a row with the wrong cell count is kept, to be
/// handled at row level), and the whole parse depends only on the bytes
/// handed in.
#[verifier::external_body]
fn parse_csv_bytes(data: &Vec<u8>) -> (r: Option<Table>)
    ensures
        r is Some <==> csv_table_of(data@) is Some,
        r is Some ==> r.unwrap().spec_headers() == csv_table_of(data@).unwrap().0,
        r is Some ==> r.unwrap().spec_rows() == csv_table_of(data@).unwrap().1,
{
    let mut rdr = csv::ReaderBuilder::new().has_headers(true).flexible(true).from_reader(
        data.as_slice(),
    );
    let headers: Vec<String> = match rdr.headers() {
        Ok(h) => h.iter().map(|s| s.to_string()).collect(),
        Err(_) => return None,
    };
    let mut rows: Vec<Vec<String>> = Vec::new();
    for rec in rdr.records() {
        match rec {
            Ok(r) => rows.push(r.iter().map(|s| s.to_string()).collect()),
            Err(_) => return None,
        }
    }
    Some(Table { headers, rows })
}

impl Table {
    /// Parses a delimited-text buffer with a header row into a table.
    ///
    /// Returns `Ok` exactly when the csv crate accepts the buffer, with
    /// the header and row cells it produced; `Err(PipelineError::CsvParse)`
    /// exactly when it rejects the buffer.
    pub fn from_csv_bytes(data: &Vec<u8>) -> (r: Result<Table, PipelineError>)
        ensures
            r is Ok <==> csv_table_of(data@) is Some,
            r is Ok ==> r.unwrap().spec_headers() == csv_table_of(data@).unwrap().0,
            r is Ok ==> r.unwrap().spec_rows() == csv_table_of(data@).unwrap().1,
            r is Err ==> r.unwrap_err() == PipelineError::CsvParse,
    {
        match parse_csv_bytes(data) {
            Some(t) => Ok(t),
            None => Err(PipelineError::CsvParse),
        }
    }
}

} // verus!
