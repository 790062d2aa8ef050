//! The delimited textual form of rows. Reading raw comma-delimited text
//! into fields and writing fields back out (escaping and quoting included)
//! is the business of the `csv` crate; the library consumes it through the
//! wrappers below, whose results are named by the uninterpreted functions.
#![allow(unused_imports)]
use vstd::prelude::*;

use crate::Row;

verus! {

/// The header row that the `csv` crate reads from `text`.
pub uninterp spec fn csv_header_of(text: Seq<char>) -> Seq<Seq<char>>;

/// The data records that the `csv` crate reads from `text`, after the
/// header row: each one a row, or the message of a read error.
pub uninterp spec fn csv_rows_of(text: Seq<char>) -> Seq<Result<Seq<Seq<char>>, Seq<char>>>;

/// The one-line textual form of a row, terminator included, as the `csv`
/// crate writes it.
pub uninterp spec fn csv_line_of(fields: Seq<Seq<char>>) -> Seq<char>;

/// Pointwise agreement between a parsed record and its ghost shape.
pub open spec fn record_matches(
    r: Result<Row, String>,
    m: Result<Seq<Seq<char>>, Seq<char>>,
) -> bool {
    match r {
        Ok(row) => m == Ok::<Seq<Seq<char>>, Seq<char>>(row@),
        Err(e) => m == Err::<Seq<Seq<char>>, Seq<char>>(e@),
    }
}

/// Relies on csv's `Reader::headers`: the first record of the
/// comma-delimited `text` (empty when `text` is empty), a function of
/// `text` alone.
#[verifier::external_body]
pub(crate) fn read_header(text: &str) -> (r: Row)
    ensures
        r@ == csv_header_of(text@),
{
    let mut reader = csv::Reader::from_reader(text.as_bytes());
    match reader.headers() {
        Ok(h) => Row::from_fields(h.iter().map(|f| f.to_string()).collect()),
        Err(_) => Row::new(),
    }
}

/// Relies on csv's `Reader::into_records`: the data records of the
/// comma-delimited `text` after the header row, each a row or a read
/// error's message, a function of `text` alone.
#[verifier::external_body]
pub(crate) fn read_rows(text: &str) -> (r: Vec<Result<Row, String>>)
    ensures
        r@.len() == csv_rows_of(text@).len(),
        forall|i: int| 0 <= i < r@.len() ==> record_matches(r@[i], csv_rows_of(text@)[i]),
{
    let reader = csv::Reader::from_reader(text.as_bytes());
    reader.into_records().map(
        |res| match res {
            Ok(rec) => Ok(Row::from_fields(rec.iter().map(|f| f.to_string()).collect())),
            Err(e) => Err(e.to_string()),
        },
    ).collect()
}

/// Relies on csv's `Writer::write_record`: the comma-delimited line for
/// the fields of `row`, quoted and escaped as needed and ended with a line
/// terminator, a function of the fields alone.
#[verifier::external_body]
pub(crate) fn write_line(row: &Row) -> (r: String)
    ensures
        r@ == csv_line_of(row@),
{
    let mut writer = csv::WriterBuilder::new().from_writer(Vec::new());
    let _ = writer.write_record(row.to_fields());
    match writer.into_inner() {
        Ok(bytes) => String::from_utf8_lossy(&bytes).into_owned(),
        Err(_) => String::new(),
    }
}

} // verus!
