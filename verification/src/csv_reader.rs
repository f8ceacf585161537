//! Tables of comma-separated values: what the reader of such tables makes of a
//! text.

use crate::text::names;
use vstd::prelude::*;

verus! {

/// The first record of a table, which names its columns: its fields, or what
/// the reader has to say against the text.
pub uninterp spec fn csv_header_of(content: Seq<char>) -> Result<Seq<Seq<char>>, Seq<char>>;

/// The records of a table after the first: for each its fields, or what the
/// reader has to say against it.
pub uninterp spec fn csv_rows_of(content: Seq<char>) -> Seq<Result<Seq<Seq<char>>, Seq<char>>>;

/// A record as a mathematical value.
pub open spec fn row_view(row: Result<Vec<String>, String>) -> Result<Seq<Seq<char>>, Seq<char>> {
    match row {
        Ok(fields) => Ok(names(fields@)),
        Err(message) => Err(message@),
    }
}

/// A list of records as a mathematical value.
pub open spec fn rows_view(rows: Seq<Result<Vec<String>, String>>) -> Seq<
    Result<Seq<Seq<char>>, Seq<char>>,
> {
    Seq::new(rows.len(), |i: int| row_view(rows[i]))
}

/// `csv::Reader::headers`, on a reader of the text with the default settings:
/// the fields of the first record, or the reader's error as a text.
#[verifier::external_body]
pub(crate) fn csv_header(content: &str) -> (header: Result<Vec<String>, String>)
    ensures
        row_view(header) == csv_header_of(content@),
{
    let mut reader = csv::Reader::from_reader(content.as_bytes());
    match reader.headers() {
        Ok(record) => Ok(record.iter().map(|field| field.to_string()).collect()),
        Err(error) => Err(error.to_string()),
    }
}

/// `csv::Reader::records`, on a reader of the text with the default settings:
/// for each record after the first its fields, or the reader's error as a
/// text.
#[verifier::external_body]
pub(crate) fn csv_rows(content: &str) -> (rows: Vec<Result<Vec<String>, String>>)
    ensures
        rows_view(rows@) == csv_rows_of(content@),
{
    let mut reader = csv::Reader::from_reader(content.as_bytes());
    reader
        .records()
        .map(|row| match row {
            Ok(record) => Ok(record.iter().map(|field| field.to_string()).collect()),
            Err(error) => Err(error.to_string()),
        })
        .collect()
}

} // verus!
