//! Tables of text: rows of fields, kept as comma-separated values.
//!
//! Reading and writing the comma-separated form is the work of the `csv`
//! crate. This module gives what it reads and writes a name, so that the
//! rest of the crate can say which table a text holds and which text stands
//! for a table.

use vstd::prelude::*;

verus! {

/// The error that the `csv` crate reports. Nothing is known of its content.
#[verifier::external_type_specification]
#[verifier::external_body]
pub struct ExCsvError(csv::Error);

/// The rows that the `csv` crate reads from `data` with its default
/// settings, the first row counted as a row like the others, and each field
/// as text; `None` where it reports an error instead.
pub uninterp spec fn csv_rows(data: Seq<u8>) -> Option<Seq<Seq<Seq<char>>>>;

/// The text that the `csv` crate writes for `rows` with its default
/// settings, one record for each row; `None` where it reports an error
/// instead.
pub uninterp spec fn csv_text(rows: Seq<Seq<Seq<char>>>) -> Option<Seq<u8>>;

/// Reads every record of `data` with `csv::Reader::records`, on a reader
/// made by `csv::ReaderBuilder` that keeps the first row among the records.
/// The contract claims only that the outcome is the one named `csv_rows`:
/// the same bytes always give the same rows, or always an error.
#[verifier::external_body]
pub(crate) fn read_records(data: &[u8]) -> (outcome: Result<Vec<Vec<String>>, csv::Error>)
    ensures
        match outcome {
            Ok(rows) => csv_rows(data@) == Some(rows.deep_view()),
            Err(_) => csv_rows(data@) is None,
        },
{
    let mut reader = csv::ReaderBuilder::new().has_headers(false).from_reader(data);
    let mut rows: Vec<Vec<String>> = Vec::new();
    for record in reader.records() {
        rows.push(record?.iter().map(String::from).collect());
    }
    Ok(rows)
}

/// Writes each row of `rows` with `csv::Writer::write_record` into a buffer
/// and flushes the writer with `csv::Writer::flush`. The contract claims
/// only that the outcome is the one named `csv_text`: the same rows always
/// give the same bytes, or always an error.
#[verifier::external_body]
fn write_records(rows: &Vec<Vec<String>>) -> (outcome: Result<Vec<u8>, csv::Error>)
    ensures
        match outcome {
            Ok(bytes) => csv_text(rows.deep_view()) == Some(bytes@),
            Err(_) => csv_text(rows.deep_view()) is None,
        },
{
    let mut bytes: Vec<u8> = Vec::new();
    {
        let mut writer = csv::Writer::from_writer(&mut bytes);
        for row in rows.iter() {
            writer.write_record(row.iter())?;
        }
        writer.flush()?;
    }
    Ok(bytes)
}

/// The comma-separated text of a table, or `None` where the rows cannot be
/// written as one.
pub fn write(rows: &Vec<Vec<String>>) -> (text: Option<Vec<u8>>)
    ensures
        text.deep_view() == csv_text(rows.deep_view()),
{
    match write_records(rows) {
        Ok(bytes) => Some(bytes),
        Err(_) => None,
    }
}

} // verus!
