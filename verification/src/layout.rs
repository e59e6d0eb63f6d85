//! Where the fields of a record stand in a row of the table.
//!
//! The first row of the table names the columns. A record's index is the
//! field under the first column named `index`, its message the field under
//! the first column named `message`; other columns are passed over.

use vstd::prelude::*;
use crate::codec::{Record, RecordView};

verus! {

/// The name of the column that holds the index.
pub open spec fn index_name() -> Seq<char> {
    "index"@
}

/// The name of the column that holds the message.
pub open spec fn message_name() -> Seq<char> {
    "message"@
}

/// The row of names that the list writes at the head of its table.
pub open spec fn header_row() -> Seq<Seq<char>> {
    seq![index_name(), message_name()]
}

/// The field of `row` at `column`, where there is one.
pub open spec fn field_at(row: Seq<Seq<char>>, column: Option<int>) -> Option<Seq<char>> {
    match column {
        Some(i) if 0 <= i < row.len() => Some(row[i]),
        _ => None,
    }
}

/// The record that `row` holds under the column names of `header`.
pub open spec fn record_of(header: Seq<Seq<char>>, row: Seq<Seq<char>>) -> RecordView {
    RecordView {
        index: field_at(row, header.index_of_first(index_name())),
        message: field_at(row, header.index_of_first(message_name())),
    }
}

/// The text of a field, empty where there is none.
pub open spec fn text_or_empty(field: Option<Seq<char>>) -> Seq<char> {
    match field {
        Some(text) => text,
        None => Seq::empty(),
    }
}

/// The row that holds `record` under the names of `header_row`.
pub open spec fn row_of(record: RecordView) -> Seq<Seq<char>> {
    seq![text_or_empty(record.index), text_or_empty(record.message)]
}

/// The columns of the two fields, each where the table has it.
#[derive(Debug, Clone, Copy)]
pub struct Columns {
    pub index: Option<usize>,
    pub message: Option<usize>,
}

/// A column as a position in a row.
pub open spec fn place(column: Option<usize>) -> Option<int> {
    match column {
        Some(i) => Some(i as int),
        None => None,
    }
}

/// The first column of `header` with the name `name`.
fn find(header: &Vec<String>, name: &str) -> (column: Option<usize>)
    ensures
        place(column) == header.deep_view().index_of_first(name@),
{
    let wanted = String::from_str(name);
    let ghost names = header.deep_view();
    let mut i: usize = 0;
    while i < header.len()
        invariant
            i <= header.len(),
            names == header.deep_view(),
            wanted@ == name@,
            forall|j: int| 0 <= j < i ==> names[j] != name@,
        decreases header.len() - i,
    {
        assert(names[i as int] == header@[i as int]@);
        if header[i] == wanted {
            proof {
                names.index_of_first_ensures(name@);
            }
            return Some(i);
        }
        i = i + 1;
    }
    proof {
        names.index_of_first_ensures(name@);
    }
    None
}

/// A copy of the field of `row` at `column`, where there is one.
fn field(row: &Vec<String>, column: Option<usize>) -> (text: Option<String>)
    ensures
        text.deep_view() == field_at(row.deep_view(), place(column)),
{
    match column {
        Some(i) => {
            if i < row.len() {
                assert(row.deep_view()[i as int] == row@[i as int]@);
                Some(row[i].clone())
            } else {
                None
            }
        },
        None => None,
    }
}

impl Columns {
    /// Whether these are the columns under which `header` puts the two
    /// fields.
    pub open spec fn of_header(self, header: Seq<Seq<char>>) -> bool {
        &&& place(self.index) == header.index_of_first(index_name())
        &&& place(self.message) == header.index_of_first(message_name())
    }

    /// Finds the columns of the two fields in the row of column names.
    pub fn locate(header: &Vec<String>) -> (columns: Columns)
        ensures
            columns.of_header(header.deep_view()),
    {
        Columns { index: find(header, "index"), message: find(header, "message") }
    }

    /// Takes the record out of a row.
    pub fn record(&self, row: &Vec<String>) -> (record: Record)
        ensures
            record@ == (RecordView {
                index: field_at(row.deep_view(), place(self.index)),
                message: field_at(row.deep_view(), place(self.message)),
            }),
    {
        Record { index: field(row, self.index), message: field(row, self.message) }
    }
}

/// The row of column names.
pub fn header() -> (row: Vec<String>)
    ensures
        row.deep_view() == header_row(),
{
    let mut row: Vec<String> = Vec::new();
    row.push(String::from_str("index"));
    row.push(String::from_str("message"));
    assert(row.deep_view() =~= header_row());
    row
}

/// The text of a field, empty where there is none.
fn into_text(field: Option<String>) -> (text: String)
    ensures
        text@ == text_or_empty(field.deep_view()),
{
    match field {
        Some(text) => text,
        None => String::new(),
    }
}

/// Lays a record out as a row under the names of `header`.
pub fn row(record: Record) -> (row: Vec<String>)
    ensures
        row.deep_view() == row_of(record@),
{
    let mut row: Vec<String> = Vec::new();
    row.push(into_text(record.index));
    row.push(into_text(record.message));
    assert(row.deep_view() =~= row_of(record@));
    row
}

/// Under the list's own column names, a row that was laid out from a record
/// with both fields holds that record.
pub proof fn lemma_record_of_row(record: RecordView)
    requires
        record.index is Some,
        record.message is Some,
    ensures
        record_of(header_row(), row_of(record)) == record,
{
    lemma_header_columns();
}

/// The list's own header puts the index in the first column and the message
/// in the second.
pub proof fn lemma_header_columns()
    ensures
        header_row().index_of_first(index_name()) == Some(0int),
        header_row().index_of_first(message_name()) == Some(1int),
{
    reveal_strlit("index");
    reveal_strlit("message");
    let names = header_row();
    assert(index_name().len() != message_name().len());
    assert(names[0] == index_name());
    assert(names[1] == message_name());
    names.index_of_first_ensures(index_name());
    names.index_of_first_ensures(message_name());
}

} // verus!
