//! Entries as records: the two fields of text under which a task is kept.

use vstd::prelude::*;
use crate::decimal::{decimal, format_i8, lemma_small_number_of_decimal, parse_small_number, small_number};
use crate::entry::{EntryView, LogEntry};

verus! {

/// Why a record is no entry.
#[derive(Debug, Clone, Copy, PartialEq, Eq, Structural)]
pub enum MalformedRecordError {
    /// The index field holds text that is not a number from 0 to 127.
    InvalidIndex,
    /// The record has no message field.
    MissingMessage,
}

/// What a record is, as a mathematical value.
pub struct RecordView {
    pub index: Option<Seq<char>>,
    pub message: Option<Seq<char>>,
}

/// One record: the text of the index field and of the message field, each
/// where the record has that field.
#[derive(Debug)]
pub struct Record {
    pub index: Option<String>,
    pub message: Option<String>,
}

impl View for Record {
    type V = RecordView;

    open spec fn view(&self) -> RecordView {
        RecordView { index: self.index.deep_view(), message: self.message.deep_view() }
    }
}

/// The index that the index field of a record gives: none where the field is
/// missing or empty, else the number that its text writes. Text that writes
/// no number from 0 to 127 is an error.
pub open spec fn decoded_index(field: Option<Seq<char>>) -> Result<
    Option<i8>,
    MalformedRecordError,
> {
    match field {
        Some(text) if text.len() > 0 => match small_number(text) {
            Some(n) => Ok(Some(n)),
            None => Err(MalformedRecordError::InvalidIndex),
        },
        _ => Ok(None),
    }
}

/// The entry that a record stands for, or why it stands for none: the index
/// field must be missing, empty or a number from 0 to 127, and the message
/// field must be there. Where both are at fault, the error is that of the
/// index.
pub open spec fn decoded(record: RecordView) -> Result<EntryView, MalformedRecordError> {
    match decoded_index(record.index) {
        Err(error) => Err(error),
        Ok(index) => match record.message {
            None => Err(MalformedRecordError::MissingMessage),
            Some(message) => Ok(EntryView { index, message }),
        },
    }
}

/// The record that stands for an entry with an index: the index in decimal,
/// and the message as it is.
pub open spec fn encoded(entry: EntryView) -> RecordView
    recommends
        entry.index is Some,
{
    RecordView { index: Some(decimal(entry.index.unwrap() as int)), message: Some(entry.message) }
}

/// Reads a record as an entry.
pub fn decode(record: &Record) -> (outcome: Result<LogEntry, MalformedRecordError>)
    ensures
        match outcome {
            Ok(entry) => decoded(record@) == Ok::<EntryView, MalformedRecordError>(entry@),
            Err(error) => decoded(record@) == Err::<EntryView, MalformedRecordError>(error),
        },
{
    let index: Option<i8> = match &record.index {
        Some(text) => {
            if text.as_str().unicode_len() == 0 {
                None
            } else {
                match parse_small_number(text.as_str()) {
                    Some(n) => Some(n),
                    None => {
                        return Err(MalformedRecordError::InvalidIndex);
                    },
                }
            }
        },
        None => None,
    };
    match &record.message {
        Some(message) => Ok(LogEntry { index, message: message.clone() }),
        None => Err(MalformedRecordError::MissingMessage),
    }
}

/// Writes an entry as a record. The entry must have its index.
pub fn encode(entry: &LogEntry) -> (record: Record)
    requires
        entry.index is Some,
    ensures
        record@ == encoded(entry@),
{
    let index: i8 = entry.index.unwrap();
    Record { index: Some(format_i8(index)), message: Some(entry.message.clone()) }
}

/// An entry read from a record has no negative index.
pub proof fn lemma_decoded_index_range(record: RecordView)
    ensures
        decoded(record) matches Ok(entry) ==> (entry.index matches Some(n) ==> n >= 0),
{
    if let Some(text) = record.index {
        crate::decimal::lemma_small_number_range(text);
    }
}

/// Writing an entry as a record and reading the record back gives the entry
/// again, index and message: for every entry whose index is a number from 0
/// to 127.
pub proof fn lemma_decode_encode(entry: EntryView)
    requires
        entry.index matches Some(index) && index >= 0,
    ensures
        decoded(encoded(entry)) == Ok::<EntryView, MalformedRecordError>(entry),
{
    let index = entry.index.unwrap();
    lemma_small_number_of_decimal(index);
    crate::decimal::lemma_digits_of(index as nat);
}

} // verus!
