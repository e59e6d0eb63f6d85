//! One task of the list.

use std::cmp::Ordering;
use vstd::prelude::*;
use vstd::std_specs::cmp::{PartialEqSpecImpl, PartialOrdSpecImpl};
use crate::decimal::{decimal, format_i8};

verus! {

/// What an entry is, as a mathematical value: its index, where one has been
/// assigned, and the characters of its message.
pub struct EntryView {
    pub index: Option<i8>,
    pub message: Seq<char>,
}

/// One task: a message and the index under which the list keeps it.
///
/// An entry made from a message alone has no index yet; the list assigns one
/// when the entry is saved.
#[derive(Debug)]
pub struct LogEntry {
    pub index: Option<i8>,
    pub message: String,
}

impl View for LogEntry {
    type V = EntryView;

    open spec fn view(&self) -> EntryView {
        EntryView { index: self.index, message: self.message@ }
    }
}

impl DeepView for LogEntry {
    type V = EntryView;

    open spec fn deep_view(&self) -> EntryView {
        self@
    }
}

/// The place of an index in the list's order: an entry without an index
/// comes before every entry that has one, and the others follow by number.
pub open spec fn rank(index: Option<i8>) -> int {
    match index {
        None => i8::MIN - 1,
        Some(i) => i as int,
    }
}

/// The line that shows an entry with an index: the index in decimal, behind
/// a zero where it is below 10, then a bar between two spaces, then the
/// message.
pub open spec fn line_of(entry: EntryView) -> Seq<char>
    recommends
        entry.index is Some,
{
    let index = entry.index.unwrap();
    let padding = if index < 10 {
        "0"@
    } else {
        Seq::empty()
    };
    padding + decimal(index as int) + " | "@ + entry.message
}

impl LogEntry {
    /// A new task that has not been given an index yet.
    pub fn from_message(s: String) -> (entry: LogEntry)
        ensures
            entry.index is None,
            entry.message == s,
    {
        LogEntry { index: None, message: s }
    }

    /// An entry that stands for the index alone, with an empty message: the
    /// key by which a task is looked up.
    pub fn from_index(index: i8) -> (entry: LogEntry)
        ensures
            entry.index == Some(index),
            entry.message@ == Seq::<char>::empty(),
    {
        LogEntry { index: Some(index), message: String::new() }
    }

    /// The line that shows the entry. The entry must have its index.
    pub fn line(&self) -> (text: String)
        requires
            self.index is Some,
        ensures
            text@ == line_of(self@),
    {
        let index: i8 = self.index.unwrap();
        let mut text = String::new();
        if index < 10 {
            text.append("0");
        }
        text.append(format_i8(index).as_str());
        text.append(" | ");
        text.append(self.message.as_str());
        assert(text@ =~= line_of(self@));
        text
    }
}

/// Whether an entry with the index `a` goes before one with the index `b`.
pub fn precedes(a: Option<i8>, b: Option<i8>) -> (before: bool)
    ensures
        before == (rank(a) < rank(b)),
{
    match (a, b) {
        (None, None) => false,
        (None, Some(_)) => true,
        (Some(_), None) => false,
        (Some(x), Some(y)) => x < y,
    }
}

/// Two entries are equal where they have the same index, whatever their
/// messages: the index is what names a task.
impl PartialEq for LogEntry {
    fn eq(&self, other: &LogEntry) -> (same: bool) {
        self.index == other.index
    }
}

impl PartialEqSpecImpl for LogEntry {
    open spec fn obeys_eq_spec() -> bool {
        true
    }

    open spec fn eq_spec(&self, other: &LogEntry) -> bool {
        self.index == other.index
    }
}

impl Eq for LogEntry {}

/// Entries are ordered by index alone, an entry without an index before
/// every entry that has one.
impl PartialOrd for LogEntry {
    fn partial_cmp(&self, other: &LogEntry) -> (order: Option<Ordering>) {
        if precedes(self.index, other.index) {
            Some(Ordering::Less)
        } else if precedes(other.index, self.index) {
            Some(Ordering::Greater)
        } else {
            Some(Ordering::Equal)
        }
    }
}

impl PartialOrdSpecImpl for LogEntry {
    open spec fn obeys_partial_cmp_spec() -> bool {
        true
    }

    open spec fn partial_cmp_spec(&self, other: &LogEntry) -> Option<Ordering> {
        if rank(self.index) < rank(other.index) {
            Some(Ordering::Less)
        } else if rank(other.index) < rank(self.index) {
            Some(Ordering::Greater)
        } else {
            Some(Ordering::Equal)
        }
    }
}

/// The error of std's integer parsing, `std::num::ParseIntError`. Nothing is
/// known of its content.
#[verifier::external_type_specification]
#[verifier::external_body]
pub struct ExParseIntError(std::num::ParseIntError);

/// A text read as an entry is a new task with that text as its message;
/// reading never fails.
impl std::str::FromStr for LogEntry {
    type Err = std::num::ParseIntError;

    fn from_str(s: &str) -> (outcome: Result<LogEntry, std::num::ParseIntError>)
        ensures
            outcome matches Ok(entry) && entry.index is None && entry.message@ == s@,
    {
        Ok(LogEntry::from_message(s.to_owned()))
    }
}

impl Clone for LogEntry {
    fn clone(&self) -> (copy: LogEntry)
        ensures
            copy == *self,
    {
        LogEntry { index: self.index, message: self.message.clone() }
    }
}

} // verus!
