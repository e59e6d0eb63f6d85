//! The list itself: the entries in order, read from the table in which they
//! are kept, numbered as they are saved, and taken out again by index.

use vstd::prelude::*;
use crate::codec::{decode, decoded, encode, encoded, MalformedRecordError};
use crate::entry::{line_of, rank, EntryView, LogEntry};
use crate::layout::{header, header_row, record_of, row, row_of, Columns};
use crate::order::{
    ascending, distinct_indices, lacks_index, sort, sorted_from, strictly_ascending, without_index,
};
use crate::table::{csv_rows, read_records};

verus! {

/// Why a table could not be read as a list.
#[derive(Debug, Clone, Copy, PartialEq, Eq, Structural)]
pub enum LoadError {
    /// The text is no table of comma-separated values.
    Unreadable,
    /// A record of the table is no entry. The error is that of the first
    /// such record.
    Malformed(MalformedRecordError),
}

/// The entry that row `i` of a table stands for, under the column names of
/// the table's first row.
pub open spec fn entry_of(rows: Seq<Seq<Seq<char>>>, i: int) -> Result<
    EntryView,
    MalformedRecordError,
> {
    decoded(record_of(rows[0], rows[i]))
}

/// Whether row `i` is the first row of the table, below the column names,
/// that stands for no entry.
pub open spec fn first_failure(rows: Seq<Seq<Seq<char>>>, i: int) -> bool {
    &&& 1 <= i < rows.len()
    &&& entry_of(rows, i) is Err
    &&& forall|j: int| 1 <= j < i ==> #[trigger] entry_of(rows, j) is Ok
}

/// The entries of a table in the order of its rows, or the error of the
/// first row that stands for no entry. The first row names the columns and
/// stands for no entry itself; a table without rows holds no entries.
pub open spec fn entries_of(rows: Seq<Seq<Seq<char>>>) -> Result<
    Seq<EntryView>,
    MalformedRecordError,
> {
    if exists|i: int| first_failure(rows, i) {
        Err(entry_of(rows, choose|i: int| first_failure(rows, i))->Err_0)
    } else if rows.len() == 0 {
        Ok(Seq::empty())
    } else {
        Ok(Seq::new((rows.len() - 1) as nat, |k: int| entry_of(rows, k + 1)->Ok_0))
    }
}

/// Whether no entry of `s` has a negative index.
pub open spec fn no_negative_index(s: Seq<EntryView>) -> bool {
    forall|i: int| 0 <= i < s.len() ==> ((#[trigger] s[i]).index matches Some(n) ==> n >= 0)
}

/// Whether every entry of `s` has an index.
pub open spec fn indexed(s: Seq<EntryView>) -> bool {
    forall|i: int| 0 <= i < s.len() ==> (#[trigger] s[i]).index is Some
}

/// The index that the next entry saved to the list `s` gets: 1 in an empty
/// list, else one more than the index of the last entry. `None` where the
/// last entry has no index, or the greatest one that there is.
pub open spec fn next_index_of(s: Seq<EntryView>) -> Option<i8> {
    if s.len() == 0 {
        Some(1i8)
    } else {
        match s.last().index {
            Some(last) if last < i8::MAX => Some((last + 1) as i8),
            _ => None,
        }
    }
}

/// The entry that saving a message to the list `s` adds.
pub open spec fn saved(s: Seq<EntryView>, message: Seq<char>) -> EntryView {
    EntryView { index: next_index_of(s), message }
}

/// The rows that saving a message to the list `s` adds to the table: the
/// row of the new entry, and before it the row of column names where the
/// list was empty.
pub open spec fn rows_added(s: Seq<EntryView>, message: Seq<char>) -> Seq<Seq<Seq<char>>> {
    let added = row_of(encoded(saved(s, message)));
    if s.len() == 0 {
        seq![header_row(), added]
    } else {
        seq![added]
    }
}

/// The table that keeps the list `s`: the row of column names and then one
/// row for each entry, in the order of the list. An empty list is kept as an
/// empty table.
pub open spec fn table_of(s: Seq<EntryView>) -> Seq<Seq<Seq<char>>> {
    if s.len() == 0 {
        Seq::empty()
    } else {
        seq![header_row()] + s.map_values(|e: EntryView| row_of(encoded(e)))
    }
}

/// The list of tasks, in ascending order of their indices.
#[derive(Debug)]
pub struct Log {
    log_entries: Vec<LogEntry>,
}

impl View for Log {
    type V = Seq<EntryView>;

    closed spec fn view(&self) -> Seq<EntryView> {
        self.log_entries.deep_view()
    }
}

impl Log {
    /// What holds of every list: its entries ascend by index, and none has
    /// a negative index.
    #[verifier::type_invariant]
    spec fn well_formed(&self) -> bool {
        &&& ascending(self@)
        &&& no_negative_index(self@)
    }

    /// Whether `outcome` is what reading the table `rows` gives: the error
    /// of the first row that stands for no entry, or else the list of the
    /// table's entries put in order.
    pub open spec fn loaded_from(rows: Seq<Seq<Seq<char>>>, outcome: Result<Log, LoadError>) -> bool {
        match outcome {
            Ok(log) => {
                &&& entries_of(rows) matches Ok(given)
                &&& sorted_from(log@, given)
            },
            Err(error) => entries_of(rows) matches Err(cause) && error == LoadError::Malformed(
                cause,
            ),
        }
    }

    /// The list without entries.
    pub fn new() -> (log: Log)
        ensures
            log@ == Seq::<EntryView>::empty(),
    {
        let log_entries: Vec<LogEntry> = Vec::new();
        assert(log_entries.deep_view() =~= Seq::<EntryView>::empty());
        Log { log_entries }
    }

    /// Reads a list from the rows of its table. The first row names the
    /// columns. Every other row has to stand for an entry: one that does not
    /// makes the whole table unreadable.
    pub fn from_rows(rows: &Vec<Vec<String>>) -> (outcome: Result<Log, LoadError>)
        ensures
            Log::loaded_from(rows.deep_view(), outcome),
    {
        let ghost table = rows.deep_view();
        let mut entries: Vec<LogEntry> = Vec::new();
        if rows.len() > 0 {
            let columns = Columns::locate(&rows[0]);
            assert(table[0] == rows@[0].deep_view());
            let mut i: usize = 1;
            while i < rows.len()
                invariant
                    1 <= i <= rows.len(),
                    table == rows.deep_view(),
                    columns.of_header(table[0]),
                    forall|j: int| 1 <= j < i ==> #[trigger] entry_of(table, j) is Ok,
                    entries.deep_view() == Seq::new(
                        (i - 1) as nat,
                        |k: int| entry_of(table, k + 1)->Ok_0,
                    ),
                decreases rows.len() - i,
            {
                assert(table[i as int] == rows@[i as int].deep_view());
                let record = columns.record(&rows[i]);
                assert(record@ == record_of(table[0], table[i as int]));
                match decode(&record) {
                    Ok(entry) => {
                        let ghost before = entries.deep_view();
                        let ghost e = entry@;
                        entries.push(entry);
                        assert(entry_of(table, i as int) == Ok::<EntryView, MalformedRecordError>(e));
                        assert(entries.deep_view() =~= before.push(e));
                        assert(entries.deep_view() =~= Seq::new(
                            i as nat,
                            |k: int| entry_of(table, k + 1)->Ok_0,
                        ));
                    },
                    Err(error) => {
                        proof {
                            assert(first_failure(table, i as int));
                            lemma_one_first_failure(table);
                        }
                        return Err(LoadError::Malformed(error));
                    },
                }
                i = i + 1;
            }
        }
        let ghost given = entries.deep_view();
        proof {
            assert(!exists|i: int| first_failure(table, i));
            assert(entries_of(table) == Ok::<Seq<EntryView>, MalformedRecordError>(given)) by {
                if rows.len() == 0 {
                    assert(given =~= Seq::<EntryView>::empty());
                }
            }
            assert(no_negative_index(given)) by {
                assert forall|k: int| 0 <= k < given.len() implies ((
                #[trigger] given[k]).index matches Some(n) ==> n >= 0) by {
                    assert(entry_of(table, k + 1) is Ok);
                    crate::codec::lemma_decoded_index_range(record_of(table[0], table[k + 1]));
                }
            }
        }
        let log_entries = sort(entries);
        proof {
            crate::order::lemma_sorted_same_entries(log_entries.deep_view(), given);
            let sorted = log_entries.deep_view();
            assert forall|k: int| 0 <= k < sorted.len() implies ((
            #[trigger] sorted[k]).index matches Some(n) ==> n >= 0) by {
                assert(sorted.contains(sorted[k]));
                let m = choose|m: int| 0 <= m < given.len() && given[m] == sorted[k];
                assert(given[m].index matches Some(n) ==> n >= 0);
            }
        }
        Ok(Log { log_entries })
    }

    /// Reads a list from the text of its table, as comma-separated values.
    /// Text that is no such table gives `LoadError::Unreadable`; a table is
    /// read as `from_rows` reads its rows.
    pub fn load(data: &[u8]) -> (outcome: Result<Log, LoadError>)
        ensures
            match csv_rows(data@) {
                Some(rows) => Log::loaded_from(rows, outcome),
                None => outcome matches Err(LoadError::Unreadable),
            },
    {
        match read_records(data) {
            Ok(rows) => Log::from_rows(&rows),
            Err(_) => Err(LoadError::Unreadable),
        }
    }

    /// The entries of the list, in ascending order of their indices.
    pub fn entries(&self) -> (entries: &Vec<LogEntry>)
        ensures
            entries.deep_view() == self@,
            ascending(self@),
            no_negative_index(self@),
    {
        proof {
            use_type_invariant(self);
        }
        &self.log_entries
    }

    /// Whether every entry of the list has an index.
    pub fn is_indexed(&self) -> (yes: bool)
        ensures
            yes == indexed(self@),
    {
        proof {
            use_type_invariant(self);
        }
        if self.log_entries.len() == 0 {
            true
        } else {
            let yes = self.log_entries[0].index.is_some();
            proof {
                let s = self@;
                assert(s[0] == self.log_entries@[0]@);
                if yes {
                    assert forall|i: int| 0 <= i < s.len() implies (#[trigger] s[i]).index is Some by {
                        assert(rank(s[0].index) <= rank(s[i].index));
                    }
                }
            }
            yes
        }
    }

    /// The index that the next saved entry gets, or `None` where the list
    /// cannot number another entry.
    pub fn next_index(&self) -> (index: Option<i8>)
        ensures
            index == next_index_of(self@),
    {
        let len: usize = self.log_entries.len();
        if len == 0 {
            Some(1)
        } else {
            assert(self@.last() == self.log_entries@[len - 1]@);
            match self.log_entries[len - 1].index {
                Some(last) => if last < i8::MAX {
                    Some(last + 1)
                } else {
                    None
                },
                None => None,
            }
        }
    }

    /// Saves a new task: gives it the next index, puts it at the end of the
    /// list and returns the rows to write at the end of the table. An index
    /// that `entry` brings is not kept. The list must be able to number
    /// another entry.
    pub fn save(&mut self, entry: LogEntry) -> (written: Vec<Vec<String>>)
        requires
            next_index_of(old(self)@) is Some,
        ensures
            final(self)@ == old(self)@.push(saved(old(self)@, entry.message@)),
            written.deep_view() == rows_added(old(self)@, entry.message@),
    {
        proof {
            use_type_invariant(&*self);
        }
        let ghost before = self@;
        let index = self.next_index();
        let entry = LogEntry { index, message: entry.message };
        let mut written: Vec<Vec<String>> = Vec::new();
        if self.log_entries.len() == 0 {
            written.push(header());
        }
        written.push(row(encode(&entry)));
        assert(written.deep_view() =~= rows_added(before, entry.message@));
        let ghost added = entry@;
        let mut entries: Vec<LogEntry> = Vec::new();
        assert(entries.deep_view() =~= Seq::<EntryView>::empty());
        std::mem::swap(&mut self.log_entries, &mut entries);
        entries.push(entry);
        proof {
            let after = entries.deep_view();
            assert(after =~= before.push(added));
            assert forall|i: int, j: int| 0 <= i < j < after.len() implies rank(after[i].index)
                <= rank(after[j].index) by {
                if j == before.len() && before.len() > 0 {
                    assert(after[i] == before[i]);
                    assert(i < before.len() - 1 ==> rank(before[i].index) <= rank(
                        before[before.len() - 1].index,
                    ));
                } else if j < before.len() {
                    assert(after[i] == before[i] && after[j] == before[j]);
                }
            }
            assert forall|i: int| 0 <= i < after.len() implies ((
            #[trigger] after[i]).index matches Some(n) ==> n >= 0) by {
                if i < before.len() {
                    assert(after[i] == before[i]);
                } else if before.len() > 0 {
                    assert(before[before.len() - 1].index matches Some(n) ==> n >= 0);
                }
            }
        }
        self.log_entries = entries;
        written
    }

    /// Takes every entry with the index of `entry` out of the list, and says
    /// whether there was one. The entries that stay keep their indices, so
    /// that the indices of the list may have gaps from then on.
    pub fn delete(&mut self, entry: LogEntry) -> (removed: bool)
        ensures
            final(self)@ == without_index(old(self)@, entry.index),
            removed == (final(self)@.len() < old(self)@.len()),
    {
        proof {
            use_type_invariant(&*self);
        }
        let ghost before = self@;
        let ghost pred = lacks_index(entry.index);
        let mut kept: Vec<LogEntry> = Vec::new();
        let mut i: usize = 0;
        proof {
            reveal(Seq::filter);
            assert(kept.deep_view() =~= before.subrange(0, 0).filter(pred));
        }
        while i < self.log_entries.len()
            invariant
                i <= self.log_entries.len(),
                self.log_entries.deep_view() == before,
                pred == lacks_index(entry.index),
                kept.deep_view() == before.subrange(0, i as int).filter(pred),
            decreases self.log_entries.len() - i,
        {
            let ghost seen = before.subrange(0, i as int);
            let ghost longer = before.subrange(0, i + 1);
            proof {
                reveal(Seq::filter);
                assert(longer.drop_last() =~= seen);
                assert(longer.last() == before[i as int]);
                assert(before[i as int] == self.log_entries@[i as int]@);
            }
            if self.log_entries[i].index != entry.index {
                let ghost old_kept = kept.deep_view();
                let copy = self.log_entries[i].clone();
                kept.push(copy);
                assert(kept.deep_view() =~= old_kept.push(before[i as int]));
            }
            i = i + 1;
        }
        proof {
            assert(before.subrange(0, before.len() as int) =~= before);
            crate::order::lemma_without_index_ascending(before, entry.index);
            let after = kept.deep_view();
            before.lemma_filter_len(pred);
            assert forall|k: int| 0 <= k < after.len() implies ((
            #[trigger] after[k]).index matches Some(n) ==> n >= 0) by {
                assert(after.contains(after[k]));
                before.lemma_filter_contains_rev(pred, after[k]);
                let m = choose|m: int| 0 <= m < before.len() && before[m] == after[k];
                assert(before[m].index matches Some(n) ==> n >= 0);
            }
        }
        let removed = kept.len() < self.log_entries.len();
        self.log_entries = kept;
        removed
    }

    /// The whole table that keeps the list. Every entry must have its index.
    pub fn rows(&self) -> (rows: Vec<Vec<String>>)
        requires
            indexed(self@),
        ensures
            rows.deep_view() == table_of(self@),
    {
        let ghost s = self@;
        let mut rows: Vec<Vec<String>> = Vec::new();
        if self.log_entries.len() > 0 {
            rows.push(header());
            let mut i: usize = 0;
            while i < self.log_entries.len()
                invariant
                    i <= self.log_entries.len(),
                    s == self.log_entries.deep_view(),
                    indexed(s),
                    rows.deep_view() == seq![header_row()] + s.subrange(0, i as int).map_values(
                        |e: EntryView| row_of(encoded(e)),
                    ),
                decreases self.log_entries.len() - i,
            {
                let ghost old_rows = rows.deep_view();
                assert(s[i as int] == self.log_entries@[i as int]@);
                rows.push(row(encode(&self.log_entries[i])));
                assert(rows.deep_view() =~= old_rows.push(row_of(encoded(s[i as int]))));
                assert(rows.deep_view() =~= seq![header_row()] + s.subrange(0, i + 1).map_values(
                    |e: EntryView| row_of(encoded(e)),
                ));
                i = i + 1;
            }
            assert(s.subrange(0, s.len() as int) =~= s);
        }
        assert(rows.deep_view() =~= table_of(s));
        rows
    }

    /// The lines that show the list, one for each entry, in the order of the
    /// list. Every entry must have its index.
    pub fn render(&self) -> (lines: Vec<String>)
        requires
            indexed(self@),
        ensures
            lines.deep_view() == self@.map_values(|e: EntryView| line_of(e)),
    {
        let ghost s = self@;
        let mut lines: Vec<String> = Vec::new();
        let mut i: usize = 0;
        while i < self.log_entries.len()
            invariant
                i <= self.log_entries.len(),
                s == self.log_entries.deep_view(),
                indexed(s),
                lines.deep_view() == s.subrange(0, i as int).map_values(
                    |e: EntryView| line_of(e),
                ),
            decreases self.log_entries.len() - i,
        {
            let ghost old_lines = lines.deep_view();
            assert(s[i as int] == self.log_entries@[i as int]@);
            lines.push(self.log_entries[i].line());
            assert(lines.deep_view() =~= old_lines.push(line_of(s[i as int])));
            assert(lines.deep_view() =~= s.subrange(0, i + 1).map_values(
                |e: EntryView| line_of(e),
            ));
            i = i + 1;
        }
        assert(s.subrange(0, s.len() as int) =~= s);
        lines
    }
}

/// The row written for an entry, read under the list's own column names,
/// stands for that entry again: for every entry whose index is a number from
/// 0 to 127.
pub proof fn lemma_row_holds_entry(entry: EntryView)
    requires
        entry.index matches Some(index) && index >= 0,
    ensures
        decoded(record_of(header_row(), row_of(encoded(entry)))) == Ok::<
            EntryView,
            MalformedRecordError,
        >(entry),
{
    crate::layout::lemma_record_of_row(encoded(entry));
    crate::codec::lemma_decode_encode(entry);
}

/// The table that keeps a list holds the entries of that list, in its
/// order: for every list whose entries all have an index, none of them
/// negative.
pub proof fn lemma_table_holds_list(s: Seq<EntryView>)
    requires
        indexed(s),
        no_negative_index(s),
    ensures
        entries_of(table_of(s)) == Ok::<Seq<EntryView>, MalformedRecordError>(s),
{
    let rows = table_of(s);
    if s.len() > 0 {
        assert(rows[0] == header_row());
        assert forall|i: int| 1 <= i < rows.len() implies entry_of(rows, i) == Ok::<
            EntryView,
            MalformedRecordError,
        >(s[i - 1]) by {
            assert(rows[i] == row_of(encoded(s[i - 1])));
            assert(s[i - 1].index is Some);
            lemma_row_holds_entry(s[i - 1]);
        }
        assert(!exists|i: int| first_failure(rows, i));
        let read = Seq::new((rows.len() - 1) as nat, |k: int| entry_of(rows, k + 1)->Ok_0);
        assert(read =~= s);
    } else {
        assert(!exists|i: int| first_failure(rows, i));
        assert(s =~= Seq::<EntryView>::empty());
    }
}

/// Reading the table that keeps a list gives that list again: for every
/// list in order whose entries all have an index, none of them negative.
pub proof fn lemma_reload(s: Seq<EntryView>, outcome: Result<Log, LoadError>)
    requires
        ascending(s),
        indexed(s),
        no_negative_index(s),
        Log::loaded_from(table_of(s), outcome),
    ensures
        outcome matches Ok(log) && log@ == s,
{
    lemma_table_holds_list(s);
    crate::order::lemma_sorted_from_itself(s);
    crate::order::lemma_sorted_is_unique(outcome->Ok_0@, s, s);
}

/// The rows that saving adds, put behind the table that kept the list
/// before, make the table that keeps the list afterwards.
pub proof fn lemma_save_extends_table(s: Seq<EntryView>, message: Seq<char>)
    ensures
        table_of(s) + rows_added(s, message) == table_of(s.push(saved(s, message))),
{
    let after = s.push(saved(s, message));
    assert(table_of(s) + rows_added(s, message) =~= table_of(after));
}

/// A saved entry has the message it was given. In an empty list it gets the
/// index 1. In any other list it gets one more than the index of the last
/// entry, which is the greatest of the list, so that every entry of the list
/// has a lower index than the new one. Saving therefore keeps a list of
/// distinct indices a list of distinct indices, and gives no index below 1
/// where the list holds no negative one.
pub proof fn lemma_saved_entry(s: Seq<EntryView>, message: Seq<char>)
    requires
        ascending(s),
        next_index_of(s) is Some,
    ensures
        saved(s, message).message == message,
        s.len() == 0 ==> saved(s, message).index == Some(1i8),
        s.len() > 0 ==> s.last().index is Some && saved(s, message).index == Some(
            (s.last().index->Some_0 + 1) as i8,
        ),
        forall|i: int| 0 <= i < s.len() ==> rank(#[trigger] s[i].index) <= rank(s.last().index),
        forall|i: int|
            0 <= i < s.len() ==> rank(#[trigger] s[i].index) < rank(saved(s, message).index),
        strictly_ascending(s) ==> strictly_ascending(s.push(saved(s, message))),
        no_negative_index(s) ==> saved(s, message).index->Some_0 >= 1,
{
    assert forall|i: int| 0 <= i < s.len() implies rank(#[trigger] s[i].index) <= rank(
        s.last().index,
    ) by {
        if i < s.len() - 1 {
            assert(rank(s[i].index) <= rank(s[s.len() - 1].index));
        }
    }
    let after = s.push(saved(s, message));
    if strictly_ascending(s) {
        assert forall|i: int, j: int| 0 <= i < j < after.len() implies rank(after[i].index)
            < rank(after[j].index) by {
            assert(after[i] == s[i]);
            if j < s.len() {
                assert(after[j] == s[j]);
            }
        }
    }
    if no_negative_index(s) && s.len() > 0 {
        assert(s[s.len() - 1].index matches Some(n) ==> n >= 0);
    }
}

/// Asking a list for its entries twice, with nothing saved or deleted in
/// between, gives the same entries both times.
pub proof fn lemma_entries_again(log: Log, first: &Vec<LogEntry>, second: &Vec<LogEntry>)
    requires
        first.deep_view() == log@,
        second.deep_view() == log@,
    ensures
        first.deep_view() == second.deep_view(),
{
}

/// A list read from a table stands in ascending order of its indices,
/// whatever the order of the rows; and strictly so where no two rows of the
/// table give the same index.
pub proof fn lemma_loaded_in_order(rows: Seq<Seq<Seq<char>>>, log: Log)
    requires
        Log::loaded_from(rows, Ok(log)),
    ensures
        ascending(log@),
        distinct_indices(entries_of(rows)->Ok_0) ==> strictly_ascending(
            log@,
        ),
{
    let given = entries_of(rows)->Ok_0;
    if distinct_indices(given) {
        crate::order::lemma_sorted_strictly(log@, given);
    }
}

/// At most one row is the first that stands for no entry.
proof fn lemma_one_first_failure(rows: Seq<Seq<Seq<char>>>)
    ensures
        forall|i: int, j: int| first_failure(rows, i) && first_failure(rows, j) ==> i == j,
{
    assert forall|i: int, j: int| first_failure(rows, i) && first_failure(rows, j) implies i
        == j by {
        if i < j {
            assert(entry_of(rows, i) is Ok);
        }
        if j < i {
            assert(entry_of(rows, j) is Ok);
        }
    }
}

} // verus!
