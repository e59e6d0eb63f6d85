use td::order::sort;
use td::table;
use td::{LoadError, Log, LogEntry, MalformedRecordError};

fn pairs_of(entries: &Vec<LogEntry>) -> Vec<(Option<i8>, String)> {
    entries.iter().map(|e| (e.index, e.message.clone())).collect()
}

fn listed(log: &Log) -> Vec<(Option<i8>, String)> {
    pairs_of(log.entries())
}

fn pair(index: i8, message: &str) -> (Option<i8>, String) {
    (Some(index), message.to_string())
}

fn strings(fields: &[&str]) -> Vec<String> {
    fields.iter().map(|f| f.to_string()).collect()
}

fn entry(index: Option<i8>, message: &str) -> LogEntry {
    LogEntry { index, message: message.to_string() }
}

#[test]
fn new_list_is_empty() {
    let log = Log::new();
    assert!(log.entries().is_empty());
    assert!(log.is_indexed());
    assert_eq!(log.next_index(), Some(1));
    assert!(log.render().is_empty());
    assert!(log.rows().is_empty());
}

#[test]
fn sort_orders_by_index() {
    let sorted = sort(vec![entry(Some(3), "c"), entry(Some(1), "a"), entry(Some(2), "b")]);
    assert_eq!(pairs_of(&sorted), vec![pair(1, "a"), pair(2, "b"), pair(3, "c")]);
}

#[test]
fn sort_keeps_entries_of_one_index_in_their_order() {
    let sorted = sort(vec![
        entry(Some(2), "first two"),
        entry(Some(1), "first one"),
        entry(Some(2), "second two"),
        entry(None, "first none"),
        entry(Some(1), "second one"),
        entry(None, "second none"),
        entry(Some(2), "third two"),
    ]);
    assert_eq!(
        pairs_of(&sorted),
        vec![
            (None, "first none".to_string()),
            (None, "second none".to_string()),
            pair(1, "first one"),
            pair(1, "second one"),
            pair(2, "first two"),
            pair(2, "second two"),
            pair(2, "third two"),
        ]
    );
}

#[test]
fn sort_of_nothing_is_nothing() {
    assert!(sort(Vec::new()).is_empty());
}

#[test]
fn sort_orders_as_a_stable_sort_by_index_does() {
    let mut state: u32 = 12345;
    for round in 0..50 {
        let mut given: Vec<LogEntry> = Vec::new();
        for position in 0..(round % 17) {
            state = state.wrapping_mul(1103515245).wrapping_add(12345);
            let draw = (state >> 16) % 7;
            let index = if draw == 0 { None } else { Some(draw as i8 - 3) };
            given.push(entry(index, &format!("{}", position)));
        }
        let mut expected = pairs_of(&given);
        expected.sort_by_key(|p| p.0);
        assert_eq!(pairs_of(&sort(given)), expected);
    }
}

#[test]
fn load_of_header_alone_is_an_empty_list() {
    let log = Log::load(b"index,message\n").unwrap();
    assert!(log.entries().is_empty());
}

#[test]
fn load_finds_the_columns_by_name() {
    let log = Log::load(b"message,done,index\nbuy milk,no,2\ncall home,yes,1\n").unwrap();
    assert_eq!(listed(&log), vec![pair(1, "call home"), pair(2, "buy milk")]);
}

#[test]
fn load_reads_quoted_fields() {
    let log = Log::load(b"index,message\n1,\"eggs, milk\"\n2,\"say \"\"hi\"\"\"\n").unwrap();
    assert_eq!(listed(&log), vec![pair(1, "eggs, milk"), pair(2, "say \"hi\"")]);
}

#[test]
fn load_keeps_entries_of_one_index_in_file_order() {
    let log = Log::load(b"index,message\n2,x\n1,first\n1,second\n").unwrap();
    assert_eq!(listed(&log), vec![pair(1, "first"), pair(1, "second"), pair(2, "x")]);
}

#[test]
fn load_puts_entries_without_index_first() {
    let log = Log::load(b"index,message\n2,b\n,pending\n1,a\n").unwrap();
    assert_eq!(
        listed(&log),
        vec![(None, "pending".to_string()), pair(1, "a"), pair(2, "b")]
    );
    assert!(!log.is_indexed());
}

#[test]
fn load_without_index_column_gives_entries_without_index() {
    let log = Log::load(b"message\nbuy milk\n").unwrap();
    assert_eq!(listed(&log), vec![(None, "buy milk".to_string())]);
    assert_eq!(log.next_index(), None);
}

#[test]
fn load_fails_without_message_column() {
    assert!(matches!(
        Log::load(b"index\n1\n"),
        Err(LoadError::Malformed(MalformedRecordError::MissingMessage))
    ));
}

#[test]
fn load_fails_on_a_negative_index() {
    assert!(matches!(
        Log::load(b"index,message\n-1,a\n"),
        Err(LoadError::Malformed(MalformedRecordError::InvalidIndex))
    ));
}

#[test]
fn load_fails_on_an_index_above_127() {
    assert!(matches!(
        Log::load(b"index,message\n127,a\n128,b\n"),
        Err(LoadError::Malformed(MalformedRecordError::InvalidIndex))
    ));
}

#[test]
fn load_fails_on_one_bad_record_among_good_ones() {
    assert!(Log::load(b"index,message\n1,a\n2,b\nthree,c\n4,d\n").is_err());
}

#[test]
fn load_fails_on_rows_of_unequal_length() {
    assert!(matches!(Log::load(b"index,message\n1,a\n2\n"), Err(LoadError::Unreadable)));
}

#[test]
fn load_fails_on_text_that_is_not_utf8() {
    assert!(matches!(Log::load(b"index,message\n1,\xff\xfe\n"), Err(LoadError::Unreadable)));
}

#[test]
fn from_rows_reads_as_load_does() {
    let rows = vec![strings(&["index", "message"]), strings(&["3", "c"]), strings(&["1", "a"])];
    let log = Log::from_rows(&rows).unwrap();
    assert_eq!(listed(&log), vec![pair(1, "a"), pair(3, "c")]);
}

#[test]
fn from_rows_of_nothing_is_an_empty_list() {
    let log = Log::from_rows(&Vec::new()).unwrap();
    assert!(log.entries().is_empty());
}

#[test]
fn from_rows_reports_the_first_bad_record() {
    let rows = vec![
        strings(&["index", "message"]),
        strings(&["1", "a"]),
        strings(&["2"]),
        strings(&["x", "c"]),
    ];
    assert!(matches!(
        Log::from_rows(&rows),
        Err(LoadError::Malformed(MalformedRecordError::MissingMessage))
    ));
    let rows = vec![
        strings(&["index", "message"]),
        strings(&["x", "a"]),
        strings(&["2"]),
    ];
    assert!(matches!(
        Log::from_rows(&rows),
        Err(LoadError::Malformed(MalformedRecordError::InvalidIndex))
    ));
}

#[test]
fn entries_twice_are_the_same() {
    let log = Log::load(b"index,message\n3,c\n1,a\n").unwrap();
    let first = listed(&log);
    let second = listed(&log);
    assert_eq!(first, second);
    assert_eq!(first, vec![pair(1, "a"), pair(3, "c")]);
}

#[test]
fn save_numbers_from_the_last_index_not_from_the_count() {
    let mut log = Log::load(b"index,message\n5,e\n2,b\n").unwrap();
    assert_eq!(log.next_index(), Some(6));
    let written = log.save(LogEntry::from_message("f".to_string()));
    assert_eq!(listed(&log), vec![pair(2, "b"), pair(5, "e"), pair(6, "f")]);
    assert_eq!(written, vec![strings(&["6", "f"])]);
}

#[test]
fn save_writes_the_header_before_the_first_record_only() {
    let mut log = Log::new();
    let first = log.save(LogEntry::from_message("a".to_string()));
    let second = log.save(LogEntry::from_message("b".to_string()));
    assert_eq!(first, vec![strings(&["index", "message"]), strings(&["1", "a"])]);
    assert_eq!(second, vec![strings(&["2", "b"])]);
    assert_eq!(listed(&log), vec![pair(1, "a"), pair(2, "b")]);
}

#[test]
fn save_does_not_keep_an_index_that_the_entry_brings() {
    let mut log = Log::load(b"index,message\n1,a\n").unwrap();
    log.save(LogEntry { index: Some(40), message: "b".to_string() });
    assert_eq!(listed(&log), vec![pair(1, "a"), pair(2, "b")]);
}

#[test]
fn save_after_index_zero_gives_one() {
    let mut log = Log::load(b"index,message\n0,zero\n").unwrap();
    log.save(LogEntry::from_message("one".to_string()));
    assert_eq!(listed(&log), vec![pair(0, "zero"), pair(1, "one")]);
}

#[test]
fn no_index_is_left_after_127() {
    let mut log = Log::load(b"index,message\n126,a\n").unwrap();
    assert_eq!(log.next_index(), Some(127));
    log.save(LogEntry::from_message("b".to_string()));
    assert_eq!(log.next_index(), None);
    assert_eq!(listed(&log), vec![pair(126, "a"), pair(127, "b")]);
}

#[test]
fn what_save_writes_is_read_back_behind_the_old_text() {
    let mut text: Vec<u8> = Vec::new();
    let mut log = Log::load(&text).unwrap();
    for message in ["buy milk", "eggs, butter", "say \"hi\"", "two\nlines", ""] {
        let written = log.save(LogEntry::from_message(message.to_string()));
        text.extend(table::write(&written).unwrap());
    }
    let again = Log::load(&text).unwrap();
    assert_eq!(listed(&again), listed(&log));
    assert_eq!(
        listed(&again),
        vec![
            pair(1, "buy milk"),
            pair(2, "eggs, butter"),
            pair(3, "say \"hi\""),
            pair(4, "two\nlines"),
            pair(5, ""),
        ]
    );
}

#[test]
fn delete_takes_the_entry_out_and_leaves_a_gap() {
    let mut log = Log::load(b"index,message\n1,a\n2,b\n3,c\n").unwrap();
    assert!(log.delete(LogEntry::from_index(2)));
    assert_eq!(listed(&log), vec![pair(1, "a"), pair(3, "c")]);
    assert_eq!(log.next_index(), Some(4));
    let written = log.save(LogEntry::from_message("d".to_string()));
    assert_eq!(listed(&log), vec![pair(1, "a"), pair(3, "c"), pair(4, "d")]);
    assert_eq!(written, vec![strings(&["4", "d"])]);
}

#[test]
fn delete_of_no_entry_changes_nothing() {
    let mut log = Log::load(b"index,message\n1,a\n3,c\n").unwrap();
    assert!(!log.delete(LogEntry::from_index(2)));
    assert!(!log.delete(LogEntry::from_index(-1)));
    assert!(!log.delete(LogEntry::from_message("a".to_string())));
    assert_eq!(listed(&log), vec![pair(1, "a"), pair(3, "c")]);
}

#[test]
fn delete_takes_every_entry_of_the_index() {
    let mut log = Log::load(b"index,message\n2,x\n1,a\n2,y\n").unwrap();
    assert!(log.delete(LogEntry::from_index(2)));
    assert_eq!(listed(&log), vec![pair(1, "a")]);
}

#[test]
fn delete_of_the_last_entry_lowers_the_next_index() {
    let mut log = Log::load(b"index,message\n1,a\n2,b\n").unwrap();
    assert!(log.delete(LogEntry::from_index(2)));
    assert_eq!(log.next_index(), Some(2));
    assert!(log.delete(LogEntry::from_index(1)));
    assert!(log.entries().is_empty());
    assert_eq!(log.next_index(), Some(1));
    assert!(log.rows().is_empty());
}

#[test]
fn delete_by_a_missing_index_takes_the_entries_without_one() {
    let mut log = Log::load(b"index,message\n,pending\n1,a\n").unwrap();
    assert!(log.delete(LogEntry::from_message("whatever".to_string())));
    assert_eq!(listed(&log), vec![pair(1, "a")]);
    assert!(log.is_indexed());
}

#[test]
fn rows_hold_the_header_and_every_entry() {
    let log = Log::load(b"index,message\n3,c\n1,a\n").unwrap();
    assert_eq!(
        log.rows(),
        vec![strings(&["index", "message"]), strings(&["1", "a"]), strings(&["3", "c"])]
    );
}

#[test]
fn rows_are_read_back_as_the_same_list() {
    let mut log = Log::load(b"index,message\n7,\"g, h\"\n3,c\n1,a\n").unwrap();
    log.delete(LogEntry::from_index(3));
    let text = table::write(&log.rows()).unwrap();
    assert_eq!(text, b"index,message\n1,a\n7,\"g, h\"\n".to_vec());
    let again = Log::load(&text).unwrap();
    assert_eq!(listed(&again), vec![pair(1, "a"), pair(7, "g, h")]);
}

#[test]
fn write_quotes_what_needs_quotes() {
    let rows = vec![strings(&["1", "eggs, milk"]), strings(&["2", "say \"hi\""])];
    assert_eq!(
        table::write(&rows).unwrap(),
        b"1,\"eggs, milk\"\n2,\"say \"\"hi\"\"\"\n".to_vec()
    );
}

#[test]
fn write_of_no_rows_is_empty() {
    assert_eq!(table::write(&Vec::new()), Some(Vec::new()));
}

#[test]
fn write_fails_on_rows_of_unequal_length() {
    let rows = vec![strings(&["1", "a"]), strings(&["2"])];
    assert_eq!(table::write(&rows), None);
}

#[test]
fn render_shows_the_list_in_order() {
    let log = Log::load(b"index,message\n12,l\n3,c\n100,z\n").unwrap();
    assert_eq!(
        log.render(),
        vec!["03 | c".to_string(), "12 | l".to_string(), "100 | z".to_string()]
    );
}
