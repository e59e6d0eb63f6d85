use td::table;
use td::{LoadError, Log, LogEntry, MalformedRecordError};

fn pairs(log: &Log) -> Vec<(Option<i8>, String)> {
    log.entries().iter().map(|e| (e.index, e.message.clone())).collect()
}

fn text(rows: &Vec<Vec<String>>) -> String {
    String::from_utf8(table::write(rows).expect("rows of two fields can be written")).unwrap()
}

#[test]
fn add_to_empty_store() {
    let mut log = Log::load(b"").expect("an empty file is an empty list");
    assert!(log.entries().is_empty());
    let written = log.save(LogEntry::from_message("buy milk".to_string()));
    assert_eq!(pairs(&log), vec![(Some(1), "buy milk".to_string())]);
    assert_eq!(text(&written), "index,message\n1,buy milk\n");
}

#[test]
fn add_after_two_entries() {
    let mut log = Log::load(b"index,message\n1,a\n2,b\n").unwrap();
    let written = log.save(LogEntry::from_message("c".to_string()));
    assert_eq!(
        pairs(&log),
        vec![
            (Some(1), "a".to_string()),
            (Some(2), "b".to_string()),
            (Some(3), "c".to_string()),
        ]
    );
    assert_eq!(text(&written), "3,c\n");
}

#[test]
fn load_puts_records_in_order() {
    let log = Log::load(b"index,message\n3,c\n1,a\n2,b\n").unwrap();
    assert_eq!(
        pairs(&log),
        vec![
            (Some(1), "a".to_string()),
            (Some(2), "b".to_string()),
            (Some(3), "c".to_string()),
        ]
    );
}

#[test]
fn load_fails_on_non_numeric_index() {
    let outcome = Log::load(b"index,message\n1,a\nx,b\n");
    assert!(matches!(
        outcome,
        Err(LoadError::Malformed(MalformedRecordError::InvalidIndex))
    ));
}

#[test]
fn render_pads_below_ten() {
    let log = Log::load(b"index,message\n1,feed the cat\n12,call home\n").unwrap();
    assert!(log.is_indexed());
    assert_eq!(log.render(), vec!["01 | feed the cat".to_string(), "12 | call home".to_string()]);
}
