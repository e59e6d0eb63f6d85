use std::cmp::Ordering;
use std::str::FromStr;
use td::entry::precedes;
use td::LogEntry;

#[test]
fn from_message_has_no_index() {
    let entry = LogEntry::from_message("buy milk".to_string());
    assert_eq!(entry.index, None);
    assert_eq!(entry.message, "buy milk");
}

#[test]
fn from_index_has_an_empty_message() {
    let entry = LogEntry::from_index(4);
    assert_eq!(entry.index, Some(4));
    assert_eq!(entry.message, "");
}

#[test]
fn from_str_takes_the_text_as_message() {
    let entry = LogEntry::from_str("12").expect("reading an entry never fails");
    assert_eq!(entry.index, None);
    assert_eq!(entry.message, "12");
}

#[test]
fn clone_keeps_both_fields() {
    let entry = LogEntry { index: Some(9), message: "water the plants".to_string() };
    let copy = entry.clone();
    assert_eq!(copy.index, Some(9));
    assert_eq!(copy.message, "water the plants");
}

#[test]
fn entries_are_equal_by_index() {
    let a = LogEntry { index: Some(3), message: "a".to_string() };
    let b = LogEntry { index: Some(3), message: "b".to_string() };
    let c = LogEntry { index: Some(4), message: "a".to_string() };
    assert!(a == b);
    assert!(a != c);
    assert!(LogEntry::from_message("x".to_string()) == LogEntry::from_message("y".to_string()));
    assert!(LogEntry::from_message("x".to_string()) != LogEntry::from_index(0));
}

#[test]
fn entries_are_ordered_by_index() {
    let none = LogEntry::from_message("x".to_string());
    let low = LogEntry { index: Some(-5), message: "z".to_string() };
    let two = LogEntry { index: Some(2), message: "b".to_string() };
    let ten = LogEntry { index: Some(10), message: "a".to_string() };
    assert!(two < ten);
    assert!(ten > two);
    assert!(none < low);
    assert!(low < two);
    assert_eq!(two.partial_cmp(&ten), Some(Ordering::Less));
    assert_eq!(ten.partial_cmp(&two), Some(Ordering::Greater));
    assert_eq!(two.partial_cmp(&LogEntry::from_index(2)), Some(Ordering::Equal));
    assert_eq!(none.partial_cmp(&LogEntry::from_message("y".to_string())), Some(Ordering::Equal));
}

#[test]
fn precedes_orders_as_options_of_numbers_do() {
    let indices = [None, Some(i8::MIN), Some(-1), Some(0), Some(1), Some(9), Some(10), Some(i8::MAX)];
    for a in indices {
        for b in indices {
            assert_eq!(precedes(a, b), a < b);
        }
    }
}

#[test]
fn line_pads_one_digit() {
    let entry = LogEntry { index: Some(1), message: "buy milk".to_string() };
    assert_eq!(entry.line(), "01 | buy milk");
    assert_eq!(LogEntry { index: Some(9), message: "x".to_string() }.line(), "09 | x");
    assert_eq!(LogEntry { index: Some(0), message: "x".to_string() }.line(), "00 | x");
}

#[test]
fn line_does_not_pad_from_ten_on() {
    assert_eq!(LogEntry { index: Some(10), message: "x".to_string() }.line(), "10 | x");
    assert_eq!(LogEntry { index: Some(12), message: "call home".to_string() }.line(), "12 | call home");
    assert_eq!(LogEntry { index: Some(100), message: "x".to_string() }.line(), "100 | x");
    assert_eq!(LogEntry { index: Some(127), message: "".to_string() }.line(), "127 | ");
}

#[test]
fn line_pads_whatever_is_below_ten() {
    assert_eq!(LogEntry::from_index(-5).line(), "0-5 | ");
}

#[test]
fn line_keeps_the_message_as_it_is() {
    let entry = LogEntry { index: Some(3), message: "a | b, \"c\" é".to_string() };
    assert_eq!(entry.line(), "03 | a | b, \"c\" é");
}
