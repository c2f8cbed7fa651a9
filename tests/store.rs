use timetrack::codec::{Entry, RecordError};
use timetrack::date::{Date, Timestamp};
use timetrack::store::{MalformedRecord, Store};

fn at(hour: u32, minute: u32) -> Timestamp {
    Timestamp { date: Date { year: 2025, month: 7, day: 24 }, hour, minute, second: 0, nanosecond: 0 }
}

fn entry(t: Timestamp, message: &str, long: Option<&str>) -> Entry {
    Entry { timestamp: t, message: message.to_string(), long: long.map(|l| l.to_string()) }
}

fn store() -> Store {
    Store::new("/tmp/tracks".to_string())
}

#[test]
fn list_of_missing_file_is_empty() {
    assert_eq!(store().list(None), Ok(vec![]));
}

#[test]
fn append_to_empty_then_list() {
    let s = store();
    let e = entry(at(9, 0), "start", Some("notes"));
    let line = s.push_entry(&e);
    assert_eq!(s.list(Some(&line)), Ok(vec![e.clone()]));
    let mut file = String::new();
    file.push_str(&line);
    assert_eq!(s.list(Some(&file)).unwrap().last(), Some(&e));
}

#[test]
fn append_keeps_earlier_entries() {
    let s = store();
    let a = entry(at(9, 0), "start", None);
    let b = entry(at(8, 0), "late note", None);
    let mut file = s.push_entry(&a);
    file.push_str(&s.push_entry(&b));
    assert_eq!(s.list(Some(&file)), Ok(vec![a, b]));
}

#[test]
fn set_empty_then_list() {
    let s = store();
    let file = s.set(&vec![]);
    assert_eq!(file, "");
    assert_eq!(s.list(Some(&file)), Ok(vec![]));
}

#[test]
fn set_keeps_the_given_order() {
    let s = store();
    let es = vec![entry(at(10, 0), "b", None), entry(at(9, 0), "a", Some("x\ny"))];
    let file = s.set(&es);
    assert_eq!(s.list(Some(&file)), Ok(es));
}

#[test]
fn blank_lines_are_skipped() {
    let s = store();
    let file = "\n\"2025-07-24 09:00:00\",\"a\",\"\"\n\n";
    assert_eq!(s.list(Some(file)), Ok(vec![entry(at(9, 0), "a", None)]));
}

#[test]
fn a_bad_line_fails_the_whole_day() {
    let s = store();
    let file = "\"2025-07-24 09:00:00\",\"a\",\"\"\n\ngarbage\n";
    assert_eq!(
        s.list(Some(file)),
        Err(MalformedRecord { line: 3, reason: RecordError::Unframed })
    );
}

#[test]
fn day_file_names() {
    let s = store();
    assert_eq!(s.track_file_name(Date { year: 2025, month: 7, day: 4 }), "2025-07-04.log");
    assert_eq!(s.base_dir(), "/tmp/tracks");
}

#[test]
fn quote_comma_messages_survive_the_store() {
    let s = store();
    let a = entry(at(9, 0), "a\",", Some("b"));
    let b = entry(at(10, 0), "\",", None);
    let mut file = s.push_entry(&a);
    assert_eq!(s.list(Some(&file)), Ok(vec![a.clone()]));
    file.push_str(&s.push_entry(&b));
    assert_eq!(s.list(Some(&file)), Ok(vec![a.clone(), b.clone()]));
    let set = s.set(&vec![b.clone(), a.clone()]);
    assert_eq!(s.list(Some(&set)), Ok(vec![b, a]));
}
