use timetrack::codec::{Entry, RecordError};
use timetrack::date::{Date, Timestamp};

fn ts(year: i32, month: u32, day: u32, hour: u32, minute: u32, second: u32, nanosecond: u32) -> Timestamp {
    Timestamp { date: Date { year, month, day }, hour, minute, second, nanosecond }
}

fn entry(t: Timestamp, message: &str, long: Option<&str>) -> Entry {
    Entry { timestamp: t, message: message.to_string(), long: long.map(|l| l.to_string()) }
}

fn round_trip(e: &Entry) -> Entry {
    let line = e.to_csv();
    assert!(line.ends_with('\n'));
    Entry::from_line(&line[..line.len() - 1]).unwrap()
}

#[test]
fn quote_and_newline_round_trip() {
    let e = entry(ts(2025, 7, 24, 9, 30, 0, 0), "say \"hi\"", Some("first\nsecond"));
    let line = e.to_csv();
    assert_eq!(line, "\"2025-07-24 09:30:00\",\"say \\\"hi\\\"\",\"first<NEWLINE>second\"\n");
    assert_eq!(round_trip(&e), e);
}

#[test]
fn encodes_the_exact_line() {
    let e = entry(ts(2025, 1, 2, 3, 4, 5, 0), "start", None);
    assert_eq!(e.to_csv(), "\"2025-01-02 03:04:05\",\"start\",\"\"\n");
    let e = entry(ts(2025, 1, 2, 3, 4, 5, 0), "a\nb", Some("x\r\ny\"z"));
    assert_eq!(e.to_csv(), "\"2025-01-02 03:04:05\",\"a<NEWLINE>b\",\"x<NEWLINE>y\\\"z\"\n");
}

#[test]
fn writes_fractions_and_years_as_chrono_does() {
    let e = entry(ts(2025, 7, 24, 9, 30, 1, 500_000_000), "m", None);
    assert!(e.to_csv().starts_with("\"2025-07-24 09:30:01.500\""));
    let e = entry(ts(2025, 7, 24, 9, 30, 1, 1_500), "m", None);
    assert!(e.to_csv().starts_with("\"2025-07-24 09:30:01.000001500\""));
    let e = entry(ts(2025, 7, 24, 9, 30, 1, 7_000), "m", None);
    assert!(e.to_csv().starts_with("\"2025-07-24 09:30:01.000007\""));
    let e = entry(ts(12345, 6, 7, 0, 0, 59, 1_250_000_000), "m", None);
    assert!(e.to_csv().starts_with("\"+12345-06-07 00:00:60.250\""));
    let e = entry(ts(-1, 6, 7, 0, 0, 0, 0), "m", None);
    assert!(e.to_csv().starts_with("\"-0001-06-07 00:00:00\""));
}

#[test]
fn round_trips_awkward_entries() {
    let cases = [
        entry(ts(2025, 7, 24, 23, 59, 59, 123_456_789), "a\\\"b", Some("\\")),
        entry(ts(12345, 12, 31, 0, 0, 59, 1_000_000_000), "\",\" inside", Some("ends with quote\"")),
        entry(ts(-262143, 1, 1, 0, 0, 0, 0), "<NEWLINE", Some("\n\n")),
        entry(ts(2024, 2, 29, 12, 0, 0, 0), "", None),
        entry(ts(2024, 2, 29, 12, 0, 0, 0), "ends with backslash\\", Some("\"")),
    ];
    for e in cases.iter() {
        assert_eq!(&round_trip(e), e);
    }
}

#[test]
fn empty_long_reads_back_as_none() {
    let e = entry(ts(2025, 7, 24, 9, 30, 0, 0), "m", Some(""));
    assert_eq!(round_trip(&e), entry(ts(2025, 7, 24, 9, 30, 0, 0), "m", None));
}

#[test]
fn crlf_in_long_reads_back_as_newline() {
    let e = entry(ts(2025, 7, 24, 9, 30, 0, 0), "m", Some("a\r\nb"));
    assert_eq!(round_trip(&e), entry(ts(2025, 7, 24, 9, 30, 0, 0), "m", Some("a\nb")));
}

#[test]
fn message_ending_in_quote_comma_round_trips() {
    let e = entry(ts(2025, 7, 24, 10, 0, 0, 0), "x\",", Some("y"));
    assert_eq!(e.to_csv(), "\"2025-07-24 10:00:00\",\"x\\\",\",\"y\"\n");
    assert_eq!(round_trip(&e), e);
    let e = entry(ts(2025, 7, 24, 10, 0, 0, 0), "\",\",", None);
    assert_eq!(round_trip(&e), e);
}

#[test]
fn crlf_in_message_is_one_marker() {
    let e = entry(ts(2025, 7, 24, 10, 0, 0, 0), "a\r\nb", None);
    assert_eq!(e.to_csv(), "\"2025-07-24 10:00:00\",\"a<NEWLINE>b\",\"\"\n");
    assert_eq!(round_trip(&e), entry(ts(2025, 7, 24, 10, 0, 0, 0), "a\nb", None));
}

#[test]
fn decode_errors() {
    assert_eq!(Entry::from_line("x"), Err(RecordError::Unframed));
    assert_eq!(Entry::from_line("\""), Err(RecordError::Unframed));
    assert_eq!(Entry::from_line("\"2025-07-24 09:30:00\",\"m"), Err(RecordError::Unframed));
    assert_eq!(Entry::from_line("\"2025-07-24 09:30:00\""), Err(RecordError::MissingMessage));
    assert_eq!(Entry::from_line("\"yesterday\",\"m\",\"\""), Err(RecordError::BadTimestamp));
    assert_eq!(Entry::from_line("\"2025-02-30 09:30:00\",\"m\",\"\""), Err(RecordError::BadTimestamp));
}

#[test]
fn decodes_lines_without_long_field() {
    let e = Entry::from_line("\"2025-07-24 09:30:00\",\"m\"").unwrap();
    assert_eq!(e, entry(ts(2025, 7, 24, 9, 30, 0, 0), "m", None));
    let e = Entry::from_line("\"2025-07-24 09:30:00\",\"m\",\"l\",\"extra\"").unwrap();
    assert_eq!(e, entry(ts(2025, 7, 24, 9, 30, 0, 0), "m\",\"l", Some("extra")));
}

#[test]
fn clock_text() {
    let e = entry(ts(2025, 7, 24, 9, 5, 59, 0), "m", None);
    assert_eq!(e.timestamp_formatted(), "09:05");
}

#[test]
fn lines_parse_as_entries() {
    let e: Entry = "\"2025-07-24 09:30:00\",\"m\",\"l\"".parse().unwrap();
    assert_eq!(e, entry(ts(2025, 7, 24, 9, 30, 0, 0), "m", Some("l")));
    assert_eq!("nope".parse::<Entry>(), Err(RecordError::Unframed));
}
