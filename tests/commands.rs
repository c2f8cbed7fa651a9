use timetrack::codec::Entry;
use timetrack::commands::{entry_time, join_message, sort_entries, CommandError, Delete, Edit, Insert, PageKey, PageStep, View};
use timetrack::config::{config_format, default_break_regex, default_end_regex, default_start_regex, Config, ConfigFormat, MessageKind};
use timetrack::date::{Date, Timestamp};
use timetrack::migrations::{migrate, MigrationStep, PromtYesNoRemember};

fn at(hour: u32, minute: u32) -> Timestamp {
    Timestamp::at(Date { year: 2025, month: 7, day: 24 }, hour, minute)
}

fn entry(t: Timestamp, message: &str) -> Entry {
    Entry { timestamp: t, message: message.to_string(), long: None }
}

#[test]
fn sorting_is_by_time_and_stable() {
    let es = vec![entry(at(10, 0), "c"), entry(at(9, 0), "a"), entry(at(10, 0), "d"), entry(at(9, 30), "b")];
    let sorted = sort_entries(&es);
    let names: Vec<&str> = sorted.iter().map(|e| e.message.as_str()).collect();
    assert_eq!(names, vec!["a", "b", "c", "d"]);
}

#[test]
fn insert_takes_the_next_later_slot() {
    let es = vec![entry(at(12, 0), "lunch"), entry(at(9, 0), "start"), entry(at(17, 0), "end")];
    let r = Insert::insert_into(&es, at(10, 0), "meeting".to_string(), None).unwrap();
    assert_eq!(
        r,
        vec![entry(at(9, 0), "start"), entry(at(10, 0), "lunch"), entry(at(17, 0), "end"), entry(at(12, 0), "meeting")]
    );
}

#[test]
fn insert_without_later_entry_fails() {
    let es = vec![entry(at(9, 0), "start")];
    assert_eq!(Insert::insert_into(&es, at(9, 0), "x".to_string(), None), Err(CommandError::NoLaterEntry));
    assert_eq!(Insert::insert_into(&vec![], at(9, 0), "x".to_string(), None), Err(CommandError::NoLaterEntry));
}

#[test]
fn edit_replaces_equal_entries() {
    let es = vec![entry(at(9, 0), "a"), entry(at(10, 0), "b")];
    let new = entry(at(10, 15), "b2");
    let r = Edit::replace(&es, &es[1], &new);
    assert_eq!(r, vec![entry(at(9, 0), "a"), new]);
}

#[test]
fn delete_keeps_the_unselected() {
    let es = vec![entry(at(9, 0), "a"), entry(at(10, 0), "b"), entry(at(11, 0), "c")];
    let r = Delete::remaining(&es, &vec![entry(at(10, 0), "b")]);
    assert_eq!(r, vec![entry(at(9, 0), "a"), entry(at(11, 0), "c")]);
}

#[test]
fn messages_are_joined_by_spaces() {
    assert_eq!(join_message(&vec!["hello".to_string(), "world".to_string()]), Ok("hello world".to_string()));
    assert_eq!(join_message(&vec![]), Err(CommandError::EmptyMessage));
}

#[test]
fn times_parse_as_hour_and_minute() {
    let day = Date { year: 2025, month: 7, day: 24 };
    assert_eq!(Timestamp::on_day_at(day, "09:45"), Some(at(9, 45)));
    assert_eq!(Timestamp::on_day_at(day, "24:00"), None);
    assert_eq!(Timestamp::on_day_at(day, "9.45"), None);
    assert_eq!(at(9, 5).clock_text(), "09:05");
}

#[test]
fn default_patterns() {
    assert_eq!(default_break_regex(), "(?i)^(?:break|pause)$");
    assert_eq!(default_start_regex(), "(?i)^start$");
    assert_eq!(default_end_regex(), "(?i)^end$");
    assert_eq!(entry(at(9, 0), "Pause").message_matches(&default_break_regex()), Some(true));
    assert_eq!(entry(at(9, 0), "pauses").message_matches(&default_break_regex()), Some(false));
    assert_eq!(entry(at(9, 0), "x").message_matches("("), None);
}

#[test]
fn migration_steps() {
    assert_eq!(migrate(false, true, false, None), MigrationStep::Done);
    assert_eq!(migrate(true, false, false, None), MigrationStep::Done);
    assert_eq!(migrate(true, true, true, Some(PromtYesNoRemember::Yes)), MigrationStep::Done);
    assert_eq!(migrate(true, true, false, None), MigrationStep::Ask);
    assert_eq!(migrate(true, true, false, Some(PromtYesNoRemember::Yes)), MigrationStep::Move);
    assert_eq!(migrate(true, true, false, Some(PromtYesNoRemember::No)), MigrationStep::Keep);
    assert_eq!(migrate(true, true, false, Some(PromtYesNoRemember::NoRemember)), MigrationStep::Remember);
    assert_eq!(PromtYesNoRemember::NoRemember.label(), "No (don't ask again)");
}

#[test]
fn day_totals_split_work_and_pause() {
    let es = vec![entry(at(9, 0), "start"), entry(at(12, 0), "pause"), entry(at(12, 30), "back"), entry(at(17, 0), "end")];
    let t = View::totals(&es, &default_break_regex()).unwrap();
    let hour: i64 = 3_600_000_000_000;
    assert_eq!(t.gaps, vec![3 * hour, hour / 2, 9 * hour / 2]);
    assert_eq!(t.pause, 3 * hour as i128);
    assert_eq!(t.work, 5 * hour as i128);
    assert!(View::totals(&es, "(").is_none());
    let one = View::totals(&vec![entry(at(9, 0), "start")], "(").unwrap();
    assert!(one.gaps.is_empty() && one.work == 0 && one.pause == 0);
}

fn config() -> Config {
    Config {
        storage_dir: "/tmp/tracks".to_string(),
        start_regex: default_start_regex(),
        break_regex: default_break_regex(),
        end_regex: default_end_regex(),
        round_steps: None,
    }
}

#[test]
fn messages_are_classified() {
    let c = config();
    assert_eq!(entry(at(9, 0), "Start").kind(&c), Some(MessageKind::Start));
    assert_eq!(entry(at(9, 0), "break").kind(&c), Some(MessageKind::Break));
    assert_eq!(entry(at(9, 0), "END").kind(&c), Some(MessageKind::End));
    assert_eq!(entry(at(9, 0), "coding").kind(&c), Some(MessageKind::Other));
    let mut bad = config();
    bad.end_regex = "(".to_string();
    assert_eq!(entry(at(9, 0), "start").kind(&bad), Some(MessageKind::Start));
    assert_eq!(entry(at(9, 0), "coding").kind(&bad), None);
}

#[test]
fn config_formats_by_extension() {
    assert_eq!(config_format("yml"), Some(ConfigFormat::Yaml));
    assert_eq!(config_format("yaml"), Some(ConfigFormat::Yaml));
    assert_eq!(config_format("toml"), Some(ConfigFormat::Toml));
    assert_eq!(config_format("json"), Some(ConfigFormat::Json));
    assert_eq!(config_format("ini"), None);
    assert_eq!(config_format(""), None);
}

#[test]
fn paging_moves_by_days_and_weeks() {
    let d = Date { year: 2024, month: 12, day: 30 };
    assert_eq!(View::page(d, PageKey::NextDay), PageStep::Show(Date { year: 2024, month: 12, day: 31 }));
    assert_eq!(View::page(d, PageKey::NextWeek), PageStep::Show(Date { year: 2025, month: 1, day: 6 }));
    assert_eq!(View::page(d, PageKey::PreviousDay), PageStep::Show(Date { year: 2024, month: 12, day: 29 }));
    assert_eq!(View::page(d, PageKey::PreviousWeek), PageStep::Show(Date { year: 2024, month: 12, day: 23 }));
    assert_eq!(View::page(d, PageKey::Other), PageStep::Show(d));
    assert_eq!(View::page(d, PageKey::Quit), PageStep::Quit);
    let last = Date { year: 262142, month: 12, day: 31 };
    assert_eq!(View::page(last, PageKey::NextDay), PageStep::Show(last));
    let first = Date { year: -262143, month: 1, day: 1 };
    assert_eq!(View::page(first, PageKey::PreviousWeek), PageStep::Show(first));
}

#[test]
fn validity_checks() {
    assert!(Date { year: 2024, month: 2, day: 29 }.is_valid());
    assert!(!Date { year: 2023, month: 2, day: 29 }.is_valid());
    assert!(!Date { year: 1900, month: 2, day: 29 }.is_valid());
    assert!(Date { year: 2000, month: 2, day: 29 }.is_valid());
    assert!(!Date { year: 262143, month: 1, day: 1 }.is_valid());
    assert!(!Timestamp::at(Date { year: 2024, month: 1, day: 1 }, 24, 0).is_valid());
    let leap = Timestamp { date: Date { year: 2024, month: 1, day: 1 }, hour: 23, minute: 59, second: 59, nanosecond: 1_000_000_000 };
    assert!(leap.is_valid());
    assert!(!Timestamp { second: 58, ..leap }.is_valid());
}

#[test]
fn new_entries_take_the_given_or_current_time() {
    let day = Date { year: 2025, month: 7, day: 24 };
    let now = Timestamp { date: day, hour: 9, minute: 7, second: 0, nanosecond: 5 };
    assert_eq!(entry_time(day, Some("10:30"), now, None), Ok(at(10, 30)));
    assert_eq!(entry_time(day, None, now, None), Ok(now));
    assert_eq!(entry_time(day, Some("9.45"), now, None), Err(CommandError::BadTime));
    let quarter: i64 = 15 * 60 * 1_000_000_000;
    assert_eq!(entry_time(day, None, now, Some(quarter)), Ok(at(9, 0)));
    let later = Timestamp { minute: 8, ..now };
    assert_eq!(entry_time(day, None, later, Some(quarter)), Ok(at(9, 15)));
    assert_eq!(entry_time(day, None, now, Some(0)), Err(CommandError::CannotRound));
    assert_eq!(entry_time(day, Some("10:30"), now, Some(quarter)), Ok(at(10, 30)));
}
