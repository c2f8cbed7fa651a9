use chrono::{Datelike, Duration, Local, NaiveDate};
use timetrack::date::Date;
use timetrack::resolve::{resolve_date, InvalidDate, Parsable};

fn from_naive(d: NaiveDate) -> Date {
    Date { year: d.year(), month: d.month(), day: d.day() }
}

fn ymd(year: i32, month: u32, day: u32) -> Date {
    Date { year, month, day }
}

#[test]
fn parse_date() {
    fn get_date<S: AsRef<str>>(date: S) -> Date {
        from_naive(NaiveDate::parse_from_str(date.as_ref(), "%Y-%m-%d").unwrap())
    }

    fn get_date_parts(date: NaiveDate) -> (u32, u32, u32) {
        let (_, year) = date.year_ce();
        let month = date.month0() + 1;
        let day = date.day0() + 1;
        (year, month, day)
    }

    let (year, month, _) = get_date_parts(Local::now().date_naive());
    assert_eq!(get_date("2025-07-24"), "2025-07-24".parse::<Parsable<Date>>().unwrap().0);
    assert_eq!(get_date(format!("{year}-07-24",)), "07-24".parse::<Parsable<Date>>().unwrap().0);
    assert_eq!(get_date(format!("{year}-{month}-24",)), "24".parse::<Parsable<Date>>().unwrap().0);

    assert_eq!(
        from_naive((Local::now() - Duration::days(1)).date_naive()),
        "-1".parse::<Parsable<Date>>().unwrap().0
    );
    assert_eq!(
        from_naive((Local::now() - Duration::days(2)).date_naive()),
        "-2".parse::<Parsable<Date>>().unwrap().0
    );
    assert_eq!(
        from_naive((Local::now() - Duration::days(69)).date_naive()),
        "-69".parse::<Parsable<Date>>().unwrap().0
    );

    assert_eq!(
        from_naive((Local::now() - Duration::days(1)).date_naive()),
        "y".parse::<Parsable<Date>>().unwrap().0
    );
    assert_eq!(
        from_naive((Local::now() - Duration::days(2)).date_naive()),
        "yY".parse::<Parsable<Date>>().unwrap().0
    );
    assert_eq!(
        from_naive((Local::now() - Duration::days(6)).date_naive()),
        "YYYYYY".parse::<Parsable<Date>>().unwrap().0
    );
}

#[test]
fn resolves_the_documented_forms() {
    let today = ymd(2025, 7, 24);
    assert_eq!(resolve_date("", today), Ok(ymd(2025, 7, 24)));
    assert_eq!(resolve_date("24", today), Ok(ymd(2025, 7, 24)));
    assert_eq!(resolve_date("07-24", today), Ok(ymd(2025, 7, 24)));
    assert_eq!(resolve_date("2025-07-24", today), Ok(ymd(2025, 7, 24)));
    assert_eq!(resolve_date("-2", today), Ok(ymd(2025, 7, 22)));
    assert_eq!(resolve_date("yyy", today), Ok(ymd(2025, 7, 21)));
    assert_eq!(resolve_date("07-24-2025", today), Err(InvalidDate::NotADate));
    assert_eq!(resolve_date("07-24-20-25", today), Err(InvalidDate::TooManySeparators));
}

#[test]
fn resolves_across_month_and_year_ends() {
    let today = ymd(2024, 3, 1);
    assert_eq!(resolve_date("y", today), Ok(ymd(2024, 2, 29)));
    assert_eq!(resolve_date("-61", today), Ok(ymd(2023, 12, 31)));
    assert_eq!(resolve_date("+5", today), Err(InvalidDate::NotADate));
    assert_eq!(resolve_date("-+5", today), Ok(ymd(2024, 2, 25)));
    assert_eq!(resolve_date("-0", today), Ok(ymd(2024, 3, 1)));
    assert_eq!(resolve_date("12-31", today), Ok(ymd(2024, 12, 31)));
    assert_eq!(resolve_date("7", today), Ok(ymd(2024, 3, 7)));
}

#[test]
fn rejects_malformed_expressions() {
    let today = ymd(2025, 7, 24);
    assert_eq!(resolve_date("yes", today), Err(InvalidDate::ExtraAfterMarker));
    assert_eq!(resolve_date("-", today), Err(InvalidDate::BadDayCount));
    assert_eq!(resolve_date("-x", today), Err(InvalidDate::BadDayCount));
    assert_eq!(resolve_date("--5", today), Err(InvalidDate::BadDayCount));
    assert_eq!(resolve_date("-99999999999999999999", today), Err(InvalidDate::BadDayCount));
    assert_eq!(resolve_date("-9999999999", today), Err(InvalidDate::BeforeEarliest));
    assert_eq!(resolve_date("02-30", today), Err(InvalidDate::NotADate));
    assert_eq!(resolve_date("32", today), Err(InvalidDate::NotADate));
    assert_eq!(resolve_date("a-b-c-d", today), Err(InvalidDate::TooManySeparators));
}

#[test]
fn resolve_wraps_the_date() {
    let today = ymd(2025, 7, 24);
    assert_eq!(Parsable::resolve("y", today).unwrap().0, ymd(2025, 7, 23));
    assert!(Parsable::resolve("1-2-3-4", today).is_err());
}
