//! Turning a short date expression into a calendar date, relative to today.

use crate::date::{can_go_back, days_earlier, is_days_before, parse_date, parsed_date, today, Date};
use crate::text::{chars_of, count_of, digits, parse_count, push_chars, push_digits, push_signed, signed_digits};
use vstd::prelude::*;

verus! {

/// A value read from a command-line argument.
#[derive(Clone, Debug)]
pub struct Parsable<T>(pub T);

/// Why a date expression names no date.
#[derive(Clone, Copy, Debug, PartialEq, Eq, Structural)]
pub enum InvalidDate {
    /// A run of `y` is followed by other characters.
    ExtraAfterMarker,
    /// What follows a leading `-` is not a day count.
    BadDayCount,
    /// The day lies before the earliest date that can be held.
    BeforeEarliest,
    /// More than two `-` separators.
    TooManySeparators,
    /// The text does not read as year, month and day.
    NotADate,
}

pub open spec fn is_marker(c: char) -> bool {
    c == 'y' || c == 'Y'
}

/// How many `y` or `Y` the text starts with.
pub open spec fn leading_markers(s: Seq<char>) -> nat
    decreases s.len(),
{
    if s.len() > 0 && is_marker(s[0]) {
        1 + leading_markers(s.drop_first())
    } else {
        0
    }
}

/// How many `-` the text holds.
pub open spec fn dash_count(s: Seq<char>) -> nat
    decreases s.len(),
{
    if s.len() == 0 {
        0
    } else {
        dash_count(s.drop_last()) + if s.last() == '-' { 1nat } else { 0nat }
    }
}

/// The text handed to the calendar parser: the day alone gets today's year
/// and month in front, month and day get today's year.
pub open spec fn date_query(s: Seq<char>, today: Date) -> Seq<char> {
    if dash_count(s) == 0 {
        signed_digits(today.year as int) + seq!['-'] + digits(today.month as nat) + seq!['-'] + s
    } else if dash_count(s) == 1 {
        signed_digits(today.year as int) + seq!['-'] + s
    } else {
        s
    }
}

/// `r` is the day `n` days before `today`, or the error when there is none.
pub open spec fn goes_back(today: Date, n: int, r: Result<Date, InvalidDate>) -> bool {
    if can_go_back(today, n) {
        r is Ok && is_days_before(r->Ok_0, today, n)
    } else {
        r == Err::<Date, InvalidDate>(InvalidDate::BeforeEarliest)
    }
}

/// What the expression `s` resolves to, given today's date.
pub open spec fn resolves(s: Seq<char>, today: Date, r: Result<Date, InvalidDate>) -> bool {
    if s.len() == 0 {
        r == Ok::<Date, InvalidDate>(today)
    } else if leading_markers(s) > 0 {
        if leading_markers(s) < s.len() {
            r == Err::<Date, InvalidDate>(InvalidDate::ExtraAfterMarker)
        } else {
            goes_back(today, s.len() as int, r)
        }
    } else if s[0] == '-' {
        match count_of(s.drop_first()) {
            None => r == Err::<Date, InvalidDate>(InvalidDate::BadDayCount),
            Some(n) => goes_back(today, n as int, r),
        }
    } else if dash_count(s) > 2 {
        r == Err::<Date, InvalidDate>(InvalidDate::TooManySeparators)
    } else {
        match parsed_date(date_query(s, today)) {
            Some(d) => r == Ok::<Date, InvalidDate>(d),
            None => r == Err::<Date, InvalidDate>(InvalidDate::NotADate),
        }
    }
}

fn count_markers(s: &Vec<char>) -> (r: usize)
    ensures
        r == leading_markers(s@),
        r <= s@.len(),
{
    let mut i: usize = 0;
    assert(s@.skip(0) =~= s@);
    while i < s.len() && (s[i] == 'y' || s[i] == 'Y')
        invariant
            i <= s.len(),
            leading_markers(s@) == i + leading_markers(s@.skip(i as int)),
        decreases s.len() - i,
    {
        assert(s@.skip(i as int).drop_first() =~= s@.skip(i + 1));
        i = i + 1;
    }
    i
}

fn count_dashes(s: &Vec<char>) -> (r: usize)
    ensures
        r == dash_count(s@),
{
    let mut n: usize = 0;
    let mut i: usize = 0;
    while i < s.len()
        invariant
            i <= s.len(),
            n <= i,
            n == dash_count(s@.take(i as int)),
        decreases s.len() - i,
    {
        assert(s@.take(i + 1).drop_last() =~= s@.take(i as int));
        if s[i] == '-' {
            n = n + 1;
        }
        i = i + 1;
    }
    assert(s@.take(i as int) =~= s@);
    n
}

fn go_back(today: Date, n: u64) -> (r: Result<Date, InvalidDate>)
    requires
        today.wf(),
    ensures
        goes_back(today, n as int, r),
{
    match days_earlier(today, n) {
        Some(d) => Ok(d),
        None => Err(InvalidDate::BeforeEarliest),
    }
}

/// Resolves a date expression against `today`:
/// empty is today; `y`, `yy`, ... go back one day per `y`; `-n` goes back
/// `n` days; `dd`, `mm-dd` and `yyyy-mm-dd` take what is missing from today.
pub fn resolve_date(expr: &str, today: Date) -> (r: Result<Date, InvalidDate>)
    requires
        today.wf(),
    ensures
        resolves(expr@, today, r),
{
    let s = chars_of(expr);
    if s.len() == 0 {
        return Ok(today);
    }
    let markers = count_markers(&s);
    if markers > 0 {
        if markers < s.len() {
            return Err(InvalidDate::ExtraAfterMarker);
        }
        return go_back(today, markers as u64);
    }
    if s[0] == '-' {
        let mut rest: Vec<char> = Vec::new();
        let mut i: usize = 1;
        while i < s.len()
            invariant
                1 <= i <= s.len(),
                rest@ == s@.subrange(1, i as int),
            decreases s.len() - i,
        {
            rest.push(s[i]);
            i = i + 1;
            assert(rest@ =~= s@.subrange(1, i as int));
        }
        assert(rest@ =~= s@.drop_first());
        return match parse_count(&rest) {
            None => Err(InvalidDate::BadDayCount),
            Some(n) => go_back(today, n),
        };
    }
    let dashes = count_dashes(&s);
    if dashes > 2 {
        return Err(InvalidDate::TooManySeparators);
    }
    let mut q = String::new();
    if dashes < 2 {
        push_signed(&mut q, today.year);
        push_chars(&mut q, &vec!['-']);
        if dashes == 0 {
            push_digits(&mut q, today.month as u64);
            push_chars(&mut q, &vec!['-']);
        }
    }
    push_chars(&mut q, &s);
    assert(q@ =~= date_query(expr@, today));
    match parse_date(q.as_str()) {
        Some(d) => Ok(d),
        None => Err(InvalidDate::NotADate),
    }
}

impl Parsable<Date> {
    /// Resolves a date expression against `today`; see `resolve_date`.
    pub fn resolve(expr: &str, today: Date) -> (r: Result<Parsable<Date>, InvalidDate>)
        requires
            today.wf(),
        ensures
            resolves(
                expr@,
                today,
                match r {
                    Ok(p) => Ok(p.0),
                    Err(e) => Err(e),
                },
            ),
    {
        match resolve_date(expr, today) {
            Ok(d) => Ok(Parsable(d)),
            Err(e) => Err(e),
        }
    }
}

impl std::str::FromStr for Parsable<Date> {
    type Err = InvalidDate;

    /// Resolves a date expression against the local clock's date.
    fn from_str(s: &str) -> Result<Parsable<Date>, InvalidDate> {
        Parsable::resolve(s, today())
    }
}

} // verus!
