//! Calendar dates and timestamps held as plain fields, the text forms the
//! day files use for them, and the calls into chrono that compute on them.

use chrono::Datelike;
use chrono::DurationRound;
use chrono::Timelike;
use crate::text::{all_digits, digits, is_digit, lemma_digits_len, lemma_padded, padded, value};
use vstd::prelude::*;

verus! {

/// The earliest year that a date can hold.
pub const MIN_YEAR: i32 = -262143;

/// The latest year that a date can hold.
pub const MAX_YEAR: i32 = 262142;

/// A day of the proleptic Gregorian calendar.
#[derive(Clone, Copy, Debug, PartialEq, Eq, Structural)]
pub struct Date {
    pub year: i32,
    pub month: u32,
    pub day: u32,
}

/// A date with a time of day, down to the nanosecond. As in chrono, a
/// nanosecond count of a billion or more marks a leap second, which only
/// second 59 may carry.
#[derive(Clone, Copy, Debug, PartialEq, Eq, Structural)]
pub struct Timestamp {
    pub date: Date,
    pub hour: u32,
    pub minute: u32,
    pub second: u32,
    pub nanosecond: u32,
}

pub open spec fn is_leap_year(y: int) -> bool {
    (y % 4 == 0 && y % 100 != 0) || y % 400 == 0
}

pub open spec fn days_in_month(y: int, m: int) -> int {
    if m == 2 {
        if is_leap_year(y) { 29 } else { 28 }
    } else if m == 4 || m == 6 || m == 9 || m == 11 {
        30
    } else {
        31
    }
}

/// Days in the months of year `y` that come before month `m`.
pub open spec fn days_before_month(y: int, m: int) -> int
    decreases m,
{
    if m <= 1 {
        0
    } else {
        days_before_month(y, m - 1) + days_in_month(y, m - 1)
    }
}

/// Days from January 1 of year 1 to January 1 of year `y`.
pub open spec fn days_before_year(y: int) -> int {
    let p = y - 1;
    365 * p + p / 4 - p / 100 + p / 400
}

/// The number of a day, counting January 1 of year 1 as day 1.
pub open spec fn day_number(d: Date) -> int {
    days_before_year(d.year as int) + days_before_month(d.year as int, d.month as int) + d.day
}

/// The date that lies `n` days before `d`.
pub open spec fn is_days_before(r: Date, d: Date, n: int) -> bool {
    r.wf() && day_number(r) == day_number(d) - n
}

/// A date `n` days before `d` can be held.
pub open spec fn can_go_back(d: Date, n: int) -> bool {
    day_number(d) - n >= day_number(Date::earliest())
}

impl Date {
    pub open spec fn wf(self) -> bool {
        &&& MIN_YEAR <= self.year <= MAX_YEAR
        &&& 1 <= self.month <= 12
        &&& 1 <= self.day <= days_in_month(self.year as int, self.month as int)
    }

    pub open spec fn earliest() -> Date {
        Date { year: MIN_YEAR, month: 1, day: 1 }
    }

    pub open spec fn latest() -> Date {
        Date { year: MAX_YEAR, month: 12, day: 31 }
    }
}

impl Date {
    /// Whether this is a day of the calendar, within the years a date can hold.
    pub fn is_valid(&self) -> (r: bool)
        ensures
            r == self.wf(),
    {
        if self.year < MIN_YEAR || self.year > MAX_YEAR || self.month < 1 || self.month > 12 || self.day < 1 {
            return false;
        }
        let y = self.year;
        let (a, b, c) = (y % 4 == 0, y % 100 == 0, y % 400 == 0);
        assert(a == ((y as int) % 4 == 0));
        assert(b == ((y as int) % 100 == 0));
        assert(c == ((y as int) % 400 == 0));
        let leap = (a && !b) || c;
        let m = self.month;
        let last: u32 = if m == 2 {
            if leap { 29 } else { 28 }
        } else if m == 4 || m == 6 || m == 9 || m == 11 {
            30
        } else {
            31
        };
        self.day <= last
    }
}

impl Timestamp {
    /// Whether the fields make a timestamp.
    pub fn is_valid(&self) -> (r: bool)
        ensures
            r == self.wf(),
    {
        self.date.is_valid() && self.hour < 24 && self.minute < 60 && self.second < 60
            && self.nanosecond < 2_000_000_000 && (self.nanosecond < 1_000_000_000 || self.second == 59)
    }

    pub open spec fn wf(self) -> bool {
        &&& self.date.wf()
        &&& self.hour < 24
        &&& self.minute < 60
        &&& self.second < 60
        &&& self.nanosecond < 2_000_000_000
        &&& self.nanosecond >= 1_000_000_000 ==> self.second == 59
    }
}

/// The year as four digits within 0..=9999, else with a sign.
pub open spec fn year_text(y: int) -> Seq<char> {
    if 0 <= y <= 9999 {
        padded(y as nat, 4)
    } else if y < 0 {
        seq!['-'] + padded((-y) as nat, 4)
    } else {
        seq!['+'] + padded(y as nat, 4)
    }
}

/// `YYYY-MM-DD`.
pub open spec fn date_text(d: Date) -> Seq<char> {
    year_text(d.year as int) + seq!['-'] + padded(d.month as nat, 2) + seq!['-'] + padded(
        d.day as nat,
        2,
    )
}

/// The fraction of a second: nothing when zero, else a dot and three, six
/// or nine digits, the fewest that hold it exactly.
pub open spec fn fraction_text(nano: nat) -> Seq<char> {
    if nano == 0 {
        seq![]
    } else if nano % 1_000_000 == 0 {
        seq!['.'] + padded(nano / 1_000_000, 3)
    } else if nano % 1_000 == 0 {
        seq!['.'] + padded(nano / 1_000, 6)
    } else {
        seq!['.'] + padded(nano, 9)
    }
}

/// The second as shown: a leap second shows as second 60.
pub open spec fn shown_second(t: Timestamp) -> nat {
    if t.nanosecond >= 1_000_000_000 { (t.second + 1) as nat } else { t.second as nat }
}

/// The nanoseconds as shown, a leap second's extra second taken out.
pub open spec fn shown_nano(t: Timestamp) -> nat {
    if t.nanosecond >= 1_000_000_000 {
        (t.nanosecond - 1_000_000_000) as nat
    } else {
        t.nanosecond as nat
    }
}

/// `HH:MM:SS` and the fraction.
pub open spec fn time_text(t: Timestamp) -> Seq<char> {
    padded(t.hour as nat, 2) + seq![':'] + padded(t.minute as nat, 2) + seq![':'] + padded(
        shown_second(t),
        2,
    ) + fraction_text(shown_nano(t))
}

/// `YYYY-MM-DD HH:MM:SS[.fff]`.
pub open spec fn timestamp_text(t: Timestamp) -> Seq<char> {
    date_text(t.date) + seq![' '] + time_text(t)
}

/// The characters that the text of a timestamp is made of.
pub open spec fn is_stamp_char(c: char) -> bool {
    is_digit(c) || c == '-' || c == '+' || c == ' ' || c == ':' || c == '.'
}

/// The text of a timestamp between year and fraction: `-MM-DD HH:MM:SS`.
pub open spec fn middle_text(t: Timestamp) -> Seq<char> {
    seq!['-'] + padded(t.date.month as nat, 2) + seq!['-'] + padded(t.date.day as nat, 2) + seq![' ']
        + padded(t.hour as nat, 2) + seq![':'] + padded(t.minute as nat, 2) + seq![':'] + padded(
        shown_second(t),
        2,
    )
}

proof fn lemma_two_digits(n: nat)
    requires
        n < 100,
    ensures
        padded(n, 2).len() == 2,
        all_digits(padded(n, 2)),
        value(padded(n, 2)) == n,
{
    lemma_digits_len(n);
    lemma_padded(n, 2);
}

proof fn lemma_middle_text(t: Timestamp)
    requires
        t.wf(),
    ensures
        middle_text(t).len() == 15,
        middle_text(t).subrange(1, 3) == padded(t.date.month as nat, 2),
        middle_text(t).subrange(4, 6) == padded(t.date.day as nat, 2),
        middle_text(t).subrange(7, 9) == padded(t.hour as nat, 2),
        middle_text(t).subrange(10, 12) == padded(t.minute as nat, 2),
        middle_text(t).subrange(13, 15) == padded(shown_second(t), 2),
        forall|i: int| 0 <= i < 15 ==> is_stamp_char(#[trigger] middle_text(t)[i]) && middle_text(t)[i] != '.',
{
    let m = padded(t.date.month as nat, 2);
    let d = padded(t.date.day as nat, 2);
    let h = padded(t.hour as nat, 2);
    let mi = padded(t.minute as nat, 2);
    let se = padded(shown_second(t), 2);
    lemma_two_digits(t.date.month as nat);
    lemma_two_digits(t.date.day as nat);
    lemma_two_digits(t.hour as nat);
    lemma_two_digits(t.minute as nat);
    lemma_two_digits(shown_second(t));
    let x = middle_text(t);
    assert(x =~= seq!['-', m[0], m[1], '-', d[0], d[1], ' ', h[0], h[1], ':', mi[0], mi[1], ':', se[0], se[1]]);
    assert(x.subrange(1, 3) =~= m);
    assert(x.subrange(4, 6) =~= d);
    assert(x.subrange(7, 9) =~= h);
    assert(x.subrange(10, 12) =~= mi);
    assert(x.subrange(13, 15) =~= se);
    assert(is_digit(m[0]) && is_digit(m[1]) && is_digit(d[0]) && is_digit(d[1]));
    assert(is_digit(h[0]) && is_digit(h[1]) && is_digit(mi[0]) && is_digit(mi[1]));
    assert(is_digit(se[0]) && is_digit(se[1]));
}

proof fn lemma_year_text(y: int)
    requires
        MIN_YEAR <= y <= MAX_YEAR,
    ensures
        year_text(y).len() >= 4,
        forall|i: int| 0 <= i < year_text(y).len() ==> is_stamp_char(#[trigger] year_text(y)[i]) && year_text(y)[i] != '.',
        0 <= y <= 9999 ==> is_digit(year_text(y)[0]) && value(year_text(y)) == y,
        y < 0 ==> year_text(y)[0] == '-' && value(year_text(y).drop_first()) == -y,
        y > 9999 ==> year_text(y)[0] == '+' && value(year_text(y).drop_first()) == y,
{
    let a: nat = if y < 0 { (-y) as nat } else { y as nat };
    lemma_padded(a, 4);
    let p = padded(a, 4);
    let yt = year_text(y);
    if 0 <= y <= 9999 {
        assert(yt == p);
    } else {
        assert(yt.drop_first() =~= p);
        assert forall|i: int| 0 <= i < yt.len() implies is_stamp_char(#[trigger] yt[i]) && yt[i] != '.' by {
            if i > 0 {
                assert(yt[i] == p[i - 1]);
            }
        }
    }
}

proof fn lemma_fraction_text(n: nat)
    requires
        n < 1_000_000_000,
    ensures
        n == 0 <==> fraction_text(n).len() == 0,
        n != 0 ==> fraction_text(n)[0] == '.',
        forall|i: int| 0 <= i < fraction_text(n).len() ==> is_stamp_char(#[trigger] fraction_text(n)[i]),
        n != 0 && n % 1_000_000 == 0 ==> fraction_text(n).len() == 4 && value(fraction_text(n).drop_first()) == n / 1_000_000,
        n % 1_000_000 != 0 && n % 1_000 == 0 ==> fraction_text(n).len() == 7 && value(fraction_text(n).drop_first()) == n / 1_000,
        n % 1_000 != 0 ==> fraction_text(n).len() == 10 && value(fraction_text(n).drop_first()) == n,
{
    let f = fraction_text(n);
    if n != 0 {
        let (q, w): (nat, nat) = if n % 1_000_000 == 0 {
            ((n / 1_000_000) as nat, 3)
        } else if n % 1_000 == 0 {
            ((n / 1_000) as nat, 6)
        } else {
            (n, 9)
        };
        lemma_digits_len(q);
        lemma_padded(q, w);
        assert(f.drop_first() =~= padded(q, w));
        assert forall|i: int| 0 <= i < f.len() implies is_stamp_char(#[trigger] f[i]) by {
            if i > 0 {
                assert(f[i] == padded(q, w)[i - 1]);
            }
        }
    }
}

proof fn lemma_fraction_injective(a: nat, b: nat)
    requires
        a < 1_000_000_000,
        b < 1_000_000_000,
        fraction_text(a) == fraction_text(b),
    ensures
        a == b,
{
    lemma_fraction_text(a);
    lemma_fraction_text(b);
    if a != 0 {
        if a % 1_000_000 == 0 {
            assert(a == (a / 1_000_000) * 1_000_000 + a % 1_000_000);
            assert(b == (b / 1_000_000) * 1_000_000 + b % 1_000_000);
        } else if a % 1_000 == 0 {
            assert(a == (a / 1_000) * 1_000 + a % 1_000);
            assert(b == (b / 1_000) * 1_000 + b % 1_000);
        }
    }
}

/// The text and its parts: year, middle and fraction.
proof fn lemma_timestamp_parts(t: Timestamp)
    requires
        t.wf(),
    ensures
        timestamp_text(t) == year_text(t.date.year as int) + middle_text(t) + fraction_text(shown_nano(t)),
{
    assert(timestamp_text(t) =~= year_text(t.date.year as int) + middle_text(t) + fraction_text(shown_nano(t)));
}

/// The text of a timestamp is made of digits, `-`, `+`, space, `:` and `.`.
pub proof fn lemma_timestamp_chars(t: Timestamp)
    requires
        t.wf(),
    ensures
        forall|i: int| 0 <= i < timestamp_text(t).len() ==> is_stamp_char(#[trigger] timestamp_text(t)[i]),
{
    lemma_timestamp_parts(t);
    lemma_year_text(t.date.year as int);
    lemma_middle_text(t);
    lemma_fraction_text(shown_nano(t));
    let y = year_text(t.date.year as int);
    let m = middle_text(t);
    let f = fraction_text(shown_nano(t));
    assert forall|i: int| 0 <= i < timestamp_text(t).len() implies is_stamp_char(#[trigger] timestamp_text(t)[i]) by {
        if i < y.len() {
            assert(timestamp_text(t)[i] == y[i]);
        } else if i < y.len() + 15 {
            assert(timestamp_text(t)[i] == m[i - y.len()]);
        } else {
            assert(timestamp_text(t)[i] == f[i - y.len() - 15]);
        }
    }
}

/// Two timestamps with the same text are the same.
pub proof fn lemma_timestamp_text_injective(a: Timestamp, b: Timestamp)
    requires
        a.wf(),
        b.wf(),
        timestamp_text(a) == timestamp_text(b),
    ensures
        a == b,
{
    let t = timestamp_text(a);
    lemma_timestamp_parts(a);
    lemma_timestamp_parts(b);
    lemma_year_text(a.date.year as int);
    lemma_year_text(b.date.year as int);
    lemma_middle_text(a);
    lemma_middle_text(b);
    lemma_fraction_text(shown_nano(a));
    lemma_fraction_text(shown_nano(b));
    let ya = year_text(a.date.year as int);
    let yb = year_text(b.date.year as int);
    let ma = middle_text(a);
    let mb = middle_text(b);
    let fa = fraction_text(shown_nano(a));
    let fb = fraction_text(shown_nano(b));
    assert(t == ya + ma + fa);
    assert(t == yb + mb + fb);
    assert(t.len() == ya.len() + 15 + fa.len());
    assert(t.len() == yb.len() + 15 + fb.len());
    if fa.len() < fb.len() {
        let p = ya.len() + 15 - (fb.len() - fa.len());
        assert(t[p] == fb[0]);
        if p < ya.len() {
            assert(t[p] == ya[p]);
        } else {
            assert(t[p] == ma[p - ya.len()]);
        }
        assert(false);
    }
    if fb.len() < fa.len() {
        let p = yb.len() + 15 - (fa.len() - fb.len());
        assert(t[p] == fa[0]);
        if p < yb.len() {
            assert(t[p] == yb[p]);
        } else {
            assert(t[p] == mb[p - yb.len()]);
        }
        assert(false);
    }
    assert(ya.len() == yb.len());
    assert(ya =~= t.take(ya.len() as int));
    assert(yb =~= t.take(yb.len() as int));
    assert(ma =~= t.subrange(ya.len() as int, ya.len() + 15int));
    assert(mb =~= t.subrange(yb.len() as int, yb.len() + 15int));
    assert(fa =~= t.skip(ya.len() + 15int));
    assert(fb =~= t.skip(yb.len() + 15int));
    lemma_fraction_injective(shown_nano(a), shown_nano(b));
    lemma_two_digits(a.date.month as nat);
    lemma_two_digits(b.date.month as nat);
    lemma_two_digits(a.date.day as nat);
    lemma_two_digits(b.date.day as nat);
    lemma_two_digits(a.hour as nat);
    lemma_two_digits(b.hour as nat);
    lemma_two_digits(a.minute as nat);
    lemma_two_digits(b.minute as nat);
    lemma_two_digits(shown_second(a));
    lemma_two_digits(shown_second(b));
    assert(a.date.year == b.date.year) by {
        let y1 = a.date.year as int;
        let y2 = b.date.year as int;
        if 0 <= y1 <= 9999 {
            assert(!(y2 < 0) && !(y2 > 9999));
        } else if y1 < 0 {
            assert(y2 < 0);
            assert(ya.drop_first() == yb.drop_first());
        } else {
            assert(y2 > 9999);
            assert(ya.drop_first() == yb.drop_first());
        }
    }
}

proof fn lemma_year_step(y: int)
    ensures
        days_before_year(y + 1) == days_before_year(y) + days_before_month(y, 13),
        days_before_month(y, 13) == if is_leap_year(y) { 366int } else { 365int },
{
    reveal_with_fuel(days_before_month, 13);
    assert(y / 4 - (y - 1) / 4 == if y % 4 == 0 { 1int } else { 0int });
    assert(y / 100 - (y - 1) / 100 == if y % 100 == 0 { 1int } else { 0int });
    assert(y / 400 - (y - 1) / 400 == if y % 400 == 0 { 1int } else { 0int });
}

proof fn lemma_years_grow(a: int, b: int)
    requires
        a <= b,
    ensures
        days_before_year(a) <= days_before_year(b),
    decreases b - a,
{
    if a < b {
        lemma_year_step(b - 1);
        lemma_years_grow(a, b - 1);
    }
}

proof fn lemma_months_nonneg(y: int, m: int)
    ensures
        days_before_month(y, m) >= 0,
    decreases m,
{
    if m > 1 {
        lemma_months_nonneg(y, m - 1);
    }
}

proof fn lemma_months_grow(y: int, m: int, k: int)
    requires
        1 <= m <= k,
    ensures
        days_before_month(y, m) <= days_before_month(y, k),
    decreases k - m,
{
    if m < k {
        lemma_months_grow(y, m, k - 1);
    }
}

/// A valid date lies between the earliest and the latest date.
pub proof fn lemma_day_number_bounds(d: Date)
    requires
        d.wf(),
    ensures
        day_number(Date::earliest()) <= day_number(d) <= day_number(Date::latest()),
{
    let y = d.year as int;
    let m = d.month as int;
    lemma_years_grow(MIN_YEAR as int, y);
    lemma_months_nonneg(y, m);
    lemma_months_grow(y, m + 1, 13);
    assert(days_before_month(y, m + 1) == days_before_month(y, m) + days_in_month(y, m));
    lemma_year_step(y);
    lemma_year_step(MAX_YEAR as int);
    if y < MAX_YEAR {
        lemma_years_grow(y + 1, MAX_YEAR as int);
    }
    reveal_with_fuel(days_before_month, 13);
}

/// What chrono's `NaiveDate::parse_from_str(s, "%Y-%m-%d")` gives.
pub uninterp spec fn parsed_date(s: Seq<char>) -> Option<Date>;

/// What chrono's `NaiveDateTime::parse_from_str(s, "%Y-%m-%d %H:%M:%S%.f")` gives.
pub uninterp spec fn parsed_timestamp(s: Seq<char>) -> Option<Timestamp>;

/// What chrono's `NaiveTime::parse_from_str(s, "%H:%M")` gives, as hour
/// and minute.
pub uninterp spec fn parsed_clock(s: Seq<char>) -> Option<(u32, u32)>;

/// Relies on chrono's `NaiveTime::parse_from_str` with `%H:%M`; a time it
/// gives has an hour below 24 and a minute below 60.
#[verifier::external_body]
pub(crate) fn parse_time(s: &str) -> (r: Option<(u32, u32)>)
    ensures
        r == parsed_clock(s@),
        r matches Some((h, m)) ==> h < 24 && m < 60,
{
    match chrono::NaiveTime::parse_from_str(s, "%H:%M") {
        Ok(t) => Some((t.hour(), t.minute())),
        Err(_) => None,
    }
}

impl Timestamp {
    /// The timestamp at `hour:minute` sharp on `date`.
    pub fn at(date: Date, hour: u32, minute: u32) -> (r: Timestamp)
        ensures
            r == (Timestamp { date, hour, minute, second: 0, nanosecond: 0 }),
    {
        Timestamp { date, hour, minute, second: 0, nanosecond: 0 }
    }

    /// The timestamp on `date` at the `%H:%M` time that `text` spells, if it
    /// spells one.
    pub fn on_day_at(date: Date, text: &str) -> (r: Option<Timestamp>)
        ensures
            r == match parsed_clock(text@) {
                Some((h, m)) => Some(Timestamp { date, hour: h, minute: m, second: 0, nanosecond: 0 }),
                None => None,
            },
            date.wf() && r is Some ==> r->0.wf(),
    {
        match parse_time(text) {
            Some((h, m)) => Some(Timestamp::at(date, h, m)),
            None => None,
        }
    }

    /// `HH:MM`.
    pub fn clock_text(&self) -> (r: String)
        requires
            self.wf(),
        ensures
            r@ == padded(self.hour as nat, 2) + seq![':'] + padded(self.minute as nat, 2),
    {
        let mut r = String::new();
        crate::text::push_padded(&mut r, self.hour as u64, 2);
        crate::text::push_chars(&mut r, &vec![':']);
        crate::text::push_padded(&mut r, self.minute as u64, 2);
        r
    }
}

/// What chrono's `(later - earlier).num_nanoseconds()` gives for two
/// `NaiveDateTime`s: the time between them, leap seconds as chrono counts
/// them, or `None` where the nanoseconds overflow 64 bits.
pub uninterp spec fn nanos_between(earlier: Timestamp, later: Timestamp) -> Option<i64>;

/// Relies on chrono's `NaiveDateTime` subtraction and
/// `TimeDelta::num_nanoseconds`, which depend on the two timestamps alone.
#[verifier::external_body]
pub(crate) fn elapsed_nanos(earlier: Timestamp, later: Timestamp) -> (r: Option<i64>)
    requires
        earlier.wf(),
        later.wf(),
    ensures
        r == nanos_between(earlier, later),
{
    let a = chrono::NaiveDate::from_ymd_opt(earlier.date.year, earlier.date.month, earlier.date.day).unwrap();
    let b = chrono::NaiveDate::from_ymd_opt(later.date.year, later.date.month, later.date.day).unwrap();
    let a = a.and_hms_nano_opt(earlier.hour, earlier.minute, earlier.second, earlier.nanosecond).unwrap();
    let b = b.and_hms_nano_opt(later.hour, later.minute, later.second, later.nanosecond).unwrap();
    (b - a).num_nanoseconds()
}

/// What chrono's `DurationRound::duration_round` gives for a
/// `NaiveDateTime` and a step of `step` nanoseconds.
pub uninterp spec fn rounded_to(t: Timestamp, step: int) -> Option<Timestamp>;

/// Relies on chrono's `DurationRound::duration_round` for `NaiveDateTime`:
/// the timestamp rounded to the nearest multiple of the step counted from
/// 1970, which depends on timestamp and step alone, or an error, always
/// where the step is not positive.
#[verifier::external_body]
pub(crate) fn round_timestamp(t: Timestamp, step: i64) -> (r: Option<Timestamp>)
    requires
        t.wf(),
    ensures
        r == rounded_to(t, step as int),
        step <= 0 ==> r is None,
        r is Some ==> r->0.wf(),
{
    let d = chrono::NaiveDate::from_ymd_opt(t.date.year, t.date.month, t.date.day).unwrap();
    let n = d.and_hms_nano_opt(t.hour, t.minute, t.second, t.nanosecond).unwrap();
    match n.duration_round(chrono::TimeDelta::nanoseconds(step)) {
        Ok(x) => Some(Timestamp {
            date: Date { year: x.year(), month: x.month(), day: x.day() },
            hour: x.hour(),
            minute: x.minute(),
            second: x.second(),
            nanosecond: x.nanosecond(),
        }),
        Err(_) => None,
    }
}

/// Relies on chrono's `Local::now`: the current date on the local clock.
#[verifier::external_body]
pub(crate) fn today() -> (r: Date)
    ensures
        r.wf(),
{
    let d = chrono::Local::now().date_naive();
    Date { year: d.year(), month: d.month(), day: d.day() }
}

/// Relies on chrono's `NaiveDate::checked_sub_days`: the date `n` days
/// earlier, or `None` where that lies before chrono's earliest date.
#[verifier::external_body]
pub(crate) fn days_earlier(d: Date, n: u64) -> (r: Option<Date>)
    requires
        d.wf(),
    ensures
        r is Some <==> can_go_back(d, n as int),
        r is Some ==> is_days_before(r->0, d, n as int),
{
    let nd = chrono::NaiveDate::from_ymd_opt(d.year, d.month, d.day).unwrap();
    match nd.checked_sub_days(chrono::Days::new(n)) {
        Some(e) => Some(Date { year: e.year(), month: e.month(), day: e.day() }),
        None => None,
    }
}

/// Relies on chrono's `NaiveDate::checked_add_days`: the date `n` days
/// later, or `None` where that lies after chrono's latest date.
#[verifier::external_body]
pub(crate) fn days_later(d: Date, n: u64) -> (r: Option<Date>)
    requires
        d.wf(),
    ensures
        r is Some <==> day_number(d) + n <= day_number(Date::latest()),
        r is Some ==> is_days_before(d, r->0, n as int) && r->0.wf(),
{
    let nd = chrono::NaiveDate::from_ymd_opt(d.year, d.month, d.day).unwrap();
    match nd.checked_add_days(chrono::Days::new(n)) {
        Some(e) => Some(Date { year: e.year(), month: e.month(), day: e.day() }),
        None => None,
    }
}

/// Relies on chrono's `NaiveDate::format` with `%Y-%m-%d`: four-digit years
/// within 0..=9999, signed ones outside, two-digit month and day.
#[verifier::external_body]
pub(crate) fn format_date(d: Date) -> (r: String)
    requires
        d.wf(),
    ensures
        r@ == date_text(d),
{
    let nd = chrono::NaiveDate::from_ymd_opt(d.year, d.month, d.day).unwrap();
    nd.format("%Y-%m-%d").to_string()
}

/// Relies on chrono's `Display` for `NaiveDateTime`, which writes
/// `%Y-%m-%d %H:%M:%S%.f` as `date_text` and `time_text` spell it out.
#[verifier::external_body]
pub(crate) fn format_timestamp(t: Timestamp) -> (r: String)
    requires
        t.wf(),
    ensures
        r@ == timestamp_text(t),
{
    let nd = chrono::NaiveDate::from_ymd_opt(t.date.year, t.date.month, t.date.day).unwrap();
    nd.and_hms_nano_opt(t.hour, t.minute, t.second, t.nanosecond).unwrap().to_string()
}

/// Relies on chrono's `NaiveDate::parse_from_str` with `%Y-%m-%d`; what it
/// accepts is chrono's, and a date it gives is a valid one.
#[verifier::external_body]
pub(crate) fn parse_date(s: &str) -> (r: Option<Date>)
    ensures
        r == parsed_date(s@),
        r is Some ==> r->0.wf(),
{
    match chrono::NaiveDate::parse_from_str(s, "%Y-%m-%d") {
        Ok(d) => Some(Date { year: d.year(), month: d.month(), day: d.day() }),
        Err(_) => None,
    }
}

/// Relies on chrono's `NaiveDateTime::parse_from_str` with
/// `%Y-%m-%d %H:%M:%S%.f`: a timestamp it gives is a valid one, and the text
/// that chrono's `Display` writes for a timestamp parses back to it.
#[verifier::external_body]
pub(crate) fn parse_timestamp(s: &str) -> (r: Option<Timestamp>)
    ensures
        r == parsed_timestamp(s@),
        r is Some ==> r->0.wf(),
        forall|t: Timestamp| t.wf() && s@ == timestamp_text(t) ==> r == Some(t),
{
    match chrono::NaiveDateTime::parse_from_str(s, "%Y-%m-%d %H:%M:%S%.f") {
        Ok(t) => Some(Timestamp {
            date: Date { year: t.year(), month: t.month(), day: t.day() },
            hour: t.hour(),
            minute: t.minute(),
            second: t.second(),
            nanosecond: t.nanosecond(),
        }),
        Err(_) => None,
    }
}

} // verus!
