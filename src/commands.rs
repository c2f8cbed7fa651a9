//! The decisions of the commands that change a day's entries: ordering by
//! time, putting an entry in, replacing one, taking some out. Prompting and
//! reading or writing the day file are the caller's.

use crate::codec::{opt_view, Entry, EntryView};
use crate::config::regex_match;
use crate::date::{
    days_earlier, days_later, elapsed_nanos, is_days_before, nanos_between, parse_time, parsed_clock,
    round_timestamp, rounded_to, Date, Timestamp,
};
use crate::resolve::Parsable;
use crate::store::views;
use vstd::prelude::*;
use vstd::view::View as _;

verus! {

/// Adds an entry at a given or the current time.
pub struct Add {
    pub message: Vec<String>,
    pub time: Option<String>,
    pub date: Option<Parsable<Date>>,
    pub select: bool,
    pub long: bool,
    pub long_text: Option<String>,
}

/// Shows a day's entries.
pub struct View {
    pub date: Option<Parsable<Date>>,
    pub select: bool,
    pub long: bool,
    pub csv: bool,
    pub paging: bool,
}

/// Takes entries out of a day.
pub struct Delete {
    pub date: Option<Parsable<Date>>,
    pub select: bool,
}

/// Changes one entry of a day.
pub struct Edit {
    pub date: Option<String>,
    pub select: bool,
    pub last: bool,
}

/// Gives the next later entry of today the new timestamp, and puts the new
/// entry at that entry's old time.
pub struct Insert {
    pub message: Vec<String>,
    pub time: Option<String>,
    pub long: bool,
    pub long_text: Option<String>,
}

/// Why a command does nothing.
#[derive(Clone, Copy, Debug, PartialEq, Eq, Structural)]
pub enum CommandError {
    /// The message has no words.
    EmptyMessage,
    /// No entry of the day comes later than the given time.
    NoLaterEntry,
    /// The time is not `%H:%M`.
    BadTime,
    /// The timestamp cannot be rounded to the configured step.
    CannotRound,
}

/// The timestamp of a new entry: `time` on `date` where a time is given,
/// else `now`; then rounded where a step is configured.
pub open spec fn entry_time_spec(
    date: Date,
    time: Option<Seq<char>>,
    now: Timestamp,
    step: Option<i64>,
) -> Result<Timestamp, CommandError> {
    let base = match time {
        Some(t) => match parsed_clock(t) {
            Some((h, m)) => Ok(Timestamp { date, hour: h, minute: m, second: 0, nanosecond: 0 }),
            None => Err(CommandError::BadTime),
        },
        None => Ok(now),
    };
    match base {
        Err(e) => Err(e),
        Ok(b) => match step {
            None => Ok(b),
            Some(s) => match rounded_to(b, s as int) {
                Some(r) => Ok(r),
                None => Err(CommandError::CannotRound),
            },
        },
    }
}

/// The timestamp of a new entry; see `entry_time_spec`.
pub fn entry_time(date: Date, time: Option<&str>, now: Timestamp, step: Option<i64>) -> (r: Result<
    Timestamp,
    CommandError,
>)
    requires
        date.wf(),
        now.wf(),
    ensures
        r == entry_time_spec(
            date,
            match time {
                Some(t) => Some(t@),
                None => None,
            },
            now,
            step,
        ),
        r is Ok ==> r->Ok_0.wf(),
{
    let base = match time {
        Some(t) => match parse_time(t) {
            Some((h, m)) => Timestamp::at(date, h, m),
            None => {
                return Err(CommandError::BadTime);
            },
        },
        None => now,
    };
    match step {
        None => Ok(base),
        Some(s) => match round_timestamp(base, s) {
            Some(r) => Ok(r),
            None => Err(CommandError::CannotRound),
        },
    }
}

pub open spec fn date_before(a: Date, b: Date) -> bool {
    a.year < b.year || (a.year == b.year && (a.month < b.month || (a.month == b.month && a.day
        < b.day)))
}

/// `a` comes strictly before `b`.
pub open spec fn earlier(a: Timestamp, b: Timestamp) -> bool {
    date_before(a.date, b.date) || (a.date == b.date && (a.hour < b.hour || (a.hour == b.hour && (
    a.minute < b.minute || (a.minute == b.minute && (a.second < b.second || (a.second == b.second
        && a.nanosecond < b.nanosecond)))))))
}

/// `x` put into `s` behind every entry that is not later than it.
pub open spec fn insert_by_time(s: Seq<EntryView>, x: EntryView) -> Seq<EntryView>
    decreases s.len(),
{
    if s.len() == 0 {
        seq![x]
    } else if earlier(x.timestamp, s.last().timestamp) {
        insert_by_time(s.drop_last(), x).push(s.last())
    } else {
        s.push(x)
    }
}

/// The entries ordered by time; entries with equal times keep their order.
pub open spec fn sort_by_time(s: Seq<EntryView>) -> Seq<EntryView>
    decreases s.len(),
{
    if s.len() == 0 {
        seq![]
    } else {
        insert_by_time(sort_by_time(s.drop_last()), s.last())
    }
}

/// `i` is the first entry of `s` later than `t`.
pub open spec fn is_first_later(s: Seq<EntryView>, t: Timestamp, i: int) -> bool {
    &&& 0 <= i < s.len()
    &&& earlier(t, s[i].timestamp)
    &&& forall|k: int| 0 <= k < i ==> !earlier(t, #[trigger] s[k].timestamp)
}

/// The words joined by single spaces.
pub open spec fn joined(words: Seq<Seq<char>>) -> Seq<char>
    decreases words.len(),
{
    if words.len() == 0 {
        seq![]
    } else if words.len() == 1 {
        words[0]
    } else {
        joined(words.drop_last()) + seq![' '] + words.last()
    }
}

/// Entries equal to `old` replaced by `new`.
pub open spec fn replaced(s: Seq<EntryView>, old: EntryView, new: EntryView) -> Seq<EntryView> {
    s.map_values(|e: EntryView| if e == old { new } else { e })
}

/// The entries that are not among `gone`, in their order.
pub open spec fn without(s: Seq<EntryView>, gone: Seq<EntryView>) -> Seq<EntryView>
    decreases s.len(),
{
    if s.len() == 0 {
        seq![]
    } else if gone.contains(s.last()) {
        without(s.drop_last(), gone)
    } else {
        without(s.drop_last(), gone).push(s.last())
    }
}

/// The time of a day's entries, in nanoseconds: the gap before each entry
/// but the first, and the sums of the gaps that end in a break entry and of
/// the others.
pub struct DayTotals {
    pub gaps: Vec<i64>,
    pub work: i128,
    pub pause: i128,
}

/// Gaps, work and pause of the entries in the given order: each gap ends
/// in an entry, and counts as pause where that entry's message matches the
/// break pattern. `None` where the pattern is not a regular expression or a
/// gap does not fit in 64 bits.
pub open spec fn day_totals(s: Seq<EntryView>, rx: Seq<char>) -> Option<(Seq<int>, int, int)>
    decreases s.len(),
{
    if s.len() < 2 {
        Some((seq![], 0, 0))
    } else {
        match day_totals(s.drop_last(), rx) {
            None => None,
            Some((g, w, p)) => match (
                nanos_between(s[s.len() - 2].timestamp, s.last().timestamp),
                regex_match(rx, s.last().message),
            ) {
                (Some(d), Some(true)) => Some((g.push(d as int), w, p + d)),
                (Some(d), Some(false)) => Some((g.push(d as int), w + d, p)),
                _ => None,
            },
        }
    }
}

/// Once a prefix of the day has no totals, the day has none.
proof fn lemma_no_totals(s: Seq<EntryView>, rx: Seq<char>, j: int)
    requires
        0 <= j <= s.len(),
        day_totals(s.take(j), rx) is None,
    ensures
        day_totals(s, rx) is None,
    decreases s.len() - j,
{
    if j == s.len() {
        assert(s.take(j) =~= s);
    } else {
        let t = s.take(j + 1);
        assert(t.drop_last() =~= s.take(j));
        lemma_no_totals(s, rx, j + 1);
    }
}

/// A key pressed while paging through days.
#[derive(Clone, Copy, Debug, PartialEq, Eq, Structural)]
pub enum PageKey {
    NextDay,
    PreviousDay,
    NextWeek,
    PreviousWeek,
    Quit,
    Other,
}

/// What paging does on a key.
#[derive(Clone, Copy, Debug, PartialEq, Eq, Structural)]
pub enum PageStep {
    /// Show this day.
    Show(Date),
    /// Stop paging.
    Quit,
}

/// The day `n` days after `d`, where `n` may be negative; `d` itself where
/// there is no such day.
pub open spec fn moved_by(d: Date, n: int, r: Date) -> bool {
    if exists|e: Date| e.wf() && is_days_before(d, e, n) {
        r.wf() && is_days_before(d, r, n)
    } else {
        r == d
    }
}

impl View {
    /// The next step of paging from `date` on `key`: a day or a week on or
    /// back, quitting, or staying on other keys and at the ends of the
    /// calendar.
    pub fn page(date: Date, key: PageKey) -> (r: PageStep)
        requires
            date.wf(),
        ensures
            key == PageKey::Quit <==> r == PageStep::Quit,
            r matches PageStep::Show(d) ==> d.wf() && moved_by(
                date,
                match key {
                    PageKey::NextDay => 1,
                    PageKey::PreviousDay => -1,
                    PageKey::NextWeek => 7,
                    PageKey::PreviousWeek => -7,
                    _ => 0,
                },
                d,
            ),
    {
        let (forward, n): (bool, u64) = match key {
            PageKey::Quit => {
                return PageStep::Quit;
            },
            PageKey::NextDay => (true, 1),
            PageKey::PreviousDay => (false, 1),
            PageKey::NextWeek => (true, 7),
            PageKey::PreviousWeek => (false, 7),
            PageKey::Other => (true, 0),
        };
        let moved = if forward { days_later(date, n) } else { days_earlier(date, n) };
        let ghost k: int = if forward { n as int } else { -(n as int) };
        match moved {
            Some(d) => {
                assert(is_days_before(date, d, k));
                PageStep::Show(d)
            },
            None => {
                assert(!exists|e: Date| e.wf() && is_days_before(date, e, k)) by {
                    if exists|e: Date| e.wf() && is_days_before(date, e, k) {
                        let e = choose|e: Date| e.wf() && is_days_before(date, e, k);
                        crate::date::lemma_day_number_bounds(e);
                    }
                }
                PageStep::Show(date)
            },
        }
    }

    /// The gaps between consecutive entries and the day's work and pause.
    pub fn totals(entries: &Vec<Entry>, break_regex: &str) -> (r: Option<DayTotals>)
        requires
            forall|i: int| 0 <= i < entries.len() ==> (#[trigger] entries[i]).wf(),
        ensures
            match day_totals(views(entries@), break_regex@) {
                None => r is None,
                Some((g, w, p)) => r matches Some(t) && t.gaps@.map_values(|x: i64| x as int) == g
                    && t.work == w && t.pause == p,
            },
    {
        let ghost s = views(entries@);
        let mut gaps: Vec<i64> = Vec::new();
        let mut work: i128 = 0;
        let mut pause: i128 = 0;
        if entries.len() < 2 {
            assert(gaps@.map_values(|x: i64| x as int) =~= seq![]);
            return Some(DayTotals { gaps, work, pause });
        }
        let mut i: usize = 1;
        assert(s.take(1).len() == 1);
        while i < entries.len()
            invariant
                1 <= i <= entries.len(),
                s == views(entries@),
                forall|k: int| 0 <= k < entries.len() ==> (#[trigger] entries[k]).wf(),
                day_totals(s.take(i as int), break_regex@) == Some(
                    (gaps@.map_values(|x: i64| x as int), work as int, pause as int),
                ),
                -(i as int) * 0x8000_0000_0000_0000 <= work <= (i as int) * 0x8000_0000_0000_0000,
                -(i as int) * 0x8000_0000_0000_0000 <= pause <= (i as int) * 0x8000_0000_0000_0000,
            decreases entries.len() - i,
        {
            let ghost t = s.take(i + 1);
            assert(t.drop_last() =~= s.take(i as int));
            assert(t[t.len() - 2] == entries[i - 1]@);
            assert(t.last() == entries[i as int]@);
            let d = match elapsed_nanos(entries[i - 1].timestamp, entries[i].timestamp) {
                Some(d) => d,
                None => {
                    proof {
                        lemma_no_totals(s, break_regex@, i + 1);
                    }
                    return None;
                },
            };
            let is_break = match entries[i].message_matches(break_regex) {
                Some(b) => b,
                None => {
                    proof {
                        lemma_no_totals(s, break_regex@, i + 1);
                    }
                    return None;
                },
            };
            proof {
                let n = i as int;
                assert(n * 0x8000_0000_0000_0000 + 0x8000_0000_0000_0000 == (n + 1) * 0x8000_0000_0000_0000)
                    by (nonlinear_arith);
                assert((n + 1) * 0x8000_0000_0000_0000 <= 0xffff_ffff_ffff_ffff * 0x8000_0000_0000_0000)
                    by (nonlinear_arith)
                    requires
                        n + 1 <= 0xffff_ffff_ffff_ffff,
                ;
            }
            let ghost g = gaps@.map_values(|x: i64| x as int);
            gaps.push(d);
            assert(gaps@.map_values(|x: i64| x as int) =~= g.push(d as int));
            if is_break {
                pause = pause + d as i128;
            } else {
                work = work + d as i128;
            }
            i = i + 1;
        }
        assert(s.take(i as int) =~= s);
        Some(DayTotals { gaps, work, pause })
    }
}

impl Timestamp {
    /// Whether `self` comes strictly before `other`.
    pub fn is_before(&self, other: &Timestamp) -> (r: bool)
        ensures
            r == earlier(*self, *other),
    {
        let (a, b) = (self, other);
        if a.date.year != b.date.year {
            return a.date.year < b.date.year;
        }
        if a.date.month != b.date.month {
            return a.date.month < b.date.month;
        }
        if a.date.day != b.date.day {
            return a.date.day < b.date.day;
        }
        if a.hour != b.hour {
            return a.hour < b.hour;
        }
        if a.minute != b.minute {
            return a.minute < b.minute;
        }
        if a.second != b.second {
            return a.second < b.second;
        }
        a.nanosecond < b.nanosecond
    }
}

impl Entry {
    /// A copy of the entry.
    pub fn copy(&self) -> (r: Entry)
        ensures
            r@ == self@,
            r.wf() == self.wf(),
    {
        let long = match &self.long {
            Some(l) => Some(l.clone()),
            None => None,
        };
        Entry { timestamp: self.timestamp, message: self.message.clone(), long }
    }
}

proof fn lemma_insert_at(s: Seq<EntryView>, x: EntryView, j: int)
    requires
        0 <= j <= s.len(),
        forall|k: int| j <= k < s.len() ==> earlier(x.timestamp, #[trigger] s[k].timestamp),
        j == 0 || !earlier(x.timestamp, s[j - 1].timestamp),
    ensures
        insert_by_time(s, x) == s.take(j).push(x) + s.skip(j),
    decreases s.len(),
{
    if j == s.len() {
        assert(s.skip(j) =~= seq![]);
        assert(s.take(j) =~= s);
        if s.len() == 0 {
            assert(s.take(j).push(x) + s.skip(j) =~= seq![x]);
        } else {
            assert(s.take(j).push(x) + s.skip(j) =~= s.push(x));
        }
    } else {
        let s1 = s.drop_last();
        lemma_insert_at(s1, x, j);
        assert(s1.take(j) =~= s.take(j));
        assert((s.take(j).push(x) + s1.skip(j)).push(s.last()) =~= s.take(j).push(x) + s.skip(j));
    }
}

/// The entries ordered by time; entries with equal times keep their order.
pub fn sort_entries(v: &Vec<Entry>) -> (r: Vec<Entry>)
    requires
        forall|i: int| 0 <= i < v.len() ==> (#[trigger] v[i]).wf(),
    ensures
        views(r@) == sort_by_time(views(v@)),
        forall|i: int| 0 <= i < r.len() ==> (#[trigger] r[i]).wf(),
{
    let mut r: Vec<Entry> = Vec::new();
    let mut i: usize = 0;
    assert(views(v@.take(0)) =~= seq![]);
    while i < v.len()
        invariant
            i <= v.len(),
            forall|k: int| 0 <= k < v.len() ==> (#[trigger] v[k]).wf(),
            forall|k: int| 0 <= k < r.len() ==> (#[trigger] r[k]).wf(),
            views(r@) == sort_by_time(views(v@.take(i as int))),
        decreases v.len() - i,
    {
        let x = v[i].copy();
        let ghost s = views(r@);
        let mut j: usize = r.len();
        while j > 0 && x.timestamp.is_before(&r[j - 1].timestamp)
            invariant
                j <= r.len(),
                s == views(r@),
                forall|k: int| j <= k < r.len() ==> earlier(x@.timestamp, #[trigger] s[k].timestamp),
            decreases j,
        {
            j = j - 1;
        }
        proof {
            lemma_insert_at(s, x@, j as int);
            assert(views(v@.take(i + 1)).drop_last() =~= views(v@.take(i as int)));
            assert(views(v@.take(i + 1)).last() == x@);
        }
        r.insert(j, x);
        assert(views(r@) =~= s.take(j as int).push(x@) + s.skip(j as int));
        i = i + 1;
    }
    assert(v@.take(i as int) =~= v@);
    r
}

/// The words of a message joined by single spaces, or an error where there
/// are none.
pub fn join_message(words: &Vec<String>) -> (r: Result<String, CommandError>)
    ensures
        words.len() == 0 <==> r == Err::<String, CommandError>(CommandError::EmptyMessage),
        words.len() > 0 ==> r is Ok,
        r is Ok ==> r->Ok_0@ == joined(words@.map_values(|w: String| w@)),
{
    if words.len() == 0 {
        return Err(CommandError::EmptyMessage);
    }
    let mut out = words[0].clone();
    let mut i: usize = 1;
    let ghost ws = words@.map_values(|w: String| w@);
    assert(ws.take(1) =~= seq![ws[0]]);
    while i < words.len()
        invariant
            1 <= i <= words.len(),
            ws == words@.map_values(|w: String| w@),
            out@ == joined(ws.take(i as int)),
        decreases words.len() - i,
    {
        let ghost before = out@;
        crate::text::push_chars(&mut out, &vec![' ']);
        crate::text::push_chars(&mut out, &crate::text::chars_of(words[i].as_str()));
        assert(ws.take(i + 1).drop_last() =~= ws.take(i as int));
        assert(out@ =~= joined(ws.take(i + 1)));
        i = i + 1;
    }
    assert(ws.take(i as int) =~= ws);
    Ok(out)
}

impl Insert {
    /// The day's entries once the new entry is put in: ordered by time, the
    /// first entry later than `timestamp` takes that timestamp, and the new
    /// entry, at the end, takes that entry's old time. With no later entry
    /// there is nothing to do.
    pub fn insert_into(
        entries: &Vec<Entry>,
        timestamp: Timestamp,
        message: String,
        long: Option<String>,
    ) -> (r: Result<Vec<Entry>, CommandError>)
        requires
            timestamp.wf(),
            forall|i: int| 0 <= i < entries.len() ==> (#[trigger] entries[i]).wf(),
        ensures
            ({
                let s = sort_by_time(views(entries@));
                &&& r is Err <==> (forall|k: int| 0 <= k < s.len() ==> !earlier(timestamp, #[trigger] s[k].timestamp))
                &&& r is Err ==> r == Err::<Vec<Entry>, CommandError>(CommandError::NoLaterEntry)
                &&& r is Ok ==> exists|i: int| is_first_later(s, timestamp, i) && views(r->Ok_0@) == s.update(
                    i,
                    EntryView { timestamp, ..s[i] },
                ).push(EntryView { timestamp: s[i].timestamp, message: message@, long: opt_view(long) })
            }),
            r is Ok ==> forall|i: int| 0 <= i < r->Ok_0.len() ==> (#[trigger] r->Ok_0[i]).wf(),
    {
        let mut sorted = sort_entries(entries);
        let ghost s = views(sorted@);
        let mut i: usize = 0;
        while i < sorted.len() && !timestamp.is_before(&sorted[i].timestamp)
            invariant
                i <= sorted.len(),
                s == views(sorted@),
                forall|k: int| 0 <= k < i ==> !earlier(timestamp, #[trigger] s[k].timestamp),
            decreases sorted.len() - i,
        {
            i = i + 1;
        }
        if i == sorted.len() {
            return Err(CommandError::NoLaterEntry);
        }
        let mut after = sorted.remove(i);
        let previous = after.timestamp;
        after.timestamp = timestamp;
        sorted.insert(i, after);
        sorted.push(Entry { timestamp: previous, message, long });
        assert(views(sorted@) =~= s.update(i as int, EntryView { timestamp, ..s[i as int] }).push(
            EntryView { timestamp: s[i as int].timestamp, message: message@, long: opt_view(long) },
        ));
        assert(is_first_later(s, timestamp, i as int));
        Ok(sorted)
    }
}

impl Edit {
    /// The entries with each one equal to `selected` replaced by `new`.
    pub fn replace(entries: &Vec<Entry>, selected: &Entry, new: &Entry) -> (r: Vec<Entry>)
        ensures
            views(r@) == replaced(views(entries@), selected@, new@),
            (forall|i: int| 0 <= i < entries.len() ==> (#[trigger] entries[i]).wf()) && new.wf()
                ==> forall|i: int| 0 <= i < r.len() ==> (#[trigger] r[i]).wf(),
    {
        let mut r: Vec<Entry> = Vec::new();
        let mut i: usize = 0;
        while i < entries.len()
            invariant
                i <= entries.len(),
                views(r@) == replaced(views(entries@.take(i as int)), selected@, new@),
                (forall|k: int| 0 <= k < entries.len() ==> (#[trigger] entries[k]).wf()) && new.wf()
                    ==> forall|k: int| 0 <= k < r.len() ==> (#[trigger] r[k]).wf(),
            decreases entries.len() - i,
        {
            let same = entries[i] == *selected;
            assert(same == (entries[i as int]@ == selected@));
            let e = if same { new.copy() } else { entries[i].copy() };
            let ghost before = views(r@);
            r.push(e);
            assert(views(r@) =~= before.push(e@));
            assert(views(entries@.take(i + 1)) =~= views(entries@.take(i as int)).push(entries[i as int]@));
            i = i + 1;
            assert(views(r@) =~= replaced(views(entries@.take(i as int)), selected@, new@));
        }
        assert(entries@.take(i as int) =~= entries@);
        r
    }
}

impl Delete {
    /// The entries that are not among `selected`, in their order.
    pub fn remaining(entries: &Vec<Entry>, selected: &Vec<Entry>) -> (r: Vec<Entry>)
        ensures
            views(r@) == without(views(entries@), views(selected@)),
            (forall|i: int| 0 <= i < entries.len() ==> (#[trigger] entries[i]).wf()) ==> forall|i: int|
                0 <= i < r.len() ==> (#[trigger] r[i]).wf(),
    {
        let ghost gone = views(selected@);
        let mut r: Vec<Entry> = Vec::new();
        let mut i: usize = 0;
        while i < entries.len()
            invariant
                i <= entries.len(),
                gone == views(selected@),
                views(r@) == without(views(entries@.take(i as int)), gone),
                (forall|k: int| 0 <= k < entries.len() ==> (#[trigger] entries[k]).wf()) ==> forall|k: int|
                    0 <= k < r.len() ==> (#[trigger] r[k]).wf(),
            decreases entries.len() - i,
        {
            let mut found = false;
            let mut j: usize = 0;
            while j < selected.len() && !found
                invariant
                    i < entries.len(),
                    j <= selected.len(),
                    gone == views(selected@),
                    found ==> gone.contains(entries[i as int]@),
                    !found ==> forall|k: int| 0 <= k < j ==> gone[k] != entries[i as int]@,
                decreases selected.len() - j + if found { 0int } else { 1int },
            {
                let same = selected[j] == entries[i];
                assert(same == (selected[j as int]@ == entries[i as int]@));
                if same {
                    found = true;
                    assert(gone[j as int] == entries[i as int]@);
                } else {
                    j = j + 1;
                }
            }
            assert(views(entries@.take(i + 1)).drop_last() =~= views(entries@.take(i as int)));
            assert(views(entries@.take(i + 1)).last() == entries[i as int]@);
            if !found {
                r.push(entries[i].copy());
            }
            i = i + 1;
            assert(views(r@) =~= without(views(entries@.take(i as int)), gone));
        }
        assert(entries@.take(i as int) =~= entries@);
        r
    }
}

} // verus!
