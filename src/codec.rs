//! One entry per line: `"<timestamp>","<message>","<long>"`, with quotes
//! escaped as `\"` and newlines replaced by the `<NEWLINE>` marker.

use crate::date::{format_timestamp, parse_timestamp, parsed_timestamp, timestamp_text, Timestamp};
use crate::text::{chars_of, push_char as push, push_chars, string_of};
use vstd::prelude::*;

verus! {

/// One logged event.
#[derive(Clone, Debug)]
pub struct Entry {
    pub timestamp: Timestamp,
    pub message: String,
    pub long: Option<String>,
}

/// What an entry holds, as mathematical values.
pub struct EntryView {
    pub timestamp: Timestamp,
    pub message: Seq<char>,
    pub long: Option<Seq<char>>,
}

pub open spec fn opt_view(o: Option<String>) -> Option<Seq<char>> {
    match o {
        Some(s) => Some(s@),
        None => None,
    }
}

impl View for Entry {
    type V = EntryView;

    open spec fn view(&self) -> EntryView {
        EntryView { timestamp: self.timestamp, message: self.message@, long: opt_view(self.long) }
    }
}

impl Entry {
    pub open spec fn wf(&self) -> bool {
        self.timestamp.wf()
    }
}

impl PartialEq for Entry {
    fn eq(&self, o: &Entry) -> (r: bool) {
        let same_long = match (&self.long, &o.long) {
            (Some(a), Some(b)) => a.eq(b),
            (None, None) => true,
            _ => false,
        };
        assert(same_long == (self@.long == o@.long));
        let same_message = self.message.eq(&o.message);
        same_message && self.timestamp == o.timestamp && same_long
    }
}

impl vstd::std_specs::cmp::PartialEqSpecImpl for Entry {
    open spec fn obeys_eq_spec() -> bool {
        true
    }

    open spec fn eq_spec(&self, o: &Entry) -> bool {
        self@ == o@
    }
}

/// Why a stored line is not a record.
#[derive(Clone, Copy, Debug, PartialEq, Eq, Structural)]
pub enum RecordError {
    /// The line does not start and end with a double quote.
    Unframed,
    /// No field separator follows the timestamp.
    MissingMessage,
    /// The first field is not a timestamp.
    BadTimestamp,
}

/// The marker that stands for a newline inside a field.
pub open spec fn sentinel() -> Seq<char> {
    seq!['<', 'N', 'E', 'W', 'L', 'I', 'N', 'E', '>']
}

/// The field separator `","`.
pub open spec fn delim() -> Seq<char> {
    seq!['"', ',', '"']
}

/// A field: each `"` becomes `\"`, and each newline, a `\r\n` pair
/// included, becomes one marker.
pub open spec fn encode_field(s: Seq<char>) -> Seq<char>
    decreases s.len(),
{
    if s.len() == 0 {
        seq![]
    } else if s.len() >= 2 && s[0] == '\r' && s[1] == '\n' {
        sentinel() + encode_field(s.skip(2))
    } else if s[0] == '"' {
        seq!['\\', '"'] + encode_field(s.drop_first())
    } else if s[0] == '\n' {
        sentinel() + encode_field(s.drop_first())
    } else {
        seq![s[0]] + encode_field(s.drop_first())
    }
}

pub open spec fn long_text(l: Option<Seq<char>>) -> Seq<char> {
    match l {
        Some(s) => s,
        None => seq![],
    }
}

/// The record of an entry, without the line terminator.
pub open spec fn encode_record(e: EntryView) -> Seq<char> {
    seq!['"'] + timestamp_text(e.timestamp) + delim() + encode_field(e.message) + delim()
        + encode_field(long_text(e.long)) + seq!['"']
}

/// The record of an entry and its line terminator.
pub open spec fn encode_line(e: EntryView) -> Seq<char> {
    encode_record(e).push('\n')
}

/// Each marker, leftmost first and without overlap, becomes a newline.
pub open spec fn restore_newlines(s: Seq<char>) -> Seq<char>
    decreases s.len(),
{
    if s.len() == 0 {
        seq![]
    } else if s.len() >= 9 && s.take(9) == sentinel() {
        seq!['\n'] + restore_newlines(s.skip(9))
    } else {
        seq![s[0]] + restore_newlines(s.drop_first())
    }
}

/// Each `\"`, leftmost first and without overlap, becomes `"`.
pub open spec fn unescape(s: Seq<char>) -> Seq<char>
    decreases s.len(),
{
    if s.len() == 0 {
        seq![]
    } else if s.len() >= 2 && s[0] == '\\' && s[1] == '"' {
        seq!['"'] + unescape(s.skip(2))
    } else {
        seq![s[0]] + unescape(s.drop_first())
    }
}

pub open spec fn delim_at(s: Seq<char>, i: int) -> bool {
    0 <= i && i + 3 <= s.len() && s[i] == '"' && s[i + 1] == ',' && s[i + 2] == '"'
}

/// Where the first separator starts, or -1.
pub open spec fn first_delim(s: Seq<char>) -> int
    decreases s.len(),
{
    if s.len() < 3 {
        -1
    } else if delim_at(s, 0) {
        0
    } else {
        let r = first_delim(s.drop_first());
        if r < 0 { -1 } else { r + 1 }
    }
}

/// Where the last separator starts, or -1.
pub open spec fn last_delim(s: Seq<char>) -> int
    decreases s.len(),
{
    if s.len() < 3 {
        -1
    } else if delim_at(s, s.len() - 3) {
        s.len() - 3
    } else {
        last_delim(s.drop_last())
    }
}

/// The timestamp that chrono reads from `s`. On the text that chrono writes
/// for a timestamp, that timestamp.
pub open spec fn timestamp_from_text(s: Seq<char>) -> Option<Timestamp> {
    if exists|t: Timestamp| t.wf() && timestamp_text(t) == s {
        Some(choose|t: Timestamp| t.wf() && timestamp_text(t) == s)
    } else {
        parsed_timestamp(s)
    }
}

pub open spec fn framed(line: Seq<char>) -> bool {
    line.len() >= 2 && line[0] == '"' && line.last() == '"'
}

/// Decoding one line, its terminator stripped. The timestamp, which holds
/// no quote, ends at the first separator; message and long text are split
/// at the last one. An escaped field holds no separator, since each of its
/// quotes follows a backslash, so the last separator is the one written
/// between message and long text, whatever the message ends with.
pub open spec fn decode_record(line: Seq<char>) -> Result<EntryView, RecordError> {
    if !framed(line) {
        Err(RecordError::Unframed)
    } else {
        let vals = restore_newlines(line.subrange(1, line.len() - 1));
        let k = first_delim(vals);
        if k < 0 || k + 3 > vals.len() {
            Err(RecordError::MissingMessage)
        } else {
            let rest = vals.skip(k + 3);
            let j = last_delim(rest);
            let message = if j >= 0 { rest.take(j) } else { rest };
            let long = if j >= 0 { unescape(rest.skip(j + 3)) } else { seq![] };
            match timestamp_from_text(unescape(vals.take(k))) {
                None => Err(RecordError::BadTimestamp),
                Some(t) => Ok(
                    EntryView {
                        timestamp: t,
                        message: unescape(message),
                        long: if long.len() == 0 { None } else { Some(long) },
                    },
                ),
            }
        }
    }
}

fn push_sentinel(out: &mut String)
    ensures
        final(out)@ == old(out)@ + sentinel(),
{
    push(out, '<');
    push(out, 'N');
    push(out, 'E');
    push(out, 'W');
    push(out, 'L');
    push(out, 'I');
    push(out, 'N');
    push(out, 'E');
    push(out, '>');
    assert(out@ =~= old(out)@ + sentinel());
}

fn push_delim(out: &mut String)
    ensures
        final(out)@ == old(out)@ + delim(),
{
    push(out, '"');
    push(out, ',');
    push(out, '"');
    assert(out@ =~= old(out)@ + delim());
}

/// Appends the encoding of a field.
fn push_field(out: &mut String, v: &Vec<char>)
    ensures
        final(out)@ == old(out)@ + encode_field(v@),
{
    let ghost start = out@;
    let mut i: usize = 0;
    assert(v@.skip(0) =~= v@);
    while i < v.len()
        invariant
            i <= v.len(),
            out@ + encode_field(v@.skip(i as int)) == start + encode_field(v@),
        decreases v.len() - i,
    {
        let ghost rest = v@.skip(i as int);
        let ghost before = out@;
        assert(rest.drop_first() =~= v@.skip(i + 1));
        assert(rest[0] == v@[i as int]);
        if v[i] == '\r' && i + 1 < v.len() && v[i + 1] == '\n' {
            assert(rest.skip(2) =~= v@.skip(i + 2));
            assert(encode_field(rest) == sentinel() + encode_field(v@.skip(i + 2)));
            push_sentinel(out);
            assert(out@ + encode_field(v@.skip(i + 2)) =~= before + encode_field(rest));
            i = i + 2;
        } else {
            let c = v[i];
            if c == '"' {
                push(out, '\\');
                push(out, '"');
                assert(encode_field(rest) == seq!['\\', '"'] + encode_field(v@.skip(i + 1)));
            } else if c == '\n' {
                push_sentinel(out);
                assert(encode_field(rest) == sentinel() + encode_field(v@.skip(i + 1)));
            } else {
                push(out, c);
                assert(encode_field(rest) == seq![c] + encode_field(v@.skip(i + 1)));
            }
            assert(out@ + encode_field(v@.skip(i + 1)) =~= before + encode_field(rest));
            i = i + 1;
        }
    }
    assert(v@.skip(i as int) =~= seq![]);
    assert(out@ =~= start + encode_field(v@));
}

fn slice_of(v: &Vec<char>, lo: usize, hi: usize) -> (r: Vec<char>)
    requires
        lo <= hi <= v.len(),
    ensures
        r@ == v@.subrange(lo as int, hi as int),
{
    let mut r: Vec<char> = Vec::new();
    let mut i: usize = lo;
    while i < hi
        invariant
            lo <= i <= hi <= v.len(),
            r@ == v@.subrange(lo as int, i as int),
        decreases hi - i,
    {
        r.push(v[i]);
        i = i + 1;
        assert(r@ =~= v@.subrange(lo as int, i as int));
    }
    r
}

fn sentinel_at(v: &Vec<char>, i: usize) -> (r: bool)
    requires
        i <= v.len(),
    ensures
        r == (v@.skip(i as int).len() >= 9 && v@.skip(i as int).take(9) == sentinel()),
{
    let ghost rest = v@.skip(i as int);
    if v.len() - i < 9 {
        return false;
    }
    let r = v[i] == '<' && v[i + 1] == 'N' && v[i + 2] == 'E' && v[i + 3] == 'W' && v[i + 4] == 'L'
        && v[i + 5] == 'I' && v[i + 6] == 'N' && v[i + 7] == 'E' && v[i + 8] == '>';
    if r {
        assert(rest.take(9) =~= sentinel());
    } else {
        assert(rest.take(9) != sentinel()) by {
            if rest.take(9) == sentinel() {
                assert(rest.take(9)[0] == '<' && rest.take(9)[1] == 'N' && rest.take(9)[2] == 'E');
                assert(rest.take(9)[3] == 'W' && rest.take(9)[4] == 'L' && rest.take(9)[5] == 'I');
                assert(rest.take(9)[6] == 'N' && rest.take(9)[7] == 'E' && rest.take(9)[8] == '>');
            }
        }
    }
    r
}

fn restore_newlines_in(v: &Vec<char>) -> (r: Vec<char>)
    ensures
        r@ == restore_newlines(v@),
{
    let mut out: Vec<char> = Vec::new();
    let mut i: usize = 0;
    assert(v@.skip(0) =~= v@);
    while i < v.len()
        invariant
            i <= v.len(),
            out@ + restore_newlines(v@.skip(i as int)) == restore_newlines(v@),
        decreases v.len() - i,
    {
        let ghost rest = v@.skip(i as int);
        let ghost before = out@;
        if sentinel_at(v, i) {
            assert(rest.skip(9) =~= v@.skip(i + 9));
            out.push('\n');
            assert(out@ + restore_newlines(v@.skip(i + 9)) =~= before + restore_newlines(rest));
            i = i + 9;
        } else {
            assert(rest.drop_first() =~= v@.skip(i + 1));
            out.push(v[i]);
            assert(out@ + restore_newlines(v@.skip(i + 1)) =~= before + restore_newlines(rest));
            i = i + 1;
        }
    }
    assert(v@.skip(i as int) =~= seq![]);
    assert(out@ =~= restore_newlines(v@));
    out
}

fn unescape_in(v: &Vec<char>) -> (r: Vec<char>)
    ensures
        r@ == unescape(v@),
{
    let mut out: Vec<char> = Vec::new();
    let mut i: usize = 0;
    assert(v@.skip(0) =~= v@);
    while i < v.len()
        invariant
            i <= v.len(),
            out@ + unescape(v@.skip(i as int)) == unescape(v@),
        decreases v.len() - i,
    {
        let ghost rest = v@.skip(i as int);
        let ghost before = out@;
        if i + 1 < v.len() && v[i] == '\\' && v[i + 1] == '"' {
            assert(rest.skip(2) =~= v@.skip(i + 2));
            out.push('"');
            assert(out@ + unescape(v@.skip(i + 2)) =~= before + unescape(rest));
            i = i + 2;
        } else {
            assert(rest.drop_first() =~= v@.skip(i + 1));
            out.push(v[i]);
            assert(out@ + unescape(v@.skip(i + 1)) =~= before + unescape(rest));
            i = i + 1;
        }
    }
    assert(v@.skip(i as int) =~= seq![]);
    assert(out@ =~= unescape(v@));
    out
}

/// `first_delim` is the position of the leftmost separator.
pub proof fn lemma_first_delim_at(s: Seq<char>, j: int)
    requires
        0 <= j,
        forall|p: int| 0 <= p < j ==> !delim_at(s, p),
    ensures
        delim_at(s, j) ==> first_delim(s) == j,
        j + 3 > s.len() ==> first_delim(s) == -1,
    decreases s.len(),
{
    if s.len() >= 3 && !delim_at(s, 0) {
        let t = s.drop_first();
        assert forall|p: int| 0 <= p < j - 1 implies !delim_at(t, p) by {
            assert(!delim_at(s, p + 1));
        }
        if j >= 1 {
            lemma_first_delim_at(t, j - 1);
            if delim_at(s, j) {
                assert(delim_at(t, j - 1));
            }
        } else {
            assert(!delim_at(s, 0));
        }
    }
}

fn find_delim(v: &Vec<char>) -> (r: Option<usize>)
    ensures
        r is None ==> first_delim(v@) < 0,
        r is Some ==> first_delim(v@) == r->0 && delim_at(v@, r->0 as int),
{
    let mut j: usize = 0;
    while v.len() - j >= 3
        invariant
            j <= v.len(),
            forall|p: int| 0 <= p < j ==> !delim_at(v@, p),
        decreases v.len() - j,
    {
        if v[j] == '"' && v[j + 1] == ',' && v[j + 2] == '"' {
            proof {
                lemma_first_delim_at(v@, j as int);
            }
            return Some(j);
        }
        j = j + 1;
    }
    proof {
        lemma_first_delim_at(v@, j as int);
    }
    None
}

pub open spec fn record_view(r: Result<Entry, RecordError>) -> Result<EntryView, RecordError> {
    match r {
        Ok(e) => Ok(e@),
        Err(x) => Err(x),
    }
}

/// `last_delim` is the position of the rightmost separator.
pub proof fn lemma_last_delim_at(s: Seq<char>, j: int)
    requires
        j <= s.len() - 3,
        forall|p: int| j < p <= s.len() - 3 ==> !delim_at(s, p),
    ensures
        j >= 0 && delim_at(s, j) ==> last_delim(s) == j,
        j < 0 ==> last_delim(s) == -1,
    decreases s.len(),
{
    if s.len() >= 3 && j < s.len() - 3 {
        let t = s.drop_last();
        assert(!delim_at(s, s.len() - 3));
        assert forall|p: int| j < p <= t.len() - 3 implies !delim_at(t, p) by {
            assert(!delim_at(s, p));
        }
        lemma_last_delim_at(t, j);
        if j >= 0 && delim_at(s, j) {
            assert(delim_at(t, j));
        }
    }
}

fn find_last_delim(v: &Vec<char>) -> (r: Option<usize>)
    ensures
        r is None ==> last_delim(v@) < 0,
        r is Some ==> last_delim(v@) == r->0 && delim_at(v@, r->0 as int),
{
    if v.len() < 3 {
        return None;
    }
    let mut j: usize = v.len() - 3;
    loop
        invariant
            j <= v.len() - 3,
            v.len() >= 3,
            forall|p: int| j < p <= v.len() - 3 ==> !delim_at(v@, p),
        decreases j,
    {
        if v[j] == '"' && v[j + 1] == ',' && v[j + 2] == '"' {
            proof {
                lemma_last_delim_at(v@, j as int);
            }
            return Some(j);
        }
        if j == 0 {
            proof {
                lemma_last_delim_at(v@, -1);
            }
            return None;
        }
        j = j - 1;
    }
}

/// Reads a record line whose terminator was stripped.
pub fn decode_chars(line: &Vec<char>) -> (r: Result<Entry, RecordError>)
    ensures
        record_view(r) == decode_record(line@),
        r is Ok ==> r->Ok_0.wf(),
{
    let n = line.len();
    if n < 2 || line[0] != '"' || line[n - 1] != '"' {
        return Err(RecordError::Unframed);
    }
    let inner = slice_of(line, 1, n - 1);
    let vals = restore_newlines_in(&inner);
    let k = match find_delim(&vals) {
        None => {
            return Err(RecordError::MissingMessage);
        },
        Some(k) => k,
    };
    let head = slice_of(&vals, 0, k);
    let rest = slice_of(&vals, k + 3, vals.len());
    assert(rest@ =~= vals@.skip(k + 3));
    assert(head@ =~= vals@.take(k as int));
    let (message, long) = match find_last_delim(&rest) {
        None => (rest, Vec::new()),
        Some(j) => {
            let m = slice_of(&rest, 0, j);
            let l = slice_of(&rest, j + 3, rest.len());
            assert(m@ =~= rest@.take(j as int));
            assert(l@ =~= rest@.skip(j + 3));
            (m, l)
        },
    };
    let ts_text = string_of(&unescape_in(&head));
    let ts = match parse_timestamp(ts_text.as_str()) {
        None => {
            return Err(RecordError::BadTimestamp);
        },
        Some(t) => t,
    };
    assert(timestamp_from_text(ts_text@) == Some(ts)) by {
        if exists|t: Timestamp| t.wf() && timestamp_text(t) == ts_text@ {
            let c = choose|t: Timestamp| t.wf() && timestamp_text(t) == ts_text@;
            assert(ts == c);
        }
    }
    let message = string_of(&unescape_in(&message));
    let u = unescape_in(&long);
    assert(long@.len() == 0 ==> unescape(long@) =~= seq![]);
    let long = if u.len() == 0 {
        None
    } else {
        Some(string_of(&u))
    };
    let e = Entry { timestamp: ts, message, long };
    assert(decode_record(line@) == Ok::<EntryView, RecordError>(e@));
    Ok(e)
}

impl std::str::FromStr for Entry {
    type Err = RecordError;

    /// Reads one line of a day file, its terminator stripped.
    fn from_str(s: &str) -> Result<Entry, RecordError> {
        Entry::from_line(s)
    }
}

impl Entry {
    /// The entry's time of day, `HH:MM`.
    pub fn timestamp_formatted(&self) -> (r: String)
        requires
            self.wf(),
        ensures
            r@ == crate::text::padded(self.timestamp.hour as nat, 2) + seq![':'] + crate::text::padded(
                self.timestamp.minute as nat,
                2,
            ),
    {
        self.timestamp.clock_text()
    }

    /// Reads one line of a day file, its terminator stripped.
    pub fn from_line(line: &str) -> (r: Result<Entry, RecordError>)
        ensures
            record_view(r) == decode_record(line@),
            r is Ok ==> r->Ok_0.wf(),
    {
        decode_chars(&chars_of(line))
    }

    /// The entry's line in a day file, terminator included.
    pub fn to_csv(&self) -> (r: String)
        requires
            self.wf(),
        ensures
            r@ == encode_line(self@),
    {
        let mut out = String::new();
        push(&mut out, '"');
        let ts = chars_of(format_timestamp(self.timestamp).as_str());
        push_chars(&mut out, &ts);
        push_delim(&mut out);
        let msg = chars_of(self.message.as_str());
        push_field(&mut out, &msg);
        push_delim(&mut out);
        let long = match &self.long {
            Some(l) => chars_of(l.as_str()),
            None => Vec::new(),
        };
        push_field(&mut out, &long);
        push(&mut out, '"');
        push(&mut out, '\n');
        assert(long@ == long_text(self@.long));
        assert(out@ =~= encode_line(self@));
        out
    }
}

} // verus!
