//! The day files: one file per date, named after it, holding one record
//! line per entry. Reading and writing the files is the caller's; the store
//! decides their names and what they hold.

use crate::codec::{decode_chars, decode_record, encode_line, Entry, EntryView, RecordError};
use crate::date::{date_text, format_date, Date};
use crate::text::{chars_of, push_chars};
use vstd::prelude::*;

verus! {

/// A line of a day file that is not a record.
#[derive(Clone, Copy, Debug, PartialEq, Eq, Structural)]
pub struct MalformedRecord {
    /// The line's number, counting from 1.
    pub line: usize,
    pub reason: RecordError,
}

/// The store rooted at one directory.
pub struct Store {
    base_dir: String,
}

pub open spec fn views(es: Seq<Entry>) -> Seq<EntryView> {
    es.map_values(|e: Entry| e@)
}

/// Where the first newline stands, or -1.
pub open spec fn first_newline(s: Seq<char>) -> int
    decreases s.len(),
{
    if s.len() == 0 {
        -1
    } else if s[0] == '\n' {
        0
    } else {
        let r = first_newline(s.drop_first());
        if r < 0 { -1 } else { r + 1 }
    }
}

/// The pieces of `s` between newlines; text after the last newline is a
/// piece too, empty where the text ends with one.
pub open spec fn split_lines(s: Seq<char>) -> Seq<Seq<char>>
    decreases s.len(),
{
    let k = first_newline(s);
    if 0 <= k < s.len() {
        seq![s.take(k)] + split_lines(s.skip(k + 1))
    } else {
        seq![s]
    }
}

/// The records of the lines, skipping empty ones; the first line is
/// number `first`. The first line that is not a record ends the reading.
pub open spec fn decode_lines(lines: Seq<Seq<char>>, first: int) -> Result<
    Seq<EntryView>,
    MalformedRecord,
>
    decreases lines.len(),
{
    if lines.len() == 0 {
        Ok(seq![])
    } else {
        let rest = decode_lines(lines.drop_first(), first + 1);
        if lines[0].len() == 0 {
            rest
        } else {
            match decode_record(lines[0]) {
                Err(x) => Err(MalformedRecord { line: first as usize, reason: x }),
                Ok(e) => match rest {
                    Ok(es) => Ok(seq![e] + es),
                    Err(m) => Err(m),
                },
            }
        }
    }
}

/// The entries of a day file; `None` stands for a file that does not exist.
pub open spec fn list_spec(contents: Option<Seq<char>>) -> Result<Seq<EntryView>, MalformedRecord> {
    match contents {
        None => Ok(seq![]),
        Some(c) => decode_lines(split_lines(c), 1),
    }
}

/// A day file that holds these entries, in this order.
pub open spec fn encode_all(es: Seq<EntryView>) -> Seq<char>
    decreases es.len(),
{
    if es.len() == 0 {
        seq![]
    } else {
        encode_all(es.drop_last()) + encode_line(es.last())
    }
}

pub open spec fn list_view(r: Result<Vec<Entry>, MalformedRecord>) -> Result<
    Seq<EntryView>,
    MalformedRecord,
> {
    match r {
        Ok(es) => Ok(views(es@)),
        Err(m) => Err(m),
    }
}

pub open spec fn prepend(
    acc: Seq<EntryView>,
    r: Result<Seq<EntryView>, MalformedRecord>,
) -> Result<Seq<EntryView>, MalformedRecord> {
    match r {
        Ok(es) => Ok(acc + es),
        Err(m) => Err(m),
    }
}

/// `first_newline` is the position of the leftmost newline.
pub proof fn lemma_first_newline(s: Seq<char>, j: int)
    requires
        0 <= j <= s.len(),
        forall|p: int| 0 <= p < j ==> s[p] != '\n',
    ensures
        j < s.len() && s[j] == '\n' ==> first_newline(s) == j,
        j == s.len() ==> first_newline(s) == -1,
    decreases s.len(),
{
    if s.len() > 0 && s[0] != '\n' {
        let t = s.drop_first();
        if j >= 1 {
            lemma_first_newline(t, j - 1);
        }
    }
}

impl Store {
    pub closed spec fn base_dir_view(&self) -> Seq<char> {
        self.base_dir@
    }

    pub fn new(base_dir: String) -> (r: Store)
        ensures
            r.base_dir_view() == base_dir@,
    {
        Store { base_dir }
    }

    /// The directory that holds the day files.
    pub fn base_dir(&self) -> (r: &str)
        ensures
            r@ == self.base_dir_view(),
    {
        self.base_dir.as_str()
    }

    /// The name of the day file of `date`, inside the base directory.
    pub fn track_file_name(&self, date: Date) -> (r: String)
        requires
            date.wf(),
        ensures
            r@ == date_text(date) + seq!['.', 'l', 'o', 'g'],
    {
        let mut r = format_date(date);
        push_chars(&mut r, &vec!['.', 'l', 'o', 'g']);
        r
    }

    /// The line to append to the day file of the entry's date.
    pub fn push_entry(&self, entry: &Entry) -> (r: String)
        requires
            entry.wf(),
        ensures
            r@ == encode_line(entry@),
    {
        entry.to_csv()
    }

    /// What a day file holds after its entries are replaced by `entries`.
    pub fn set(&self, entries: &Vec<Entry>) -> (r: String)
        requires
            forall|i: int| 0 <= i < entries.len() ==> (#[trigger] entries[i]).wf(),
        ensures
            r@ == encode_all(views(entries@)),
    {
        let mut r = String::new();
        let mut i: usize = 0;
        while i < entries.len()
            invariant
                i <= entries.len(),
                forall|k: int| 0 <= k < entries.len() ==> (#[trigger] entries[k]).wf(),
                r@ == encode_all(views(entries@.take(i as int))),
            decreases entries.len() - i,
        {
            let line = entries[i].to_csv();
            push_chars(&mut r, &chars_of(line.as_str()));
            i = i + 1;
            assert(views(entries@.take(i as int)).drop_last() =~= views(entries@.take(i - 1)));
        }
        assert(entries@.take(i as int) =~= entries@);
        r
    }

    /// The entries of a day file, in file order; `None` stands for a file
    /// that does not exist, which holds no entries.
    pub fn list(&self, contents: Option<&str>) -> (r: Result<Vec<Entry>, MalformedRecord>)
        ensures
            list_view(r) == list_spec(
                match contents {
                    Some(c) => Some(c@),
                    None => None,
                },
            ),
            r is Ok ==> forall|i: int| 0 <= i < r->Ok_0.len() ==> (#[trigger] r->Ok_0[i]).wf(),
    {
        let text = match contents {
            None => {
                let v: Vec<Entry> = Vec::new();
                assert(views(v@) =~= seq![]);
                return Ok(v);
            },
            Some(c) => chars_of(c),
        };
        let ghost whole = decode_lines(split_lines(text@), 1);
        let ghost given = match contents {
            Some(c) => Some(c@),
            None => None,
        };
        assert(whole == list_spec(given));
        let mut out: Vec<Entry> = Vec::new();
        let mut i: usize = 0;
        let mut k: usize = 0;
        assert(text@.skip(0) =~= text@);
        loop
            invariant
                k <= i <= text.len(),
                whole == list_spec(given),
                given == match contents {
                    Some(c) => Some(c@),
                    None => None::<Seq<char>>,
                },
                whole == prepend(views(out@), decode_lines(split_lines(text@.skip(i as int)), k + 1)),
                forall|m: int| 0 <= m < out.len() ==> (#[trigger] out[m]).wf(),
            decreases text.len() - i,
        {
            let ghost rest = text@.skip(i as int);
            let mut j: usize = i;
            let mut line: Vec<char> = Vec::new();
            while j < text.len() && text[j] != '\n'
                invariant
                    i <= j <= text.len(),
                    line@ == text@.subrange(i as int, j as int),
                    forall|p: int| 0 <= p < j - i ==> rest[p] != '\n',
                    rest == text@.skip(i as int),
                decreases text.len() - j,
            {
                line.push(text[j]);
                j = j + 1;
                assert(line@ =~= text@.subrange(i as int, j as int));
            }
            proof {
                lemma_first_newline(rest, j - i);
            }
            let ghost lines = split_lines(rest);
            if j < text.len() {
                assert(rest.take(j - i) =~= line@);
                assert(rest.skip(j - i + 1) =~= text@.skip(j + 1));
                assert(lines == seq![line@] + split_lines(text@.skip(j + 1)));
            } else {
                assert(rest =~= line@);
                assert(lines == seq![line@]);
            }
            assert(lines.drop_first() == if j < text.len() { split_lines(text@.skip(j + 1)) } else { seq![] });
            let ghost tail = decode_lines(lines.drop_first(), k + 2);
            assert(lines[0] == line@);
            if line.len() > 0 {
                match decode_chars(&line) {
                    Err(x) => {
                        assert(decode_lines(lines, k + 1) == Err::<Seq<EntryView>, MalformedRecord>(
                            MalformedRecord { line: (k + 1) as usize, reason: x },
                        ));
                        return Err(MalformedRecord { line: k + 1, reason: x });
                    },
                    Ok(e) => {
                        let ghost before = views(out@);
                        assert(decode_lines(lines, k + 1) == prepend(seq![e@], tail));
                        out.push(e);
                        assert(views(out@) =~= before + seq![e@]);
                        assert(prepend(before, prepend(seq![e@], tail)) == prepend(views(out@), tail)) by {
                            assert(before + (seq![e@] + tail->Ok_0) =~= views(out@) + tail->Ok_0);
                        }
                    },
                }
            } else {
                assert(decode_lines(lines, k + 1) == tail);
            }
            assert(whole == prepend(views(out@), tail));
            if j == text.len() {
                assert(decode_lines(seq![], k + 2) == Ok::<Seq<EntryView>, MalformedRecord>(seq![]));
                assert(views(out@) + seq![] =~= views(out@));
                return Ok(out);
            }
            i = j + 1;
            k = k + 1;
        }
    }
}

/// A date with no day file has no entries.
pub proof fn lemma_absent_file_is_empty()
    ensures
        list_spec(None) == Ok::<Seq<EntryView>, MalformedRecord>(seq![]),
{
}

/// Replacing a day's entries by none leaves a file with no entries.
pub proof fn lemma_set_empty_lists_empty()
    ensures
        list_spec(Some(encode_all(seq![]))) == Ok::<Seq<EntryView>, MalformedRecord>(seq![]),
{
    let c: Seq<char> = seq![];
    assert(encode_all(Seq::<EntryView>::empty()) == c);
    assert(first_newline(c) == -1);
    assert(split_lines(c) == seq![c]);
    assert(split_lines(c).drop_first() =~= Seq::<Seq<char>>::empty());
    assert(decode_lines(Seq::<Seq<char>>::empty(), 2) == Ok::<Seq<EntryView>, MalformedRecord>(seq![]));
    assert(decode_lines(split_lines(c), 1) == decode_lines(split_lines(c).drop_first(), 2));
}

} // verus!
