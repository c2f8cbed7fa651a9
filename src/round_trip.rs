//! What survives a trip through a day file: an entry written and read back
//! is the entry itself, but for the cases the line format cannot tell apart.

use crate::codec::{
    decode_record, delim, delim_at, encode_field, encode_line, encode_record, first_delim, framed,
    last_delim, long_text, restore_newlines, sentinel, timestamp_from_text, unescape, EntryView,
    RecordError,
};
use crate::date::{is_stamp_char, lemma_timestamp_chars, lemma_timestamp_text_injective, timestamp_text, Timestamp};
use crate::store::{decode_lines, encode_all, first_newline, list_spec, prepend, split_lines, MalformedRecord};
use vstd::prelude::*;

verus! {

/// Each `"` becomes `\"`.
pub open spec fn escape_quotes(s: Seq<char>) -> Seq<char>
    decreases s.len(),
{
    if s.len() == 0 {
        seq![]
    } else if s[0] == '"' {
        seq!['\\', '"'] + escape_quotes(s.drop_first())
    } else {
        seq![s[0]] + escape_quotes(s.drop_first())
    }
}

/// The text holds the newline marker verbatim.
pub open spec fn has_sentinel(s: Seq<char>) -> bool {
    exists|i: int| 0 <= i && i + 9 <= s.len() && #[trigger] s.subrange(i, i + 9) == sentinel()
}

/// The text holds a `\r\n` pair.
pub open spec fn has_crlf(s: Seq<char>) -> bool {
    exists|i: int| 0 <= i && i + 1 < s.len() && #[trigger] s[i] == '\r' && s[i + 1] == '\n'
}

/// An entry that the line format carries without change: a valid timestamp,
/// and neither the newline marker nor a `\r\n` pair, which is written as a
/// plain newline, in message or long text.
pub open spec fn representable(e: EntryView) -> bool {
    &&& e.timestamp.wf()
    &&& !has_sentinel(e.message)
    &&& !has_crlf(e.message)
    &&& !has_sentinel(long_text(e.long))
    &&& !has_crlf(long_text(e.long))
}

/// The entry as it reads back: an empty long text reads as none.
pub open spec fn stored(e: EntryView) -> EntryView {
    EntryView {
        timestamp: e.timestamp,
        message: e.message,
        long: if long_text(e.long).len() == 0 { None } else { e.long },
    }
}

/// A field encoded character by character: each `"` becomes `\"`, each
/// newline the marker.
spec fn encode_plain(s: Seq<char>) -> Seq<char>
    decreases s.len(),
{
    if s.len() == 0 {
        seq![]
    } else if s[0] == '"' {
        seq!['\\', '"'] + encode_plain(s.drop_first())
    } else if s[0] == '\n' {
        sentinel() + encode_plain(s.drop_first())
    } else {
        seq![s[0]] + encode_plain(s.drop_first())
    }
}

proof fn lemma_field_is_plain(s: Seq<char>)
    requires
        !has_crlf(s),
    ensures
        encode_field(s) == encode_plain(s),
    decreases s.len(),
{
    if s.len() > 0 {
        let t = s.drop_first();
        assert(!has_crlf(t)) by {
            if has_crlf(t) {
                let i = choose|i: int| 0 <= i && i + 1 < t.len() && #[trigger] t[i] == '\r' && t[i + 1] == '\n';
                assert(s[i + 1] == '\r' && s[i + 2] == '\n');
            }
        }
        lemma_field_is_plain(t);
        if s.len() >= 2 && s[0] == '\r' && s[1] == '\n' {
            assert(s[0] == '\r' && s[1] == '\n');
        }
    }
}

/// A text that a message field starts with, where the text holds none of
/// `\`, `<` and `"`, is a text that the message starts with.
proof fn lemma_encoded_prefix(x: Seq<char>, y: Seq<char>, w: Seq<char>)
    requires
        y.len() == 0 || y[0] == '"',
        forall|i: int| 0 <= i < w.len() ==> w[i] != '\\' && w[i] != '<' && w[i] != '"',
        (encode_plain(x) + y).len() >= w.len(),
        (encode_plain(x) + y).take(w.len() as int) == w,
    ensures
        x.len() >= w.len(),
        x.take(w.len() as int) == w,
    decreases w.len(),
{
    let s = encode_plain(x) + y;
    if w.len() > 0 {
        assert(s[0] == w[0]);
        if x.len() == 0 {
            assert(s == y);
        } else {
            let x1 = x.drop_first();
            if x[0] == '"' {
                assert(s[0] == '\\');
            } else if x[0] == '\n' {
                assert(s[0] == '<');
            } else {
                assert(s == seq![x[0]] + (encode_plain(x1) + y));
                let w1 = w.drop_first();
                assert((encode_plain(x1) + y).take(w1.len() as int) =~= w1) by {
                    assert forall|i: int| 0 <= i < w1.len() implies (encode_plain(x1) + y)[i] == w1[i] by {
                        assert(s[i + 1] == w[i + 1]);
                    }
                }
                lemma_encoded_prefix(x1, y, w1);
                assert(x.take(w.len() as int) =~= w) by {
                    assert forall|i: int| 0 <= i < w.len() implies x[i] == w[i] by {
                        if i > 0 {
                            assert(x1.take(w1.len() as int)[i - 1] == w1[i - 1]);
                        }
                    }
                }
            }
        }
    }
}

/// Restoring newlines in a text with no `<` changes nothing.
proof fn lemma_restore_plain(x: Seq<char>, y: Seq<char>)
    requires
        forall|i: int| 0 <= i < x.len() ==> x[i] != '<',
    ensures
        restore_newlines(x + y) == x + restore_newlines(y),
    decreases x.len(),
{
    if x.len() > 0 {
        let s = x + y;
        assert(s[0] == x[0]);
        assert(!(s.len() >= 9 && s.take(9) == sentinel())) by {
            if s.len() >= 9 && s.take(9) == sentinel() {
                assert(s.take(9)[0] == s[0]);
            }
        }
        assert(s.drop_first() =~= x.drop_first() + y);
        lemma_restore_plain(x.drop_first(), y);
        assert(x + restore_newlines(y) =~= seq![x[0]] + (x.drop_first() + restore_newlines(y)));
    } else {
        assert(x + y =~= y);
        assert(x + restore_newlines(y) =~= restore_newlines(y));
    }
}

/// Restoring newlines in an encoded message gives back the message with
/// its quotes still escaped.
proof fn lemma_restore_message(m: Seq<char>, y: Seq<char>)
    requires
        !has_sentinel(m),
        y.len() == 0 || y[0] == '"',
    ensures
        restore_newlines(encode_plain(m) + y) == escape_quotes(m) + restore_newlines(y),
    decreases m.len(),
{
    if m.len() == 0 {
        assert(encode_plain(m) + y =~= y);
        assert(escape_quotes(m) + restore_newlines(y) =~= restore_newlines(y));
    } else {
        let m1 = m.drop_first();
        assert(!has_sentinel(m1)) by {
            if has_sentinel(m1) {
                let i = choose|i: int| 0 <= i && i + 9 <= m1.len() && #[trigger] m1.subrange(i, i + 9) == sentinel();
                let j = i + 1;
                assert(m.subrange(j, j + 9) =~= m1.subrange(i, i + 9));
            }
        }
        lemma_restore_message(m1, y);
        let rest = encode_plain(m1) + y;
        let s = encode_plain(m) + y;
        if m[0] == '\n' {
            assert(s =~= sentinel() + rest);
            assert(s.take(9) =~= sentinel());
            assert(s.skip(9) =~= rest);
            assert(escape_quotes(m) + restore_newlines(y) =~= seq!['\n'] + (escape_quotes(m1) + restore_newlines(y)));
        } else if m[0] == '"' {
            assert(s =~= seq!['\\'] + (seq!['"'] + rest));
            assert(!(s.len() >= 9 && s.take(9) == sentinel())) by {
                if s.len() >= 9 && s.take(9) == sentinel() {
                    assert(s.take(9)[0] == s[0]);
                }
            }
            assert(s.drop_first() =~= seq!['"'] + rest);
            lemma_restore_plain(seq!['"'], rest);
            assert(escape_quotes(m) + restore_newlines(y) =~= seq!['\\', '"'] + (escape_quotes(m1) + restore_newlines(y)));
        } else {
            assert(s =~= seq![m[0]] + rest);
            assert(s.drop_first() =~= rest);
            assert(!(s.len() >= 9 && s.take(9) == sentinel())) by {
                if s.len() >= 9 && s.take(9) == sentinel() {
                    assert(s[0] == s.take(9)[0]);
                    let w = sentinel().drop_first();
                    assert(rest.take(8) =~= w) by {
                        assert forall|i: int| 0 <= i < 8 implies rest[i] == w[i] by {
                            assert(s[i + 1] == s.take(9)[i + 1]);
                        }
                    }
                    lemma_encoded_prefix(m1, y, w);
                    let z: int = 0;
                    assert(m.subrange(z, z + 9) =~= sentinel()) by {
                        assert forall|i: int| 0 <= i < 9 implies m[i] == sentinel()[i] by {
                            if i > 0 {
                                assert(m1.take(8)[i - 1] == w[i - 1]);
                            }
                        }
                    }
                    assert(has_sentinel(m));
                }
            }
            assert(escape_quotes(m) + restore_newlines(y) =~= seq![m[0]] + (escape_quotes(m1) + restore_newlines(y)));
        }
    }
}

proof fn lemma_unescape_escape(x: Seq<char>)
    ensures
        unescape(escape_quotes(x)) == x,
        escape_quotes(x).len() > 0 ==> escape_quotes(x)[0] != '"',
    decreases x.len(),
{
    if x.len() > 0 {
        let x1 = x.drop_first();
        lemma_unescape_escape(x1);
        let e1 = escape_quotes(x1);
        let e = escape_quotes(x);
        if x[0] == '"' {
            assert(e.skip(2) =~= e1);
        } else {
            assert(e.drop_first() =~= e1);
            if x[0] == '\\' && e1.len() > 0 {
                assert(e[1] == e1[0]);
            }
        }
        assert(x =~= seq![x[0]] + x1);
    }
}

proof fn lemma_unescape_plain(x: Seq<char>)
    requires
        forall|i: int| 0 <= i < x.len() ==> x[i] != '\\',
    ensures
        unescape(x) == x,
    decreases x.len(),
{
    if x.len() > 0 {
        lemma_unescape_plain(x.drop_first());
        assert(x =~= seq![x[0]] + x.drop_first());
    }
}

/// In an escaped text each quote follows a backslash.
proof fn lemma_escape_shape(x: Seq<char>)
    ensures
        forall|q: int| 0 <= q < escape_quotes(x).len() && #[trigger] escape_quotes(x)[q] == '"' ==> q > 0 && escape_quotes(x)[q - 1] == '\\',
    decreases x.len(),
{
    if x.len() > 0 {
        let x1 = x.drop_first();
        lemma_escape_shape(x1);
        let e1 = escape_quotes(x1);
        let e = escape_quotes(x);
        let k: int = if x[0] == '"' { 2 } else { 1 };
        assert(e.skip(k) =~= e1);
        assert forall|q: int| 0 <= q < e.len() && #[trigger] e[q] == '"' implies q > 0 && e[q - 1] == '\\' by {
            if q >= k {
                assert(e[q] == e1[q - k]);
                if q - k > 0 {
                    assert(e[q - 1] == e1[q - k - 1]);
                }
            }
        }
    }
}

/// The fields of a record come back apart: the timestamp ends at the first
/// separator, and the last separator stands between message and long text.
proof fn lemma_record_fields(ts: Seq<char>, m: Seq<char>, l: Seq<char>)
    requires
        forall|i: int| 0 <= i < ts.len() ==> ts[i] != '"',
    ensures
        ({
            let s = ts + delim() + escape_quotes(m) + delim() + escape_quotes(l);
            let rest = escape_quotes(m) + delim() + escape_quotes(l);
            &&& first_delim(s) == ts.len()
            &&& s.take(ts.len() as int) == ts
            &&& s.skip(ts.len() + 3int) == rest
            &&& last_delim(rest) == escape_quotes(m).len()
            &&& rest.take(escape_quotes(m).len() as int) == escape_quotes(m)
            &&& rest.skip(escape_quotes(m).len() + 3int) == escape_quotes(l)
        }),
{
    let em = escape_quotes(m);
    let el = escape_quotes(l);
    let rest = em + delim() + el;
    let s = ts + delim() + em + delim() + el;
    assert(s =~= ts + delim() + rest);
    assert forall|p: int| 0 <= p < ts.len() implies !delim_at(s, p) by {
        assert(s[p] == ts[p]);
    }
    crate::codec::lemma_first_delim_at(s, ts.len() as int);
    assert(delim_at(s, ts.len() as int));
    assert(s.take(ts.len() as int) =~= ts);
    assert(s.skip(ts.len() + 3int) =~= rest);
    lemma_escape_shape(l);
    let a = em.len() as int;
    assert forall|p: int| a < p <= rest.len() - 3 implies !delim_at(rest, p) by {
        if delim_at(rest, p) {
            if p == a + 1 {
                assert(rest[p] == delim()[1]);
            } else {
                let q = p + 2 - a - 3;
                assert(rest[p + 2] == el[q]);
                assert(q > 0 && el[q - 1] == '\\');
                assert(rest[p + 1] == el[q - 1]);
            }
        }
    }
    crate::codec::lemma_last_delim_at(rest, a);
    assert(delim_at(rest, a));
    assert(rest.take(a) =~= em);
    assert(rest.skip(a + 3) =~= el);
}

/// Restoring newlines in a record's fields gives them back with only their
/// quotes escaped.
proof fn lemma_restore_record(ts: Seq<char>, m: Seq<char>, l: Seq<char>)
    requires
        forall|i: int| 0 <= i < ts.len() ==> ts[i] != '<',
        !has_sentinel(m),
        !has_sentinel(l),
    ensures
        restore_newlines(ts + delim() + encode_plain(m) + delim() + encode_plain(l)) == ts
            + delim() + escape_quotes(m) + delim() + escape_quotes(l),
{
    let em = encode_plain(m);
    let el = encode_plain(l);
    let tail = delim() + el;
    lemma_restore_message(l, seq![]);
    assert(el + Seq::<char>::empty() =~= el);
    assert(restore_newlines(Seq::<char>::empty()) == Seq::<char>::empty());
    assert(escape_quotes(l) + Seq::<char>::empty() =~= escape_quotes(l));
    lemma_restore_plain(delim(), el);
    lemma_restore_message(m, tail);
    let head = ts + delim();
    assert forall|i: int| 0 <= i < head.len() implies head[i] != '<' by {
        if i < ts.len() {
            assert(head[i] == ts[i]);
        }
    }
    assert(ts + delim() + em + delim() + el =~= head + (em + tail));
    lemma_restore_plain(head, em + tail);
    assert(head + (escape_quotes(m) + (delim() + escape_quotes(l))) =~= ts + delim() + escape_quotes(m)
        + delim() + escape_quotes(l));
}

/// Decoding the record of an entry gives the entry back, an empty long
/// text reading as none.
#[verifier::rlimit(60)]
pub proof fn lemma_decode_encode(e: EntryView)
    requires
        representable(e),
    ensures
        decode_record(encode_record(e)) == Ok::<EntryView, RecordError>(stored(e)),
{
    let t = e.timestamp;
    let ts = timestamp_text(t);
    let m = e.message;
    let l = long_text(e.long);
    lemma_timestamp_chars(t);
    assert forall|i: int| 0 <= i < ts.len() implies ts[i] != '"' && ts[i] != '<' && ts[i] != '\\' by {
        assert(is_stamp_char(ts[i]));
    }
    lemma_field_is_plain(m);
    lemma_field_is_plain(l);
    let em = encode_plain(m);
    let el = encode_plain(l);
    let line = encode_record(e);
    let inner = ts + delim() + em + delim() + el;
    assert(line =~= seq!['"'] + inner + seq!['"']);
    assert(framed(line));
    assert(line.subrange(1, line.len() - 1) =~= inner);
    lemma_restore_record(ts, m, l);
    let vals = ts + delim() + escape_quotes(m) + delim() + escape_quotes(l);
    lemma_record_fields(ts, m, l);
    lemma_unescape_plain(ts);
    lemma_unescape_escape(m);
    lemma_unescape_escape(l);
    assert(timestamp_from_text(ts) == Some(t)) by {
        assert(t.wf() && timestamp_text(t) == ts);
        let c = choose|c: Timestamp| c.wf() && timestamp_text(c) == ts;
        lemma_timestamp_text_injective(c, t);
    }
}

proof fn lemma_message_has_no_newline(s: Seq<char>)
    ensures
        forall|i: int| 0 <= i < encode_plain(s).len() ==> #[trigger] encode_plain(s)[i] != '\n',
    decreases s.len(),
{
    if s.len() > 0 {
        let s1 = s.drop_first();
        lemma_message_has_no_newline(s1);
        let e = encode_plain(s);
        let e1 = encode_plain(s1);
        let k: int = if s[0] == '"' { 2 } else if s[0] == '\n' { 9 } else { 1 };
        assert(e.skip(k) =~= e1);
        assert forall|i: int| 0 <= i < e.len() implies #[trigger] e[i] != '\n' by {
            if i >= k {
                assert(e[i] == e1[i - k]);
            }
        }
    }
}

proof fn lemma_record_has_no_newline(e: EntryView)
    requires
        representable(e),
    ensures
        forall|i: int| 0 <= i < encode_record(e).len() ==> #[trigger] encode_record(e)[i] != '\n',
{
    let ts = timestamp_text(e.timestamp);
    let em = encode_plain(e.message);
    let l = long_text(e.long);
    lemma_field_is_plain(e.message);
    lemma_field_is_plain(l);
    let el = encode_plain(l);
    lemma_timestamp_chars(e.timestamp);
    lemma_message_has_no_newline(e.message);
    lemma_message_has_no_newline(l);
    let r = encode_record(e);
    assert forall|i: int| 0 <= i < r.len() implies #[trigger] r[i] != '\n' by {
        let a = 1 + ts.len();
        let b = a + 3 + em.len();
        let c = b + 3 + el.len();
        if 1 <= i < a {
            assert(r[i] == ts[i - 1]);
            assert(is_stamp_char(ts[i - 1]));
        } else if a + 3 <= i < b {
            assert(r[i] == em[i - a - 3]);
        } else if b + 3 <= i < c {
            assert(r[i] == el[i - b - 3]);
        }
    }
}

/// Appending an entry to a day that holds no entries yet, absent or empty,
/// and listing the day, gives that entry alone.
pub proof fn lemma_append_then_list(e: EntryView, before: Option<Seq<char>>)
    requires
        representable(e),
        before is None || before == Some(Seq::<char>::empty()),
    ensures
        list_spec(Some(long_text(before) + encode_line(e))) == Ok::<Seq<EntryView>, MalformedRecord>(
            seq![stored(e)],
        ),
{
    assert(long_text(before) + encode_line(e) =~= encode_line(e));
    lemma_line_decodes(e, 1);
}

/// `first_newline` finds the leftmost newline.
proof fn lemma_first_newline_found(s: Seq<char>)
    ensures
        first_newline(s) >= 0 ==> first_newline(s) < s.len() && s[first_newline(s)] == '\n' && forall|p: int|
            0 <= p < first_newline(s) ==> s[p] != '\n',
        first_newline(s) < 0 ==> forall|p: int| 0 <= p < s.len() ==> s[p] != '\n',
    decreases s.len(),
{
    if s.len() > 0 && s[0] != '\n' {
        let t = s.drop_first();
        lemma_first_newline_found(t);
        assert forall|p: int| 0 < p < s.len() && s[p] == '\n' implies first_newline(t) >= 0 && p - 1 >= first_newline(t) by {
            assert(t[p - 1] == '\n');
        }
    }
}

/// Text that ends with a newline splits apart from what follows it.
proof fn lemma_split_after_newline(c: Seq<char>, x: Seq<char>)
    requires
        c.len() == 0 || c.last() == '\n',
    ensures
        split_lines(c + x) == split_lines(c).drop_last() + split_lines(x),
        split_lines(c).len() >= 1,
        split_lines(c).last() == Seq::<char>::empty(),
    decreases c.len(),
{
    if c.len() == 0 {
        assert(c + x =~= x);
        assert(first_newline(c) == -1);
        assert(split_lines(c) == seq![c]);
        assert(split_lines(c).drop_last() + split_lines(x) =~= split_lines(x));
    } else {
        lemma_first_newline_found(c);
        let k = first_newline(c);
        assert(k >= 0) by {
            if k < 0 {
                assert(c[c.len() - 1] != '\n');
            }
        }
        let s = c + x;
        crate::store::lemma_first_newline(s, k);
        assert(s[k] == c[k]);
        let c1 = c.skip(k + 1);
        assert(s.skip(k + 1) =~= c1 + x);
        assert(s.take(k) =~= c.take(k));
        assert(c1.len() == 0 || c1.last() == '\n') by {
            if c1.len() > 0 {
                assert(c1.last() == c.last());
            }
        }
        lemma_split_after_newline(c1, x);
        assert(split_lines(c) == seq![c.take(k)] + split_lines(c1));
        assert(split_lines(s) == seq![c.take(k)] + split_lines(c1 + x));
        assert((seq![c.take(k)] + split_lines(c1)).drop_last() =~= seq![c.take(k)] + split_lines(c1).drop_last());
        assert(split_lines(s) =~= split_lines(c).drop_last() + split_lines(x));
        assert(split_lines(c).last() == split_lines(c1).last());
    }
}

pub open spec fn then_decode(
    a: Result<Seq<EntryView>, MalformedRecord>,
    b: Result<Seq<EntryView>, MalformedRecord>,
) -> Result<Seq<EntryView>, MalformedRecord> {
    match a {
        Ok(es) => prepend(es, b),
        Err(m) => Err(m),
    }
}

/// Decoding two runs of lines is decoding the first, then the second.
proof fn lemma_decode_concat(a: Seq<Seq<char>>, b: Seq<Seq<char>>, first: int)
    ensures
        decode_lines(a + b, first) == then_decode(decode_lines(a, first), decode_lines(b, first + a.len())),
    decreases a.len(),
{
    if a.len() == 0 {
        assert(a + b =~= b);
        match decode_lines(b, first) {
            Ok(es) => {
                assert(Seq::<EntryView>::empty() + es =~= es);
            },
            Err(_) => {},
        }
    } else {
        assert((a + b).drop_first() =~= a.drop_first() + b);
        assert((a + b)[0] == a[0]);
        lemma_decode_concat(a.drop_first(), b, first + 1);
        match decode_lines(a.drop_first(), first + 1) {
            Ok(es) => match decode_lines(b, first + a.len()) {
                Ok(fs) => {
                    match decode_record(a[0]) {
                        Ok(e) => {
                            assert(seq![e] + (es + fs) =~= (seq![e] + es) + fs);
                        },
                        Err(_) => {},
                    }
                },
                Err(_) => {},
            },
            Err(_) => {},
        }
    }
}

/// The lines of one appended record decode to that entry alone.
proof fn lemma_line_decodes(e: EntryView, first: int)
    requires
        representable(e),
    ensures
        decode_lines(split_lines(encode_line(e)), first) == Ok::<Seq<EntryView>, MalformedRecord>(seq![stored(e)]),
{
    let r = encode_record(e);
    let c = encode_line(e);
    lemma_record_has_no_newline(e);
    crate::store::lemma_first_newline(c, r.len() as int);
    assert(c.take(r.len() as int) =~= r);
    let empty = Seq::<char>::empty();
    assert(c.skip(r.len() + 1int) =~= empty);
    assert(first_newline(empty) == -1);
    assert(split_lines(empty) == seq![empty]);
    assert(split_lines(c) == seq![r] + seq![empty]);
    let lines = split_lines(c);
    assert(lines.drop_first() =~= seq![empty]);
    assert(seq![empty].drop_first() =~= Seq::<Seq<char>>::empty());
    assert(decode_lines(Seq::<Seq<char>>::empty(), first + 2) == Ok::<Seq<EntryView>, MalformedRecord>(seq![]));
    assert(decode_lines(seq![empty], first + 1) == Ok::<Seq<EntryView>, MalformedRecord>(seq![]));
    lemma_decode_encode(e);
    assert(seq![stored(e)] + Seq::<EntryView>::empty() =~= seq![stored(e)]);
}

/// Appending an entry to a day file, which as the store writes them is
/// empty or ends with a newline, keeps its entries and adds the new one
/// after them.
pub proof fn lemma_append_keeps_entries(c: Seq<char>, es: Seq<EntryView>, e: EntryView)
    requires
        representable(e),
        c.len() == 0 || c.last() == '\n',
        list_spec(Some(c)) == Ok::<Seq<EntryView>, MalformedRecord>(es),
    ensures
        list_spec(Some(c + encode_line(e))) == Ok::<Seq<EntryView>, MalformedRecord>(es.push(stored(e))),
{
    let line = encode_line(e);
    lemma_split_after_newline(c, line);
    let before = split_lines(c).drop_last();
    let empty = Seq::<char>::empty();
    assert(split_lines(c) =~= before + seq![empty]);
    lemma_decode_concat(before, seq![empty], 1);
    assert(seq![empty].drop_first() =~= Seq::<Seq<char>>::empty());
    assert(decode_lines(Seq::<Seq<char>>::empty(), 2 + before.len() as int) == Ok::<Seq<EntryView>, MalformedRecord>(seq![]));
    assert(decode_lines(seq![empty], 1 + before.len() as int) == Ok::<Seq<EntryView>, MalformedRecord>(seq![]));
    match decode_lines(before, 1) {
        Ok(xs) => {
            assert(xs + Seq::<EntryView>::empty() =~= xs);
        },
        Err(_) => {},
    }
    assert(decode_lines(before, 1) == Ok::<Seq<EntryView>, MalformedRecord>(es));
    lemma_decode_concat(before, split_lines(line), 1);
    lemma_line_decodes(e, 1 + before.len() as int);
    assert(es + seq![stored(e)] =~= es.push(stored(e)));
}

/// Every record line ends with a newline, so a day file that the store
/// writes is empty or ends with one.
proof fn lemma_written_ends_with_newline(es: Seq<EntryView>)
    ensures
        encode_all(es).len() == 0 || encode_all(es).last() == '\n',
{
    if es.len() > 0 {
        let l = encode_line(es.last());
        assert((encode_all(es.drop_last()) + l).last() == l.last());
    }
}

/// Replacing a day's entries and listing the day gives the entries back,
/// in the given order, empty long texts reading as none.
pub proof fn lemma_set_then_list(es: Seq<EntryView>)
    requires
        forall|i: int| 0 <= i < es.len() ==> representable(#[trigger] es[i]),
    ensures
        list_spec(Some(encode_all(es))) == Ok::<Seq<EntryView>, MalformedRecord>(
            es.map_values(|e: EntryView| stored(e)),
        ),
    decreases es.len(),
{
    if es.len() == 0 {
        crate::store::lemma_set_empty_lists_empty();
        assert(es.map_values(|e: EntryView| stored(e)) =~= seq![]);
        assert(es =~= Seq::<EntryView>::empty());
    } else {
        let init = es.drop_last();
        assert forall|i: int| 0 <= i < init.len() implies representable(#[trigger] init[i]) by {
            assert(init[i] == es[i]);
        }
        lemma_set_then_list(init);
        lemma_written_ends_with_newline(init);
        assert(representable(es[es.len() - 1]));
        lemma_append_keeps_entries(encode_all(init), init.map_values(|e: EntryView| stored(e)), es.last());
        assert(init.map_values(|e: EntryView| stored(e)).push(stored(es.last())) =~= es.map_values(
            |e: EntryView| stored(e),
        ));
    }
}

} // verus!
