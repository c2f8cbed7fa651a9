//! Text shaping for showing entries.

use crate::text::{chars_of, push_chars};
use vstd::prelude::*;

verus! {

/// `s` with `prefix` in front of every line: the prefix first, and after
/// each newline.
pub open spec fn prefixed(s: Seq<char>, prefix: Seq<char>) -> Seq<char>
    decreases s.len(),
{
    if s.len() == 0 {
        prefix
    } else if s.last() == '\n' {
        prefixed(s.drop_last(), prefix) + seq!['\n'] + prefix
    } else {
        prefixed(s.drop_last(), prefix).push(s.last())
    }
}

/// Splits `long` at each newline and puts `prefix` in front of every line.
pub fn prefix_lines(long: &str, prefix: &str) -> (r: String)
    ensures
        r@ == prefixed(long@, prefix@),
{
    let s = chars_of(long);
    let p = chars_of(prefix);
    let mut out = String::new();
    push_chars(&mut out, &p);
    let mut i: usize = 0;
    assert(s@.take(0) =~= seq![]);
    while i < s.len()
        invariant
            i <= s.len(),
            s@ == long@,
            p@ == prefix@,
            out@ == prefixed(s@.take(i as int), p@),
        decreases s.len() - i,
    {
        assert(s@.take(i + 1).drop_last() =~= s@.take(i as int));
        if s[i] == '\n' {
            push_chars(&mut out, &vec!['\n']);
            push_chars(&mut out, &p);
        } else {
            push_chars(&mut out, &vec![s[i]]);
        }
        i = i + 1;
    }
    assert(s@.take(i as int) =~= s@);
    out
}

} // verus!
