//! Character-level helpers shared by the codec and the date module.

use vstd::prelude::*;

verus! {

/// Relies on `String::push`: the character is appended at the end.
#[verifier::external_body]
pub(crate) fn push_char(s: &mut String, c: char)
    ensures
        final(s)@ == old(s)@.push(c),
{
    s.push(c);
}

/// Appends every character of `v` to `s`, in order.
pub fn push_chars(s: &mut String, v: &Vec<char>)
    ensures
        final(s)@ == old(s)@ + v@,
{
    let ghost start = s@;
    let mut i: usize = 0;
    while i < v.len()
        invariant
            i <= v.len(),
            s@ == start + v@.take(i as int),
        decreases v.len() - i,
    {
        push_char(s, v[i]);
        i = i + 1;
        assert(v@.take(i as int) == v@.take(i - 1 as int).push(v@[i - 1 as int]));
    }
    assert(v@.take(i as int) == v@);
}

/// The characters of `s`, in order.
pub fn chars_of(s: &str) -> (r: Vec<char>)
    ensures
        r@ == s@,
{
    let mut r: Vec<char> = Vec::new();
    for c in it: s.chars()
        invariant
            r@ == it.seq().take(it.index() as int),
    {
        r.push(c);
    }
    r
}

/// A `String` holding the characters of `v`.
pub fn string_of(v: &Vec<char>) -> (r: String)
    ensures
        r@ == v@,
{
    let mut r = String::new();
    push_chars(&mut r, v);
    r
}

/// The decimal digit for `d`, for `d < 10`.
pub open spec fn digit_char(d: int) -> char {
    if d == 0 { '0' } else if d == 1 { '1' } else if d == 2 { '2' } else if d == 3 { '3' }
    else if d == 4 { '4' } else if d == 5 { '5' } else if d == 6 { '6' } else if d == 7 { '7' }
    else if d == 8 { '8' } else { '9' }
}

/// Decimal notation of `n`, without leading zeros.
pub open spec fn digits(n: nat) -> Seq<char>
    decreases n,
{
    if n < 10 {
        seq![digit_char(n as int)]
    } else {
        digits(n / 10).push(digit_char((n % 10) as int))
    }
}

/// Decimal notation of `n`, left-padded with zeros to at least `w` characters.
pub open spec fn padded(n: nat, w: nat) -> Seq<char> {
    let d = digits(n);
    if d.len() < w {
        Seq::new((w - d.len()) as nat, |i: int| '0') + d
    } else {
        d
    }
}

/// Decimal notation of a signed integer, with a minus sign when negative.
pub open spec fn signed_digits(v: int) -> Seq<char> {
    if v < 0 {
        seq!['-'] + digits((-v) as nat)
    } else {
        digits(v as nat)
    }
}

fn digit_of(d: u64) -> (c: char)
    requires
        d < 10,
    ensures
        c == digit_char(d as int),
{
    if d == 0 { '0' } else if d == 1 { '1' } else if d == 2 { '2' } else if d == 3 { '3' }
    else if d == 4 { '4' } else if d == 5 { '5' } else if d == 6 { '6' } else if d == 7 { '7' }
    else if d == 8 { '8' } else { '9' }
}

/// Appends the decimal notation of `n`.
pub fn push_digits(s: &mut String, n: u64)
    ensures
        final(s)@ == old(s)@ + digits(n as nat),
    decreases n,
{
    if n < 10 {
        push_char(s, digit_of(n));
        assert(s@ == old(s)@ + digits(n as nat));
    } else {
        push_digits(s, n / 10);
        push_char(s, digit_of(n % 10));
        assert(s@ == old(s)@ + digits(n as nat));
    }
}

pub proof fn lemma_digits_len(n: nat)
    ensures
        1 <= digits(n).len(),
        n < 10 ==> digits(n).len() == 1,
        n < 100 ==> digits(n).len() <= 2,
        n < 1000 ==> digits(n).len() <= 3,
        n < 10000 ==> digits(n).len() <= 4,
        n < 100000 ==> digits(n).len() <= 5,
        n < 1000000 ==> digits(n).len() <= 6,
        n < 10000000 ==> digits(n).len() <= 7,
        n < 100000000 ==> digits(n).len() <= 8,
        n < 1000000000 ==> digits(n).len() <= 9,
    decreases n,
{
    if n >= 10 {
        lemma_digits_len(n / 10);
    }
}

/// Appends the decimal notation of `n`, left-padded with zeros to `w` characters.
pub fn push_padded(s: &mut String, n: u64, w: usize)
    requires
        w <= 20,
    ensures
        final(s)@ == old(s)@ + padded(n as nat, w as nat),
{
    let ghost d = digits(n as nat);
    let mut len: usize = 1;
    let mut rest: u64 = n;
    while rest >= 10 && len < 20
        invariant
            1 <= len <= 20,
            rest <= n,
            digits(n as nat).len() == digits(rest as nat).len() + len - 1,
        decreases rest,
    {
        rest = rest / 10;
        len = len + 1;
    }
    assert(len < w ==> len == digits(n as nat).len());
    let ghost start = s@;
    let mut k: usize = len;
    while k < w
        invariant
            len <= k <= w || (w < len && k == len),
            s@ == start + Seq::new((k - len) as nat, |i: int| '0'),
        decreases w - k,
    {
        push_char(s, '0');
        k = k + 1;
        assert(s@ =~= start + Seq::new((k - len) as nat, |i: int| '0'));
    }
    push_digits(s, n);
    if len < w {
        assert(s@ =~= start + padded(n as nat, w as nat));
    } else {
        assert(s@ =~= start + padded(n as nat, w as nat));
    }
}

/// Appends the decimal notation of a signed integer.
pub fn push_signed(s: &mut String, v: i32)
    ensures
        final(s)@ == old(s)@ + signed_digits(v as int),
{
    if v < 0 {
        push_char(s, '-');
        let m: u64 = (0i64 - v as i64) as u64;
        push_digits(s, m);
        assert(s@ =~= old(s)@ + signed_digits(v as int));
    } else {
        push_digits(s, v as u64);
    }
}

pub open spec fn is_digit(c: char) -> bool {
    c == '0' || c == '1' || c == '2' || c == '3' || c == '4' || c == '5' || c == '6' || c == '7'
        || c == '8' || c == '9'
}

pub open spec fn digit_value(c: char) -> nat {
    if c == '1' { 1 } else if c == '2' { 2 } else if c == '3' { 3 } else if c == '4' { 4 }
    else if c == '5' { 5 } else if c == '6' { 6 } else if c == '7' { 7 } else if c == '8' { 8 }
    else if c == '9' { 9 } else { 0 }
}

/// The number that a run of decimal digits spells.
pub open spec fn value(s: Seq<char>) -> nat
    decreases s.len(),
{
    if s.len() == 0 {
        0
    } else {
        value(s.drop_last()) * 10 + digit_value(s.last())
    }
}

pub open spec fn all_digits(s: Seq<char>) -> bool {
    forall|i: int| 0 <= i < s.len() ==> is_digit(#[trigger] s[i])
}

/// A count written as decimal digits, with an optional leading `+`, that fits in 64 bits.
pub open spec fn count_of(s: Seq<char>) -> Option<nat> {
    let d = if s.len() > 0 && s[0] == '+' { s.drop_first() } else { s };
    if d.len() > 0 && all_digits(d) && value(d) <= u64::MAX {
        Some(value(d))
    } else {
        None
    }
}

proof fn lemma_value_prefix(s: Seq<char>, j: int)
    requires
        0 <= j <= s.len(),
    ensures
        value(s.take(j)) <= value(s),
    decreases s.len(),
{
    if j < s.len() {
        assert(s.drop_last().take(j) =~= s.take(j));
        lemma_value_prefix(s.drop_last(), j);
    } else {
        assert(s.take(j) =~= s);
    }
}

fn digit_value_of(c: char) -> (r: Option<u64>)
    ensures
        r is Some <==> is_digit(c),
        r is Some ==> r->0 == digit_value(c),
{
    if c == '0' { Some(0) } else if c == '1' { Some(1) } else if c == '2' { Some(2) }
    else if c == '3' { Some(3) } else if c == '4' { Some(4) } else if c == '5' { Some(5) }
    else if c == '6' { Some(6) } else if c == '7' { Some(7) } else if c == '8' { Some(8) }
    else if c == '9' { Some(9) } else { None }
}

/// Reads a count: decimal digits with an optional leading `+`.
pub fn parse_count(s: &Vec<char>) -> (r: Option<u64>)
    ensures
        match count_of(s@) {
            Some(n) => r == Some(n as u64),
            None => r is None,
        },
{
    let start: usize = if s.len() > 0 && s[0] == '+' { 1 } else { 0 };
    let ghost d = if s@.len() > 0 && s@[0] == '+' { s@.drop_first() } else { s@ };
    assert(d =~= s@.skip(start as int));
    if start == s.len() {
        return None;
    }
    let mut v: u64 = 0;
    let mut i: usize = start;
    while i < s.len()
        invariant
            start <= i <= s.len(),
            d =~= s@.skip(start as int),
            d == (if s@.len() > 0 && s@[0] == '+' { s@.drop_first() } else { s@ }),
            v == value(d.take(i - start)),
            all_digits(d.take(i - start)),
        decreases s.len() - i,
    {
        let k = i - start;
        assert(d.take(k + 1).drop_last() =~= d.take(k as int));
        assert(d.take(k + 1).last() == s@[i as int]);
        match digit_value_of(s[i]) {
            None => {
                assert(d[k as int] == s@[i as int]);
                assert(!all_digits(d)) by {
                    assert(!is_digit(d[k as int]));
                }
                return None;
            },
            Some(dv) => {
                if v > (u64::MAX - dv) / 10 {
                    proof {
                        lemma_value_prefix(d, k + 1);
                        assert(value(d.take(k + 1)) == value(d.take(k as int)) * 10 + dv);
                        assert(v * 10 + dv > u64::MAX) by (nonlinear_arith)
                            requires
                                v > (u64::MAX - dv) / 10,
                                dv <= 9,
                        ;
                    }
                    return None;
                }
                v = v * 10 + dv;
            },
        }
        i = i + 1;
        assert(all_digits(d.take(i - start))) by {
            assert forall|j: int| 0 <= j < d.take(i - start).len() implies is_digit(
                #[trigger] d.take(i - start)[j],
            ) by {
                if j < k {
                    assert(d.take(i - start)[j] == d.take(k as int)[j]);
                }
            }
        }
    }
    assert(d.take(i - start) =~= d);
    Some(v)
}

proof fn lemma_digit_char(d: int)
    requires
        0 <= d < 10,
    ensures
        is_digit(digit_char(d)),
        digit_value(digit_char(d)) == d,
{
}

/// Decimal notation is made of digits and spells the number back.
pub proof fn lemma_digits_value(n: nat)
    ensures
        all_digits(digits(n)),
        value(digits(n)) == n,
    decreases n,
{
    if n < 10 {
        lemma_digit_char(n as int);
        assert(digits(n).drop_last() =~= seq![]);
        assert(value(digits(n)) == value(Seq::<char>::empty()) * 10 + n);
    } else {
        lemma_digits_value(n / 10);
        lemma_digit_char((n % 10) as int);
        assert(digits(n).drop_last() =~= digits(n / 10));
        assert(digits(n).last() == digit_char((n % 10) as int));
        assert(n == (n / 10) * 10 + n % 10);
    }
}

proof fn lemma_value_zeros(k: nat, d: Seq<char>)
    ensures
        value(Seq::new(k, |i: int| '0') + d) == value(d),
    decreases d.len() + k,
{
    let z = Seq::new(k, |i: int| '0');
    if d.len() == 0 {
        assert(z + d =~= z);
        if k > 0 {
            assert(z.drop_last() =~= Seq::new((k - 1) as nat, |i: int| '0'));
            lemma_value_zeros((k - 1) as nat, seq![]);
            assert(Seq::new((k - 1) as nat, |i: int| '0') + Seq::<char>::empty() =~= Seq::new((k - 1) as nat, |i: int| '0'));
        }
    } else {
        assert((z + d).drop_last() =~= z + d.drop_last());
        lemma_value_zeros(k, d.drop_last());
    }
}

/// Zero-padded notation is made of digits, spells the number back, and is
/// exactly `w` long where the number has at most `w` digits.
pub proof fn lemma_padded(n: nat, w: nat)
    ensures
        all_digits(padded(n, w)),
        value(padded(n, w)) == n,
        padded(n, w).len() >= w,
        digits(n).len() <= w ==> padded(n, w).len() == w,
{
    lemma_digits_value(n);
    let d = digits(n);
    if d.len() < w {
        lemma_value_zeros((w - d.len()) as nat, d);
        let p = padded(n, w);
        assert forall|i: int| 0 <= i < p.len() implies is_digit(#[trigger] p[i]) by {
            if i >= w - d.len() {
                assert(p[i] == d[i - (w - d.len())]);
            }
        }
    }
}

} // verus!
