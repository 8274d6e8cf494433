//! Characters and strings: whitespace, trimming, searching, unsigned decimal
//! numbers, and building `String`s.

use vstd::prelude::*;

verus! {

/// The characters of Unicode's `White_Space` property, which `char::is_whitespace`
/// and `str::trim` go by.
pub open spec fn is_ws(c: char) -> bool {
    ||| ('\u{9}' <= c && c <= '\u{D}')
    ||| c == ' '
    ||| c == '\u{85}'
    ||| c == '\u{A0}'
    ||| c == '\u{1680}'
    ||| ('\u{2000}' <= c && c <= '\u{200A}')
    ||| c == '\u{2028}'
    ||| c == '\u{2029}'
    ||| c == '\u{202F}'
    ||| c == '\u{205F}'
    ||| c == '\u{3000}'
}

/// Whether `c` is a white-space character.
pub fn is_whitespace(c: char) -> (b: bool)
    ensures
        b == is_ws(c),
{
    ('\u{9}' <= c && c <= '\u{D}') || c == ' ' || c == '\u{85}' || c == '\u{A0}' || c
        == '\u{1680}' || ('\u{2000}' <= c && c <= '\u{200A}') || c == '\u{2028}' || c
        == '\u{2029}' || c == '\u{202F}' || c == '\u{205F}' || c == '\u{3000}'
}

/// `s` without its leading white space.
pub open spec fn trim_start(s: Seq<char>) -> Seq<char>
    decreases s.len(),
{
    if s.len() > 0 && is_ws(s[0]) {
        trim_start(s.drop_first())
    } else {
        s
    }
}

/// `s` without its trailing white space.
pub open spec fn trim_end(s: Seq<char>) -> Seq<char>
    decreases s.len(),
{
    if s.len() > 0 && is_ws(s.last()) {
        trim_end(s.drop_last())
    } else {
        s
    }
}

/// `s` without leading and trailing white space, as `str::trim` gives it.
pub open spec fn trim(s: Seq<char>) -> Seq<char> {
    trim_end(trim_start(s))
}

proof fn lemma_trim_start_skip(s: Seq<char>, k: int)
    requires
        0 <= k <= s.len(),
        forall|j: int| 0 <= j < k ==> is_ws(#[trigger] s[j]),
    ensures
        trim_start(s) == trim_start(s.skip(k)),
    decreases k,
{
    if k == 0 {
        assert(s.skip(0) =~= s);
    } else {
        assert(is_ws(s[0]));
        let t = s.drop_first();
        assert forall|j: int| 0 <= j < k - 1 implies is_ws(#[trigger] t[j]) by {
            assert(t[j] == s[j + 1]);
        }
        lemma_trim_start_skip(t, k - 1);
        assert(t.skip(k - 1) =~= s.skip(k));
    }
}

proof fn lemma_trim_end_take(s: Seq<char>, k: int)
    requires
        0 <= k <= s.len(),
        forall|j: int| k <= j < s.len() ==> is_ws(#[trigger] s[j]),
    ensures
        trim_end(s) == trim_end(s.take(k)),
    decreases s.len() - k,
{
    if k == s.len() {
        assert(s.take(k) =~= s);
    } else {
        assert(is_ws(s[s.len() - 1]));
        let t = s.drop_last();
        lemma_trim_end_take(t, k);
        assert(t.take(k) =~= s.take(k));
    }
}

/// Trims white space from both ends of `s[lo..hi]`: the result `(a, b)` marks
/// the trimmed span `s[a..b]`.
pub fn trim_span(s: &Vec<char>, lo: usize, hi: usize) -> (r: (usize, usize))
    requires
        lo <= hi <= s.len(),
    ensures
        lo <= r.0 <= r.1 <= hi,
        s@.subrange(r.0 as int, r.1 as int) == trim(s@.subrange(lo as int, hi as int)),
{
    let mut a: usize = lo;
    while a < hi && is_whitespace(s[a])
        invariant
            lo <= a <= hi <= s.len(),
            forall|j: int| lo <= j < a ==> is_ws(#[trigger] s@[j]),
        decreases hi - a,
    {
        a = a + 1;
    }
    let mut b: usize = hi;
    while b > a && is_whitespace(s[b - 1])
        invariant
            lo <= a <= b <= hi <= s.len(),
            forall|j: int| b <= j < hi ==> is_ws(#[trigger] s@[j]),
        decreases b - a,
    {
        b = b - 1;
    }
    proof {
        let sub = s@.subrange(lo as int, hi as int);
        assert forall|j: int| 0 <= j < a - lo implies is_ws(#[trigger] sub[j]) by {
            assert(sub[j] == s@[lo + j]);
        }
        lemma_trim_start_skip(sub, a - lo);
        let t = sub.skip(a - lo);
        assert(t =~= s@.subrange(a as int, hi as int));
        if a < hi {
            assert(t[0] == s@[a as int]);
        }
        assert(trim_start(t) == t);
        assert forall|j: int| b - a <= j < t.len() implies is_ws(#[trigger] t[j]) by {
            assert(t[j] == s@[a + j]);
        }
        lemma_trim_end_take(t, b - a);
        let u = t.take(b - a);
        assert(u =~= s@.subrange(a as int, b as int));
        if b > a {
            assert(u.last() == s@[b - 1]);
        }
        assert(trim_end(u) == u);
    }
    (a, b)
}

/// The position of the first `c` in `s`, if there is one.
pub open spec fn first_index(s: Seq<char>, c: char) -> Option<nat>
    decreases s.len(),
{
    if s.len() == 0 {
        None
    } else if s[0] == c {
        Some(0)
    } else {
        match first_index(s.drop_first(), c) {
            Some(k) => Some(k + 1),
            None => None,
        }
    }
}

/// Whether `s` holds `c`.
pub open spec fn has_char(s: Seq<char>, c: char) -> bool {
    first_index(s, c) is Some
}

/// The first position in `s` holds `c` and none before it does.
pub proof fn lemma_first_index(s: Seq<char>, c: char, i: int)
    requires
        0 <= i <= s.len(),
        forall|j: int| 0 <= j < i ==> #[trigger] s[j] != c,
    ensures
        i < s.len() && s[i] == c ==> first_index(s, c) == Some(i as nat),
        i == s.len() ==> first_index(s, c) is None,
    decreases i,
{
    if i > 0 {
        let t = s.drop_first();
        assert(s[0] != c);
        assert forall|j: int| 0 <= j < i - 1 implies #[trigger] t[j] != c by {
            assert(t[j] == s[j + 1]);
        }
        lemma_first_index(t, c, i - 1);
        if i < s.len() {
            assert(t[i - 1] == s[i]);
        }
    }
}

/// A first-index result fixes the character there, and no earlier one is `c`.
pub proof fn lemma_first_index_found(s: Seq<char>, c: char)
    ensures
        first_index(s, c) matches Some(k) ==> k < s.len() && s[k as int] == c && forall|j: int|
            0 <= j < k ==> #[trigger] s[j] != c,
        first_index(s, c) is None ==> forall|j: int| 0 <= j < s.len() ==> #[trigger] s[j] != c,
    decreases s.len(),
{
    if s.len() > 0 && s[0] != c {
        let t = s.drop_first();
        lemma_first_index_found(t, c);
        assert forall|j: int| 0 < j < s.len() implies #[trigger] s[j] == t[j - 1] by {}
    }
}

/// Finds the first `c` in `s[lo..hi]`; the position returned is one in `s`.
pub fn find_char(s: &Vec<char>, lo: usize, hi: usize, c: char) -> (r: Option<usize>)
    requires
        lo <= hi <= s.len(),
    ensures
        match r {
            Some(i) => lo <= i < hi && first_index(s@.subrange(lo as int, hi as int), c) == Some(
                (i - lo) as nat,
            ),
            None => first_index(s@.subrange(lo as int, hi as int), c) is None,
        },
{
    let ghost sub = s@.subrange(lo as int, hi as int);
    let mut i: usize = lo;
    while i < hi
        invariant
            lo <= i <= hi <= s.len(),
            sub == s@.subrange(lo as int, hi as int),
            forall|j: int| 0 <= j < i - lo ==> #[trigger] sub[j] != c,
        decreases hi - i,
    {
        if s[i] == c {
            proof {
                assert(sub[i - lo] == s@[i as int]);
                lemma_first_index(sub, c, i - lo);
            }
            return Some(i);
        }
        assert(sub[i - lo] == s@[i as int]);
        i = i + 1;
    }
    proof {
        lemma_first_index(sub, c, i - lo);
    }
    None
}

/// The ways that reading an unsigned integer fails, as `core::num::IntErrorKind`
/// names them.
#[derive(Clone, Copy, Debug, PartialEq, Eq, Structural)]
pub enum IntErrorKind {
    Empty,
    InvalidDigit,
    PosOverflow,
}

/// An ASCII decimal digit.
pub open spec fn is_digit(c: char) -> bool {
    '0' <= c && c <= '9'
}

/// The value of a decimal digit.
pub open spec fn digit_value(c: char) -> nat {
    ((c as int) - 48) as nat
}

/// The value of a string of decimal digits, read from the left.
pub open spec fn digits_value(s: Seq<char>) -> nat
    decreases s.len(),
{
    if s.len() == 0 {
        0
    } else {
        digits_value(s.drop_last()) * 10 + digit_value(s.last())
    }
}

/// Reads the digits of `s` after the value `acc` read so far, failing at the first
/// character that is no digit or that takes the value above `max`.
pub open spec fn scan_digits(s: Seq<char>, acc: nat, max: nat) -> Result<nat, IntErrorKind>
    decreases s.len(),
{
    if s.len() == 0 {
        Ok(acc)
    } else if !is_digit(s[0]) {
        Err(IntErrorKind::InvalidDigit)
    } else if acc * 10 + digit_value(s[0]) > max {
        Err(IntErrorKind::PosOverflow)
    } else {
        scan_digits(s.drop_first(), acc * 10 + digit_value(s[0]), max)
    }
}

/// What `str::parse` gives for an unsigned integer type whose largest value is `max`:
/// an optional `+`, then decimal digits.
pub open spec fn parse_unsigned(s: Seq<char>, max: nat) -> Result<nat, IntErrorKind> {
    if s.len() == 0 {
        Err(IntErrorKind::Empty)
    } else if s.len() == 1 && (s[0] == '+' || s[0] == '-') {
        Err(IntErrorKind::InvalidDigit)
    } else if s[0] == '+' {
        scan_digits(s.drop_first(), 0, max)
    } else {
        scan_digits(s, 0, max)
    }
}

/// Reading digits never goes past the largest value allowed.
pub proof fn lemma_scan_digits_bound(s: Seq<char>, acc: nat, max: nat)
    requires
        acc <= max,
    ensures
        scan_digits(s, acc, max) matches Ok(v) ==> v <= max,
    decreases s.len(),
{
    if s.len() > 0 && is_digit(s[0]) && acc * 10 + digit_value(s[0]) <= max {
        lemma_scan_digits_bound(s.drop_first(), acc * 10 + digit_value(s[0]), max);
    }
}

/// A number that reads is no larger than the largest value allowed.
pub proof fn lemma_parse_unsigned_bound(s: Seq<char>, max: nat)
    ensures
        parse_unsigned(s, max) matches Ok(v) ==> v <= max,
{
    lemma_scan_digits_bound(s, 0, max);
    if s.len() > 0 {
        lemma_scan_digits_bound(s.drop_first(), 0, max);
    }
}

/// The value of a decimal digit character.
pub fn digit_of(c: char) -> (d: u32)
    requires
        is_digit(c),
    ensures
        d == digit_value(c),
        d < 10,
{
    (c as u32) - 48
}

/// Reads `s[lo..hi]` as an unsigned decimal integer no larger than `max`, as
/// `str::parse` does.
pub fn parse_unsigned_span(s: &Vec<char>, lo: usize, hi: usize, max: u32) -> (r: Result<
    u32,
    IntErrorKind,
>)
    requires
        lo <= hi <= s.len(),
    ensures
        match r {
            Ok(v) => parse_unsigned(s@.subrange(lo as int, hi as int), max as nat) == Ok::<
                nat,
                IntErrorKind,
            >(v as nat),
            Err(e) => parse_unsigned(s@.subrange(lo as int, hi as int), max as nat) == Err::<
                nat,
                IntErrorKind,
            >(e),
        },
        r matches Ok(v) ==> v <= max,
{
    let ghost sub = s@.subrange(lo as int, hi as int);
    if lo == hi {
        return Err(IntErrorKind::Empty);
    }
    if hi - lo == 1 && (s[lo] == '+' || s[lo] == '-') {
        return Err(IntErrorKind::InvalidDigit);
    }
    let start: usize = if s[lo] == '+' {
        lo + 1
    } else {
        lo
    };
    assert(sub[0] == s@[lo as int]);
    let ghost digits = s@.subrange(start as int, hi as int);
    assert(s@[lo as int] == '+' ==> digits =~= sub.drop_first());
    assert(s@[lo as int] != '+' ==> digits =~= sub);
    assert(parse_unsigned(sub, max as nat) == scan_digits(digits, 0, max as nat));
    assert(s@.subrange(start as int, hi as int) == digits);
    let mut acc: u64 = 0;
    let mut i: usize = start;
    while i < hi
        invariant
            start <= i <= hi <= s.len(),
            acc <= max,
            digits == s@.subrange(start as int, hi as int),
            parse_unsigned(s@.subrange(lo as int, hi as int), max as nat) == scan_digits(
                digits,
                0,
                max as nat,
            ),
            scan_digits(digits, 0, max as nat) == scan_digits(
                s@.subrange(i as int, hi as int),
                acc as nat,
                max as nat,
            ),
        decreases hi - i,
    {
        let c = s[i];
        let ghost rest = s@.subrange(i as int, hi as int);
        assert(rest[0] == c);
        assert(rest.drop_first() =~= s@.subrange(i + 1, hi as int));
        if !('0' <= c && c <= '9') {
            return Err(IntErrorKind::InvalidDigit);
        }
        let d: u32 = digit_of(c);
        let next: u64 = acc * 10 + d as u64;
        if next > max as u64 {
            return Err(IntErrorKind::PosOverflow);
        }
        acc = next;
        i = i + 1;
    }
    assert(s@.subrange(i as int, hi as int).len() == 0);
    Ok(acc as u32)
}

/// The character of the decimal digit `d`.
pub open spec fn digit_char(d: nat) -> char {
    (d + 48) as char
}

/// The decimal form of `n`, without leading zeros.
pub open spec fn decimal(n: nat) -> Seq<char>
    decreases n,
{
    if n < 10 {
        seq![digit_char(n)]
    } else {
        decimal(n / 10).push(digit_char(n % 10))
    }
}

/// The decimal form of a number is a non-empty string of digits.
pub proof fn lemma_decimal_digits(n: nat)
    ensures
        decimal(n).len() >= 1,
        forall|i: int| 0 <= i < decimal(n).len() ==> is_digit(#[trigger] decimal(n)[i]),
    decreases n,
{
    if n >= 10 {
        lemma_decimal_digits(n / 10);
        let d = decimal(n / 10);
        assert forall|i: int| 0 <= i < decimal(n).len() implies is_digit(
            #[trigger] decimal(n)[i],
        ) by {
            if i < d.len() {
                assert(decimal(n)[i] == d[i]);
            }
        }
    }
}

/// A string that neither starts nor ends with white space is its own trim.
pub proof fn lemma_trim_plain(s: Seq<char>)
    requires
        s.len() > 0,
        !is_ws(s[0]),
        !is_ws(s.last()),
    ensures
        trim(s) == s,
{
}

/// A string without `c` has no first `c`.
pub proof fn lemma_no_char(s: Seq<char>, c: char)
    requires
        forall|i: int| 0 <= i < s.len() ==> #[trigger] s[i] != c,
    ensures
        first_index(s, c) is None,
{
    lemma_first_index(s, c, s.len() as int);
}

/// `String::push`: appends the character `c` to `s`.
#[verifier::external_body]
pub(crate) fn push_char(s: &mut String, c: char)
    ensures
        final(s)@ == old(s)@.push(c),
{
    s.push(c);
}

/// Appends the decimal form of `n` to `out`.
pub fn push_decimal(out: &mut String, n: u64)
    ensures
        final(out)@ == old(out)@ + decimal(n as nat),
    decreases n,
{
    if n >= 10 {
        push_decimal(out, n / 10);
    }
    let d: u8 = (n % 10) as u8;
    let c = (d + 48) as char;
    let ghost before = out@;
    push_char(out, c);
    proof {
        if n < 10 {
            assert(decimal(n as nat) =~= seq![digit_char(n as nat)]);
        } else {
            assert(decimal(n as nat) == decimal((n / 10) as nat).push(digit_char((n % 10) as nat)));
        }
        assert(out@ =~= old(out)@ + decimal(n as nat));
    }
}

/// Appends the string `t` to `out`.
pub fn push_str(out: &mut String, t: &str)
    ensures
        final(out)@ == old(out)@ + t@,
{
    out.append(t);
}

/// A `String` that holds the characters of `s[lo..hi]`.
pub fn string_of_span(s: &Vec<char>, lo: usize, hi: usize) -> (r: String)
    requires
        lo <= hi <= s.len(),
    ensures
        r@ == s@.subrange(lo as int, hi as int),
{
    let mut out = String::new();
    let mut i: usize = lo;
    while i < hi
        invariant
            lo <= i <= hi <= s.len(),
            out@ == s@.subrange(lo as int, i as int),
        decreases hi - i,
    {
        push_char(&mut out, s[i]);
        assert(out@ =~= s@.subrange(lo as int, i + 1));
        i = i + 1;
    }
    out
}

/// The characters of `s`, one by one.
pub fn chars_of(s: &str) -> (v: Vec<char>)
    ensures
        v@ == s@,
{
    let n: usize = s.unicode_len();
    let mut v: Vec<char> = Vec::new();
    let mut i: usize = 0;
    while i < n
        invariant
            n == s@.len(),
            i <= n,
            v@ == s@.take(i as int),
        decreases n - i,
    {
        v.push(s.get_char(i));
        assert(v@ =~= s@.take(i + 1));
        i = i + 1;
    }
    assert(s@.take(n as int) =~= s@);
    v
}

} // verus!
