//! IPv4 addresses: their octets, their dotted-decimal form, and reading that form.

use vstd::prelude::*;
use crate::text::{
    chars_of, decimal, digit_char, digit_of, digit_value, digits_value, find_char, first_index,
    is_digit, lemma_decimal_digits, lemma_first_index, lemma_first_index_found, push_char,
    push_decimal,
};

verus! {

/// An IPv4 address, held as its 32-bit number: the first octet is the high byte.
#[derive(Clone, Copy, Debug, PartialEq, Eq, Hash, Structural)]
pub struct Ipv4Addr {
    pub bits: u32,
}

/// The number of the address `a.b.c.d`.
pub open spec fn from_octets(a: u8, b: u8, c: u8, d: u8) -> u32 {
    (a * 16777216 + b * 65536 + c * 256 + d) as u32
}

/// The four octets of the address numbered `x`, the first one first.
pub open spec fn octets_of(x: u32) -> Seq<u8> {
    seq![
        (x / 16777216) as u8,
        ((x / 65536) % 256) as u8,
        ((x / 256) % 256) as u8,
        (x % 256) as u8,
    ]
}

/// An address's number and its octets determine each other.
pub proof fn lemma_octets_roundtrip(a: u8, b: u8, c: u8, d: u8, x: u32)
    ensures
        octets_of(from_octets(a, b, c, d)) == seq![a, b, c, d],
        from_octets(octets_of(x)[0], octets_of(x)[1], octets_of(x)[2], octets_of(x)[3]) == x,
{
    let y = from_octets(a, b, c, d);
    assert(a * 16777216 + b * 65536 + c * 256 + d < 0x1_0000_0000);
    assert(y / 16777216 == a);
    assert((y / 65536) % 256 == b);
    assert((y / 256) % 256 == c);
    assert(y % 256 == d);
    assert(octets_of(y) =~= seq![a, b, c, d]);
    let o = octets_of(x);
    assert(o[0] * 16777216 + o[1] * 65536 + o[2] * 256 + o[3] == x);
}

/// The dotted-decimal form `a.b.c.d` of the address numbered `x`, as
/// `Ipv4Addr::to_string` in std writes it.
pub open spec fn dotted(x: u32) -> Seq<char> {
    let o = octets_of(x);
    decimal(o[0] as nat) + seq!['.'] + decimal(o[1] as nat) + seq!['.'] + decimal(o[2] as nat)
        + seq!['.'] + decimal(o[3] as nat)
}

/// One field of a dotted quad: one to three decimal digits, no leading zero
/// unless the field is `0` itself, and a value of at most 255.
pub open spec fn valid_octet(f: Seq<char>) -> bool {
    &&& 1 <= f.len() <= 3
    &&& forall|i: int| 0 <= i < f.len() ==> is_digit(#[trigger] f[i])
    &&& (f.len() == 1 || f[0] != '0')
    &&& digits_value(f) <= 255
}

/// Reads `n` octets separated by `.` that make up the whole of `s`.
pub open spec fn parse_octets(s: Seq<char>, n: nat) -> Option<Seq<u8>>
    decreases n,
{
    if n <= 1 {
        if valid_octet(s) {
            Some(seq![digits_value(s) as u8])
        } else {
            None
        }
    } else {
        match first_index(s, '.') {
            None => None,
            Some(k) => if valid_octet(s.take(k as int)) {
                match parse_octets(s.skip(k as int + 1), (n - 1) as nat) {
                    Some(rest) => Some(seq![digits_value(s.take(k as int)) as u8] + rest),
                    None => None,
                }
            } else {
                None
            },
        }
    }
}

/// What `Ipv4Addr::from_str` in std accepts: exactly four octets separated by
/// dots, nothing before or after them. The result is the address's number.
pub open spec fn parse_ipv4(s: Seq<char>) -> Option<u32> {
    match parse_octets(s, 4) {
        Some(o) => Some(from_octets(o[0], o[1], o[2], o[3])),
        None => None,
    }
}

/// Reads `s[lo..hi]` as one octet field.
fn parse_octet_span(s: &Vec<char>, lo: usize, hi: usize) -> (r: Option<u8>)
    requires
        lo <= hi <= s.len(),
    ensures
        r is Some <==> valid_octet(s@.subrange(lo as int, hi as int)),
        r matches Some(v) ==> v as nat == digits_value(s@.subrange(lo as int, hi as int)),
{
    let ghost f = s@.subrange(lo as int, hi as int);
    if hi == lo || hi - lo > 3 {
        return None;
    }
    let mut v: u32 = 0;
    let mut i: usize = lo;
    while i < hi
        invariant
            lo <= i <= hi <= s.len(),
            hi - lo <= 3,
            f == s@.subrange(lo as int, hi as int),
            forall|j: int| lo <= j < i ==> is_digit(#[trigger] s@[j]),
            v as nat == digits_value(s@.subrange(lo as int, i as int)),
            v < 1000,
            i - lo == 0 ==> v == 0,
            i - lo == 1 ==> v < 10,
            i - lo == 2 ==> v < 100,
        decreases hi - i,
    {
        let c = s[i];
        if !('0' <= c && c <= '9') {
            assert(f[i - lo] == c);
            return None;
        }
        let d = digit_of(c);
        let ghost p = s@.subrange(lo as int, i + 1);
        assert(p.drop_last() =~= s@.subrange(lo as int, i as int));
        assert(p.last() == c);
        v = v * 10 + d;
        i = i + 1;
    }
    assert(s@.subrange(lo as int, i as int) == f);
    assert forall|j: int| 0 <= j < f.len() implies is_digit(#[trigger] f[j]) by {
        assert(f[j] == s@[lo + j]);
    }
    assert(f[0] == s@[lo as int]);
    if hi - lo > 1 && s[lo] == '0' {
        return None;
    }
    if v > 255 {
        return None;
    }
    Some(v as u8)
}

/// Reads `n` dot-separated octets that fill `s[lo..hi]`.
fn parse_octets_span(s: &Vec<char>, lo: usize, hi: usize, n: usize) -> (r: Option<Vec<u8>>)
    requires
        lo <= hi <= s.len(),
        1 <= n,
    ensures
        match r {
            Some(v) => parse_octets(s@.subrange(lo as int, hi as int), n as nat) == Some(v@),
            None => parse_octets(s@.subrange(lo as int, hi as int), n as nat) is None,
        },
    decreases n,
{
    let ghost sub = s@.subrange(lo as int, hi as int);
    if n == 1 {
        match parse_octet_span(s, lo, hi) {
            Some(v) => {
                let mut out: Vec<u8> = Vec::new();
                out.push(v);
                assert(out@ =~= seq![digits_value(sub) as u8]);
                return Some(out);
            },
            None => {
                return None;
            },
        }
    }
    match find_char(s, lo, hi, '.') {
        None => None,
        Some(k) => {
            assert(sub.take(k - lo) =~= s@.subrange(lo as int, k as int));
            assert(sub.skip(k - lo + 1) =~= s@.subrange(k + 1, hi as int));
            match parse_octet_span(s, lo, k) {
                None => None,
                Some(v) => {
                    match parse_octets_span(s, k + 1, hi, n - 1) {
                        None => None,
                        Some(rest) => {
                            let mut out: Vec<u8> = Vec::new();
                            out.push(v);
                            let mut i: usize = 0;
                            while i < rest.len()
                                invariant
                                    i <= rest.len(),
                                    out@ == seq![v] + rest@.take(i as int),
                                decreases rest.len() - i,
                            {
                                out.push(rest[i]);
                                assert(rest@.take(i + 1) =~= rest@.take(i as int).push(rest@[i as int]));
                                assert(out@ =~= seq![v] + rest@.take(i + 1));
                                i = i + 1;
                            }
                            assert(rest@.take(i as int) =~= rest@);
                            Some(out)
                        },
                    }
                },
            }
        },
    }
}

/// Reads `s[lo..hi]` as a dotted-quad IPv4 address, as `Ipv4Addr::from_str` does.
pub fn parse_ipv4_span(s: &Vec<char>, lo: usize, hi: usize) -> (r: Option<Ipv4Addr>)
    requires
        lo <= hi <= s.len(),
    ensures
        match r {
            Some(a) => parse_ipv4(s@.subrange(lo as int, hi as int)) == Some(a.bits),
            None => parse_ipv4(s@.subrange(lo as int, hi as int)) is None,
        },
{
    match parse_octets_span(s, lo, hi, 4) {
        None => None,
        Some(o) => {
            proof {
                lemma_parse_octets_len(s@.subrange(lo as int, hi as int), 4);
            }
            Some(Ipv4Addr::new(o[0], o[1], o[2], o[3]))
        },
    }
}

/// `parse_octets` gives as many octets as it was asked for.
proof fn lemma_parse_octets_len(s: Seq<char>, n: nat)
    requires
        n >= 1,
    ensures
        parse_octets(s, n) matches Some(o) ==> o.len() == n,
    decreases n,
{
    if n > 1 {
        if let Some(k) = first_index(s, '.') {
            lemma_parse_octets_len(s.skip(k as int + 1), (n - 1) as nat);
        }
    }
}

/// The character of a digit value is a digit with that value.
proof fn lemma_digit_char(d: nat)
    requires
        d < 10,
    ensures
        is_digit(digit_char(d)),
        digit_value(digit_char(d)) == d,
{
}

/// A digit is the character of its value.
proof fn lemma_char_digit(c: char)
    requires
        is_digit(c),
    ensures
        digit_char(digit_value(c)) == c,
        digit_value(c) < 10,
{
}

/// The decimal form of a number up to 255 is a valid octet field holding that number.
proof fn lemma_decimal_octet(n: nat)
    requires
        n <= 255,
    ensures
        valid_octet(decimal(n)),
        digits_value(decimal(n)) == n,
{
    reveal_with_fuel(decimal, 3);
    reveal_with_fuel(digits_value, 4);
    lemma_digit_char(n % 10);
    lemma_digit_char((n / 10) % 10);
    lemma_digit_char(n / 10 % 10);
    if n < 100 {
        lemma_digit_char(n / 10);
    } else {
        lemma_digit_char(n / 100);
    }
    let d = decimal(n);
    if n < 10 {
        assert(d =~= seq![digit_char(n)]);
        assert(d.drop_last() =~= Seq::<char>::empty());
    } else if n < 100 {
        assert(decimal(n / 10) =~= seq![digit_char(n / 10)]);
        assert(d =~= seq![digit_char(n / 10), digit_char(n % 10)]);
        assert(d.drop_last() =~= seq![digit_char(n / 10)]);
        assert(d.drop_last().drop_last() =~= Seq::<char>::empty());
    } else {
        assert(decimal(n / 100) =~= seq![digit_char(n / 100)]);
        assert(decimal(n / 10) =~= seq![digit_char(n / 100), digit_char((n / 10) % 10)]);
        assert(d =~= seq![digit_char(n / 100), digit_char((n / 10) % 10), digit_char(n % 10)]);
        assert(d.drop_last() =~= seq![digit_char(n / 100), digit_char((n / 10) % 10)]);
        assert(d.drop_last().drop_last() =~= seq![digit_char(n / 100)]);
        assert(d.drop_last().drop_last().drop_last() =~= Seq::<char>::empty());
    }
}

/// A valid octet field is the decimal form of its value.
proof fn lemma_octet_decimal(f: Seq<char>)
    requires
        valid_octet(f),
    ensures
        decimal(digits_value(f)) == f,
{
    reveal_with_fuel(decimal, 3);
    reveal_with_fuel(digits_value, 4);
    assert(is_digit(f[0]));
    lemma_char_digit(f[0]);
    if f.len() >= 2 {
        assert(is_digit(f[1]));
        lemma_char_digit(f[1]);
    }
    if f.len() == 3 {
        assert(is_digit(f[2]));
        lemma_char_digit(f[2]);
    }
    if f.len() == 1 {
        assert(f.drop_last() =~= Seq::<char>::empty());
        assert(decimal(digits_value(f)) =~= f);
    } else if f.len() == 2 {
        assert(is_digit(f[1]));
        assert(f.drop_last() =~= seq![f[0]]);
        assert(f.drop_last().drop_last() =~= Seq::<char>::empty());
        let n = digits_value(f);
        assert(n == digit_value(f[0]) * 10 + digit_value(f[1]));
        assert(n / 10 == digit_value(f[0]) && n % 10 == digit_value(f[1]));
        assert(decimal(n / 10) =~= seq![f[0]]);
        assert(decimal(n) =~= f);
    } else {
        assert(is_digit(f[1]) && is_digit(f[2]));
        assert(f.drop_last() =~= seq![f[0], f[1]]);
        assert(f.drop_last().drop_last() =~= seq![f[0]]);
        assert(f.drop_last().drop_last().drop_last() =~= Seq::<char>::empty());
        let n = digits_value(f);
        assert(n == digit_value(f[0]) * 100 + digit_value(f[1]) * 10 + digit_value(f[2]));
        assert(n / 100 == digit_value(f[0]));
        assert((n / 10) % 10 == digit_value(f[1]));
        assert(n % 10 == digit_value(f[2]));
        assert(decimal(n / 100) =~= seq![f[0]]);
        assert(decimal(n / 10) =~= seq![f[0], f[1]]);
        assert(decimal(n) =~= f);
    }
}

/// Octets written in decimal and joined by dots.
pub open spec fn render_octets(o: Seq<u8>) -> Seq<char>
    decreases o.len(),
{
    if o.len() <= 1 {
        decimal(o[0] as nat)
    } else {
        decimal(o[0] as nat) + seq!['.'] + render_octets(o.drop_first())
    }
}

/// Reading an octet field, a dot and the rest.
proof fn lemma_parse_octets_cons(f: Seq<char>, rest: Seq<char>, n: nat)
    requires
        valid_octet(f),
        n >= 2,
    ensures
        parse_octets(f + seq!['.'] + rest, n) == (match parse_octets(rest, (n - 1) as nat) {
            Some(r) => Some(seq![digits_value(f) as u8] + r),
            None => None,
        }),
{
    let s = f + seq!['.'] + rest;
    assert forall|j: int| 0 <= j < f.len() implies #[trigger] s[j] != '.' by {
        assert(s[j] == f[j]);
        assert(is_digit(f[j]));
    }
    assert(s[f.len() as int] == '.');
    lemma_first_index(s, '.', f.len() as int);
    assert(s.take(f.len() as int) =~= f);
    assert(s.skip(f.len() as int + 1) =~= rest);
}

/// Octets written in decimal and joined by dots read back as those octets.
proof fn lemma_render_parse(o: Seq<u8>)
    requires
        o.len() >= 1,
    ensures
        parse_octets(render_octets(o), o.len()) == Some(o),
    decreases o.len(),
{
    lemma_decimal_octet(o[0] as nat);
    if o.len() == 1 {
        assert(seq![digits_value(decimal(o[0] as nat)) as u8] =~= o);
    } else {
        let t = o.drop_first();
        lemma_render_parse(t);
        lemma_parse_octets_cons(decimal(o[0] as nat), render_octets(t), o.len());
        assert(seq![o[0]] + t =~= o);
    }
}

/// A string that reads as octets is those octets written in decimal and joined by dots.
proof fn lemma_parse_render(s: Seq<char>, n: nat)
    requires
        n >= 1,
    ensures
        parse_octets(s, n) matches Some(o) ==> render_octets(o) == s && o.len() == n,
    decreases n,
{
    if n <= 1 {
        if valid_octet(s) {
            lemma_octet_decimal(s);
            let o = seq![digits_value(s) as u8];
            assert(o[0] as nat == digits_value(s));
        }
    } else {
        lemma_first_index_found(s, '.');
        if let Some(k) = first_index(s, '.') {
            let f = s.take(k as int);
            let rest = s.skip(k as int + 1);
            if valid_octet(f) {
                lemma_parse_render(rest, (n - 1) as nat);
                if let Some(r) = parse_octets(rest, (n - 1) as nat) {
                    lemma_octet_decimal(f);
                    let o = seq![digits_value(f) as u8] + r;
                    assert(o.drop_first() =~= r);
                    assert(o[0] as nat == digits_value(f));
                    assert(s =~= f + seq!['.'] + rest);
                }
            }
        }
    }
}

/// The dotted form of an address is its octets written in decimal and joined by dots.
proof fn lemma_dotted_render(x: u32)
    ensures
        dotted(x) == render_octets(octets_of(x)),
{
    reveal_with_fuel(render_octets, 4);
    let o = octets_of(x);
    assert(o.drop_first().drop_first().drop_first().len() == 1);
    assert(render_octets(o.drop_first().drop_first().drop_first()) == decimal(o[3] as nat));
    assert(render_octets(o) =~= dotted(x));
}

/// Reading the dotted form of an address gives back that address.
pub proof fn lemma_parse_dotted(x: u32)
    ensures
        parse_ipv4(dotted(x)) == Some(x),
{
    let o = octets_of(x);
    lemma_dotted_render(x);
    lemma_render_parse(o);
    lemma_octets_roundtrip(0, 0, 0, 0, x);
}

/// A string that reads as an address is that address's dotted form: the form is
/// canonical, so no two strings read as the same address.
pub proof fn lemma_dotted_parse(s: Seq<char>)
    ensures
        parse_ipv4(s) matches Some(x) ==> dotted(x) == s,
{
    lemma_parse_render(s, 4);
    if let Some(o) = parse_octets(s, 4) {
        lemma_octets_roundtrip(o[0], o[1], o[2], o[3], 0);
        assert(octets_of(from_octets(o[0], o[1], o[2], o[3])) =~= o);
        lemma_dotted_render(from_octets(o[0], o[1], o[2], o[3]));
    }
}

/// The dotted form holds only digits and dots, and starts and ends with a digit.
pub proof fn lemma_dotted_shape(x: u32)
    ensures
        dotted(x).len() >= 7,
        forall|i: int|
            0 <= i < dotted(x).len() ==> is_digit(#[trigger] dotted(x)[i]) || dotted(x)[i] == '.',
        is_digit(dotted(x)[0]),
        is_digit(dotted(x).last()),
{
    let o = octets_of(x);
    let d0 = decimal(o[0] as nat);
    let d1 = decimal(o[1] as nat);
    let d2 = decimal(o[2] as nat);
    let d3 = decimal(o[3] as nat);
    lemma_decimal_digits(o[0] as nat);
    lemma_decimal_digits(o[1] as nat);
    lemma_decimal_digits(o[2] as nat);
    lemma_decimal_digits(o[3] as nat);
    let s = dotted(x);
    let dot = seq!['.'];
    assert(s =~= d0 + dot + d1 + dot + d2 + dot + d3);
    assert forall|i: int| 0 <= i < s.len() implies is_digit(#[trigger] s[i]) || s[i] == '.' by {
        let a = d0.len() as int;
        let b = a + 1 + d1.len();
        let c = b + 1 + d2.len();
        if i < a {
            assert(s[i] == d0[i]);
        } else if i == a {
        } else if i < b {
            assert(s[i] == d1[i - a - 1]);
        } else if i == b {
        } else if i < c {
            assert(s[i] == d2[i - b - 1]);
        } else if i == c {
        } else {
            assert(s[i] == d3[i - c - 1]);
        }
    }
    assert(s[0] == d0[0]);
    assert(s.last() == d3[d3.len() - 1]);
}

impl Ipv4Addr {
    /// The address `a.b.c.d`.
    pub fn new(a: u8, b: u8, c: u8, d: u8) -> (r: Ipv4Addr)
        ensures
            r.bits == from_octets(a, b, c, d),
    {
        assert(a * 16777216 + b * 65536 + c * 256 + d < 0x1_0000_0000);
        Ipv4Addr { bits: (a as u32) * 16777216 + (b as u32) * 65536 + (c as u32) * 256 + d as u32 }
    }

    /// The address with the number `bits`.
    pub fn from_bits(bits: u32) -> (r: Ipv4Addr)
        ensures
            r.bits == bits,
    {
        Ipv4Addr { bits }
    }

    /// The address's number.
    pub fn to_bits(&self) -> (r: u32)
        ensures
            r == self.bits,
    {
        self.bits
    }

    /// The four octets, the first one first.
    pub fn octets(&self) -> (r: [u8; 4])
        ensures
            r@ == octets_of(self.bits),
    {
        let x = self.bits;
        let r = [
            (x / 16777216) as u8,
            ((x / 65536) % 256) as u8,
            ((x / 256) % 256) as u8,
            (x % 256) as u8,
        ];
        assert(r@ =~= octets_of(x));
        r
    }

    /// Reads a dotted-quad address, as `Ipv4Addr::from_str` in std does.
    pub fn parse(s: &str) -> (r: Option<Ipv4Addr>)
        ensures
            match r {
                Some(a) => parse_ipv4(s@) == Some(a.bits),
                None => parse_ipv4(s@) is None,
            },
    {
        let v = chars_of(s);
        assert(v@.subrange(0, v@.len() as int) =~= v@);
        parse_ipv4_span(&v, 0, v.len())
    }

    /// The dotted-decimal form, such as `192.168.1.10`.
    pub fn to_string(&self) -> (r: String)
        ensures
            r@ == dotted(self.bits),
    {
        let o = self.octets();
        let mut out = String::new();
        push_decimal(&mut out, o[0] as u64);
        push_char(&mut out, '.');
        push_decimal(&mut out, o[1] as u64);
        push_char(&mut out, '.');
        push_decimal(&mut out, o[2] as u64);
        push_char(&mut out, '.');
        push_decimal(&mut out, o[3] as u64);
        assert(out@ =~= dotted(self.bits));
        out
    }
}

} // verus!
