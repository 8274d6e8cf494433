//! Reading the IP ranges that a scan covers: a CIDR block (`192.168.1.0/24`), a
//! range of last octets (`192.168.1.1-254`), a range of whole addresses
//! (`192.168.1.1-192.168.2.254`) or one address (`192.168.1.1`).

use vstd::prelude::*;
use crate::ipv4::{
    dotted, from_octets, lemma_dotted_shape, lemma_octets_roundtrip, lemma_parse_dotted, octets_of,
    parse_ipv4, parse_ipv4_span, Ipv4Addr,
};
use crate::text::{
    chars_of, decimal, digit_char, digit_value, find_char, first_index, has_char, is_digit,
    lemma_decimal_digits, lemma_first_index, lemma_no_char, lemma_parse_unsigned_bound,
    lemma_trim_plain, parse_unsigned, parse_unsigned_span, push_str, scan_digits, trim, trim_span,
    IntErrorKind,
};

verus! {

/// Why a range was refused.
#[derive(Clone, Copy, Debug, PartialEq, Eq, Structural)]
pub enum RangeError {
    /// The address of a single-address or CIDR range does not read.
    InvalidIp,
    /// A CIDR range does not have exactly one `/`.
    InvalidCidr,
    /// The prefix length of a CIDR range does not read as a `u32`.
    InvalidPrefix(IntErrorKind),
    /// The prefix length is above 32.
    PrefixTooLarge,
    /// A dash range does not have exactly one `-`.
    InvalidRangeFormat,
    /// The start address of a dash range does not read.
    InvalidStartIp,
    /// The end address of a dash range comes before its start.
    EndBeforeStart,
    /// The end of a dash range is neither an octet nor an address.
    InvalidRangeEnd,
}

/// The text of a reading error of an integer, as `ParseIntError` displays it.
pub open spec fn int_error_text(k: IntErrorKind) -> Seq<char> {
    match k {
        IntErrorKind::Empty => "cannot parse integer from empty string"@,
        IntErrorKind::InvalidDigit => "invalid digit found in string"@,
        IntErrorKind::PosOverflow => "number too large to fit in target type"@,
    }
}

/// The message that the scanner shows for a range error.
pub open spec fn range_error_text(e: RangeError) -> Seq<char> {
    match e {
        RangeError::InvalidIp => "Invalid IP: invalid IPv4 address syntax"@,
        RangeError::InvalidCidr => "Invalid CIDR notation"@,
        RangeError::InvalidPrefix(k) => "Invalid prefix: "@ + int_error_text(k),
        RangeError::PrefixTooLarge => "Prefix must be 0-32"@,
        RangeError::InvalidRangeFormat => "Invalid range format"@,
        RangeError::InvalidStartIp => "Invalid start IP: invalid IPv4 address syntax"@,
        RangeError::EndBeforeStart => "End IP must be >= start IP"@,
        RangeError::InvalidRangeEnd => "Invalid range end"@,
    }
}

impl RangeError {
    /// The message that the scanner shows for this error.
    pub fn message(&self) -> (r: String)
        ensures
            r@ == range_error_text(*self),
    {
        match self {
            RangeError::InvalidIp => String::from_str("Invalid IP: invalid IPv4 address syntax"),
            RangeError::InvalidCidr => String::from_str("Invalid CIDR notation"),
            RangeError::InvalidPrefix(k) => {
                let mut out = String::from_str("Invalid prefix: ");
                match k {
                    IntErrorKind::Empty => push_str(
                        &mut out,
                        "cannot parse integer from empty string",
                    ),
                    IntErrorKind::InvalidDigit => push_str(
                        &mut out,
                        "invalid digit found in string",
                    ),
                    IntErrorKind::PosOverflow => push_str(
                        &mut out,
                        "number too large to fit in target type",
                    ),
                }
                out
            },
            RangeError::PrefixTooLarge => String::from_str("Prefix must be 0-32"),
            RangeError::InvalidRangeFormat => String::from_str("Invalid range format"),
            RangeError::InvalidStartIp => String::from_str(
                "Invalid start IP: invalid IPv4 address syntax",
            ),
            RangeError::EndBeforeStart => String::from_str("End IP must be >= start IP"),
            RangeError::InvalidRangeEnd => String::from_str("Invalid range end"),
        }
    }
}

/// Two to the power `n`.
pub open spec fn pow2(n: nat) -> nat
    decreases n,
{
    if n == 0 {
        1
    } else {
        2 * pow2((n - 1) as nat)
    }
}

/// Powers of two grow with the exponent, up to 2^32.
pub proof fn lemma_pow2_bounds(n: nat, m: nat)
    requires
        n <= m,
    ensures
        1 <= pow2(n) <= pow2(m),
        pow2(32) == 0x1_0000_0000,
    decreases m,
{
    reveal_with_fuel(pow2, 33);
    if n < m {
        lemma_pow2_bounds(n, (m - 1) as nat);
    } else if n > 0 {
        lemma_pow2_bounds((n - 1) as nat, (n - 1) as nat);
    }
}

/// Exponents add up when powers of two multiply.
proof fn lemma_pow2_add(a: nat, b: nat)
    ensures
        pow2(a) * pow2(b) == pow2(a + b),
    decreases a,
{
    if a == 0 {
        assert(pow2(a) == 1);
        assert(a + b == b);
        assert(1 * pow2(b) == pow2(b));
    } else {
        lemma_pow2_add((a - 1) as nat, b);
        let x = pow2((a - 1) as nat);
        let y = pow2(b);
        assert(((a - 1) as nat + b) as nat == (a + b - 1) as nat);
        assert(pow2(a + b) == 2 * pow2((a + b - 1) as nat));
        assert(pow2(a) == 2 * x);
        assert((2 * x) * y == 2 * (x * y)) by (nonlinear_arith);
    }
}

/// The number of addresses in a block with the prefix length `prefix`.
pub open spec fn block_size(prefix: nat) -> nat {
    pow2((32 - prefix) as nat)
}

/// The first address of the block of `ip` with the prefix length `prefix`: `ip`
/// rounded down to a multiple of the block's size.
pub open spec fn network_of(ip: u32, prefix: nat) -> nat {
    (ip as int - (ip as int) % (block_size(prefix) as int)) as nat
}

/// The last address of the block of `ip`.
pub open spec fn broadcast_of(ip: u32, prefix: nat) -> nat {
    (network_of(ip, prefix) + block_size(prefix) - 1) as nat
}

/// The addresses from `first` up to, not including, `end`: none when `end` is not
/// above `first`.
pub open spec fn addr_run(first: nat, end: nat) -> Seq<Ipv4Addr> {
    if end > first {
        Seq::new((end - first) as nat, |i: int| Ipv4Addr { bits: (first + i) as u32 })
    } else {
        Seq::empty()
    }
}

/// The hosts of a CIDR block. From a prefix of 24 on, the network and broadcast
/// addresses are left out; for shorter prefixes the whole block is scanned.
pub open spec fn cidr_hosts(ip: u32, prefix: nat) -> Seq<Ipv4Addr> {
    let net = network_of(ip, prefix);
    let bc = broadcast_of(ip, prefix);
    if prefix >= 24 {
        addr_run(net + 1, bc)
    } else {
        addr_run(net, bc + 1)
    }
}

/// The addresses whose first three octets are those of `start` and whose last
/// octet runs from that of `start` up to `last`.
pub open spec fn octet_run(start: u32, last: nat) -> Seq<Ipv4Addr> {
    let o = octets_of(start);
    if last >= o[3] {
        Seq::new(
            (last - o[3] + 1) as nat,
            |i: int| Ipv4Addr { bits: from_octets(o[0], o[1], o[2], (o[3] + i) as u8) },
        )
    } else {
        Seq::empty()
    }
}

/// The two sides of the one `c` in `s`, if `s` holds exactly one.
pub open spec fn split_pair(s: Seq<char>, c: char) -> Option<(Seq<char>, Seq<char>)> {
    match first_index(s, c) {
        None => None,
        Some(k) => if has_char(s.skip(k as int + 1), c) {
            None
        } else {
            Some((s.take(k as int), s.skip(k as int + 1)))
        },
    }
}

/// A CIDR range `address/prefix`.
pub open spec fn cidr_range(s: Seq<char>) -> Result<Seq<Ipv4Addr>, RangeError> {
    match split_pair(s, '/') {
        None => Err(RangeError::InvalidCidr),
        Some((a, p)) => match parse_ipv4(a) {
            None => Err(RangeError::InvalidIp),
            Some(ip) => match parse_unsigned(p, 0xffff_ffff) {
                Err(k) => Err(RangeError::InvalidPrefix(k)),
                Ok(prefix) => if prefix > 32 {
                    Err(RangeError::PrefixTooLarge)
                } else {
                    Ok(cidr_hosts(ip, prefix))
                },
            },
        },
    }
}

/// A dash range `start-octet` or `start-end`. White space around the end is
/// ignored, white space before the dash is not.
pub open spec fn dash_range(s: Seq<char>) -> Result<Seq<Ipv4Addr>, RangeError> {
    match split_pair(s, '-') {
        None => Err(RangeError::InvalidRangeFormat),
        Some((a, b)) => match parse_ipv4(a) {
            None => Err(RangeError::InvalidStartIp),
            Some(start) => {
                let e = trim(b);
                match parse_unsigned(e, 255) {
                    Ok(last) => Ok(octet_run(start, last)),
                    Err(_) => match parse_ipv4(e) {
                        Some(end) => if end < start {
                            Err(RangeError::EndBeforeStart)
                        } else {
                            Ok(addr_run(start as nat, (end + 1) as nat))
                        },
                        None => Err(RangeError::InvalidRangeEnd),
                    },
                }
            },
        },
    }
}

/// The addresses that a range text names, in the order they are scanned. The
/// text is trimmed; one with a `/` is a CIDR range, else one with a `-` is a dash
/// range, else it is one address.
pub open spec fn range_spec(s: Seq<char>) -> Result<Seq<Ipv4Addr>, RangeError> {
    let t = trim(s);
    if has_char(t, '/') {
        cidr_range(t)
    } else if has_char(t, '-') {
        dash_range(t)
    } else {
        match parse_ipv4(t) {
            Some(ip) => Ok(seq![Ipv4Addr { bits: ip }]),
            None => Err(RangeError::InvalidIp),
        }
    }
}

/// Finds the one `c` in `s[lo..hi]`, if there is exactly one.
fn split_pair_span(s: &Vec<char>, lo: usize, hi: usize, c: char) -> (r: Option<usize>)
    requires
        lo <= hi <= s.len(),
    ensures
        match r {
            Some(k) => lo <= k < hi && split_pair(s@.subrange(lo as int, hi as int), c) == Some(
                (s@.subrange(lo as int, k as int), s@.subrange(k + 1, hi as int)),
            ),
            None => split_pair(s@.subrange(lo as int, hi as int), c) is None,
        },
{
    let ghost sub = s@.subrange(lo as int, hi as int);
    match find_char(s, lo, hi, c) {
        None => None,
        Some(k) => {
            assert(sub.skip(k - lo + 1) =~= s@.subrange(k + 1, hi as int));
            assert(sub.take(k - lo) =~= s@.subrange(lo as int, k as int));
            match find_char(s, k + 1, hi, c) {
                Some(_) => None,
                None => Some(k),
            }
        },
    }
}

/// The addresses from `first` up to, not including, `end`.
fn push_run(out: &mut Vec<Ipv4Addr>, first: u64, end: u64)
    requires
        end <= 0x1_0000_0000,
    ensures
        final(out)@ == old(out)@ + addr_run(first as nat, end as nat),
{
    let ghost start = out@;
    let mut i: u64 = first;
    if end <= first {
        assert(addr_run(first as nat, end as nat) =~= Seq::<Ipv4Addr>::empty());
        assert(out@ =~= start + addr_run(first as nat, end as nat));
        return;
    }
    while i < end
        invariant
            first <= i <= end <= 0x1_0000_0000,
            out@ == start + addr_run(first as nat, i as nat),
        decreases end - i,
    {
        out.push(Ipv4Addr { bits: i as u32 });
        assert(out@ =~= start + addr_run(first as nat, (i + 1) as nat));
        i = i + 1;
    }
}

/// The hosts of the block of `base` with the prefix length `prefix`.
fn cidr_hosts_of(base: Ipv4Addr, prefix: u32) -> (r: Vec<Ipv4Addr>)
    requires
        prefix <= 32,
    ensures
        r@ == cidr_hosts(base.bits, prefix as nat),
{
    let shift = 32 - prefix;
    let mut size: u64 = 1;
    let mut i: u32 = 0;
    proof {
        lemma_pow2_bounds(shift as nat, 32);
    }
    while i < shift
        invariant
            i <= shift <= 32,
            size == pow2(i as nat),
            pow2(shift as nat) <= 0x1_0000_0000,
        decreases shift - i,
    {
        proof {
            lemma_pow2_bounds((i + 1) as nat, shift as nat);
        }
        size = size * 2;
        i = i + 1;
    }
    let ip = base.bits as u64;
    proof {
        lemma_pow2_add(shift as nat, prefix as nat);
        lemma_pow2_bounds(prefix as nat, 32);
    }
    let ghost m = pow2(prefix as nat);
    assert(ip % size <= ip && ip - ip % size + size <= 0x1_0000_0000) by (nonlinear_arith)
        requires
            ip < 0x1_0000_0000,
            size * m == 0x1_0000_0000,
            size >= 1,
            m >= 1,
    {
        assert(ip == size * (ip / size) + ip % size);
        assert(ip / size < m);
        assert(ip / size + 1 <= m);
        assert(size * (ip / size + 1) <= size * m);
    }
    let network = ip - ip % size;
    let broadcast = network + size - 1;
    assert(network == network_of(base.bits, prefix as nat));
    let mut out: Vec<Ipv4Addr> = Vec::new();
    if prefix >= 24 {
        push_run(&mut out, network + 1, broadcast);
    } else {
        push_run(&mut out, network, broadcast + 1);
    }
    assert(out@ =~= cidr_hosts(base.bits, prefix as nat));
    out
}

/// Reads the CIDR range `s[lo..hi]`.
fn parse_cidr(s: &Vec<char>, lo: usize, hi: usize) -> (r: Result<Vec<Ipv4Addr>, RangeError>)
    requires
        lo <= hi <= s.len(),
    ensures
        match r {
            Ok(v) => cidr_range(s@.subrange(lo as int, hi as int)) == Ok::<
                Seq<Ipv4Addr>,
                RangeError,
            >(v@),
            Err(e) => cidr_range(s@.subrange(lo as int, hi as int)) == Err::<
                Seq<Ipv4Addr>,
                RangeError,
            >(e),
        },
{
    match split_pair_span(s, lo, hi, '/') {
        None => Err(RangeError::InvalidCidr),
        Some(k) => match parse_ipv4_span(s, lo, k) {
            None => Err(RangeError::InvalidIp),
            Some(base) => match parse_unsigned_span(s, k + 1, hi, 0xffff_ffff) {
                Err(e) => Err(RangeError::InvalidPrefix(e)),
                Ok(prefix) => {
                    if prefix > 32 {
                        Err(RangeError::PrefixTooLarge)
                    } else {
                        Ok(cidr_hosts_of(base, prefix))
                    }
                },
            },
        },
    }
}

/// Reads the dash range `s[lo..hi]`.
fn parse_dash(s: &Vec<char>, lo: usize, hi: usize) -> (r: Result<Vec<Ipv4Addr>, RangeError>)
    requires
        lo <= hi <= s.len(),
    ensures
        match r {
            Ok(v) => dash_range(s@.subrange(lo as int, hi as int)) == Ok::<
                Seq<Ipv4Addr>,
                RangeError,
            >(v@),
            Err(e) => dash_range(s@.subrange(lo as int, hi as int)) == Err::<
                Seq<Ipv4Addr>,
                RangeError,
            >(e),
        },
{
    match split_pair_span(s, lo, hi, '-') {
        None => Err(RangeError::InvalidRangeFormat),
        Some(k) => match parse_ipv4_span(s, lo, k) {
            None => Err(RangeError::InvalidStartIp),
            Some(start) => {
                let (a, b) = trim_span(s, k + 1, hi);
                match parse_unsigned_span(s, a, b, 255) {
                    Ok(last) => {
                        let o = start.octets();
                        let mut out: Vec<Ipv4Addr> = Vec::new();
                        let mut i: u32 = o[3] as u32;
                        let ghost oo = octets_of(start.bits);
                        while i <= last
                            invariant
                                last <= 255,
                                o@ == oo,
                                oo[3] <= i <= last + 1 || (i == oo[3] && last < oo[3]),
                                out@ =~= Seq::new(
                                    (i - oo[3]) as nat,
                                    |j: int|
                                        Ipv4Addr {
                                            bits: from_octets(oo[0], oo[1], oo[2], (oo[3] + j) as u8),
                                        },
                                ),
                            decreases last + 1 - i,
                        {
                            out.push(Ipv4Addr::new(o[0], o[1], o[2], i as u8));
                            i = i + 1;
                        }
                        assert(out@ =~= octet_run(start.bits, last as nat));
                        Ok(out)
                    },
                    Err(_) => match parse_ipv4_span(s, a, b) {
                        Some(end) => {
                            if end.bits < start.bits {
                                Err(RangeError::EndBeforeStart)
                            } else {
                                let mut out: Vec<Ipv4Addr> = Vec::new();
                                push_run(&mut out, start.bits as u64, end.bits as u64 + 1);
                                assert(out@ =~= addr_run(start.bits as nat, (end.bits + 1) as nat));
                                Ok(out)
                            }
                        },
                        None => Err(RangeError::InvalidRangeEnd),
                    },
                }
            },
        },
    }
}

/// The addresses that the range text `input` names, in the order in which they
/// are scanned, or why the text was refused.
pub fn parse_range(input: &str) -> (r: Result<Vec<Ipv4Addr>, RangeError>)
    ensures
        match r {
            Ok(v) => range_spec(input@) == Ok::<Seq<Ipv4Addr>, RangeError>(v@),
            Err(e) => range_spec(input@) == Err::<Seq<Ipv4Addr>, RangeError>(e),
        },
{
    let s = chars_of(input);
    let (a, b) = trim_span(&s, 0, s.len());
    assert(s@.subrange(0, s@.len() as int) =~= s@);
    if find_char(&s, a, b, '/').is_some() {
        parse_cidr(&s, a, b)
    } else if find_char(&s, a, b, '-').is_some() {
        parse_dash(&s, a, b)
    } else {
        match parse_ipv4_span(&s, a, b) {
            Some(ip) => {
                let mut out: Vec<Ipv4Addr> = Vec::new();
                out.push(ip);
                assert(out@ =~= seq![Ipv4Addr { bits: ip.bits }]);
                Ok(out)
            },
            None => Err(RangeError::InvalidIp),
        }
    }
}

/// A block lies within the 32-bit address space and holds its own address.
pub proof fn lemma_block_fits(ip: u32, prefix: nat)
    requires
        prefix <= 32,
    ensures
        block_size(prefix) >= 1,
        network_of(ip, prefix) <= ip <= broadcast_of(ip, prefix) < 0x1_0000_0000,
        prefix == 32 ==> network_of(ip, prefix) == ip,
        prefix < 32 ==> block_size(prefix) >= 2,
{
    let size = block_size(prefix);
    let m = pow2(prefix);
    lemma_pow2_add((32 - prefix) as nat, prefix);
    lemma_pow2_bounds(prefix, 32);
    lemma_pow2_bounds((32 - prefix) as nat, 32);
    assert(((32 - prefix) as nat + prefix) as nat == 32);
    let x = ip as int;
    let z = size as int;
    assert(x % z <= x && x - x % z + z <= 0x1_0000_0000 && x % z < z) by (nonlinear_arith)
        requires
            0 <= x < 0x1_0000_0000,
            z * m == 0x1_0000_0000,
            z >= 1,
            m >= 1,
    {
        assert(x == z * (x / z) + x % z);
        assert(x / z < m);
        assert(z * (x / z + 1) <= z * m);
    }
    if prefix == 32 {
        assert(pow2(0) == 1);
        assert(x % 1 == 0);
    }
    if prefix < 32 {
        lemma_pow2_bounds(1, (32 - prefix) as nat);
        assert(pow2(1) == 2) by {
            reveal_with_fuel(pow2, 2);
        }
    }
}

/// The addresses of a run that ends within the address space climb one by one.
proof fn lemma_addr_run(first: nat, end: nat)
    requires
        end <= 0x1_0000_0000,
    ensures
        addr_run(first, end).len() == if end > first {
            end - first
        } else {
            0
        },
        forall|i: int|
            0 <= i < addr_run(first, end).len() ==> #[trigger] addr_run(first, end)[i].bits == first
                + i,
{
}

/// Every range reads as addresses in strictly increasing order, so no address is
/// scanned twice.
pub proof fn lemma_range_ascending(s: Seq<char>)
    ensures
        range_spec(s) matches Ok(v) ==> forall|i: int, j: int|
            0 <= i < j < v.len() ==> (#[trigger] v[i]).bits < (#[trigger] v[j]).bits,
{
    let t = trim(s);
    if has_char(t, '/') {
        if let Some((a, p)) = split_pair(t, '/') {
            if let Some(ip) = parse_ipv4(a) {
                if let Ok(prefix) = parse_unsigned(p, 0xffff_ffff) {
                    if prefix <= 32 {
                        lemma_block_fits(ip, prefix);
                        let net = network_of(ip, prefix);
                        let bc = broadcast_of(ip, prefix);
                        if prefix >= 24 {
                            lemma_addr_run(net + 1, bc);
                        } else {
                            lemma_addr_run(net, bc + 1);
                        }
                    }
                }
            }
        }
    } else if has_char(t, '-') {
        if let Some((a, b)) = split_pair(t, '-') {
            if let Some(start) = parse_ipv4(a) {
                let e = trim(b);
                if let Ok(last) = parse_unsigned(e, 255) {
                    lemma_parse_unsigned_bound(e, 255);
                    let o = octets_of(start);
                    let v = octet_run(start, last);
                    assert forall|i: int, j: int| 0 <= i < j < v.len() implies (
                    #[trigger] v[i]).bits < (#[trigger] v[j]).bits by {
                        assert(v[i].bits == o[0] * 16777216 + o[1] * 65536 + o[2] * 256 + o[3] + i);
                        assert(v[j].bits == o[0] * 16777216 + o[1] * 65536 + o[2] * 256 + o[3] + j);
                    }
                } else if let Some(end) = parse_ipv4(e) {
                    lemma_addr_run(start as nat, (end + 1) as nat);
                }
            }
        }
    }
}

/// The hosts of a CIDR block lie inside the block; from a prefix of 24 on they
/// leave out its network and broadcast addresses.
pub proof fn lemma_cidr_hosts_in_block(ip: u32, prefix: nat)
    requires
        prefix <= 32,
    ensures
        forall|i: int|
            0 <= i < cidr_hosts(ip, prefix).len() ==> network_of(ip, prefix) <= (
            #[trigger] cidr_hosts(ip, prefix)[i]).bits <= broadcast_of(ip, prefix),
        prefix >= 24 ==> forall|i: int|
            0 <= i < cidr_hosts(ip, prefix).len() ==> network_of(ip, prefix) < (
            #[trigger] cidr_hosts(ip, prefix)[i]).bits < broadcast_of(ip, prefix),
{
    lemma_block_fits(ip, prefix);
    let net = network_of(ip, prefix);
    let bc = broadcast_of(ip, prefix);
    if prefix >= 24 {
        lemma_addr_run(net + 1, bc);
    } else {
        lemma_addr_run(net, bc + 1);
    }
}

/// How many hosts a CIDR block gives: the whole block below a prefix of 24,
/// two fewer from 24 to 31, none at 32.
pub proof fn lemma_cidr_host_count(ip: u32, prefix: nat)
    requires
        prefix <= 32,
    ensures
        prefix < 24 ==> cidr_hosts(ip, prefix).len() == block_size(prefix),
        24 <= prefix <= 31 ==> cidr_hosts(ip, prefix).len() == block_size(prefix) - 2,
        prefix == 32 ==> cidr_hosts(ip, prefix).len() == 0,
{
    lemma_block_fits(ip, prefix);
    let net = network_of(ip, prefix);
    let bc = broadcast_of(ip, prefix);
    if prefix >= 24 {
        lemma_addr_run(net + 1, bc);
    } else {
        lemma_addr_run(net, bc + 1);
    }
}

/// The dotted form of an address, taken as a range, names that address alone.
pub proof fn lemma_range_single(x: u32)
    ensures
        range_spec(dotted(x)) == Ok::<Seq<Ipv4Addr>, RangeError>(seq![Ipv4Addr { bits: x }]),
{
    let s = dotted(x);
    lemma_dotted_shape(x);
    lemma_trim_plain(s);
    lemma_no_char(s, '/');
    lemma_no_char(s, '-');
    lemma_parse_dotted(x);
}

/// The hosts of a `/24` are the last octets 1 to 254 of its first three.
pub proof fn lemma_cidr24_octets(x: u32)
    ensures
        cidr_hosts(x, 24) == octet_run(
            from_octets(octets_of(x)[0], octets_of(x)[1], octets_of(x)[2], 1),
            254,
        ),
{
    let o = octets_of(x);
    let y = from_octets(o[0], o[1], o[2], 1);
    lemma_octets_roundtrip(o[0], o[1], o[2], 1, x);
    assert(octets_of(y) == seq![o[0], o[1], o[2], 1u8]);
    assert(block_size(24) == 256) by {
        reveal_with_fuel(pow2, 9);
    }
    let net = network_of(x, 24);
    assert(net == o[0] * 16777216 + o[1] * 65536 + o[2] * 256);
    let a = cidr_hosts(x, 24);
    let b = octet_run(y, 254);
    assert(a.len() == 254);
    assert(b.len() == 254);
    assert forall|i: int| 0 <= i < 254 implies #[trigger] a[i] == b[i] by {
        assert(a[i].bits == net + 1 + i);
        assert(b[i].bits == from_octets(o[0], o[1], o[2], (1 + i) as u8));
    }
    assert(a =~= b);
}

/// The CIDR text `a/p` of the address `a` and the prefix length `p`.
pub open spec fn cidr_text(a: u32, p: nat) -> Seq<char> {
    dotted(a) + seq!['/'] + decimal(p)
}

/// A number of at most 255, written in decimal, reads back as itself.
proof fn lemma_decimal_reads(n: nat, max: nat)
    requires
        n <= 255,
        n <= max,
    ensures
        parse_unsigned(decimal(n), max) == Ok::<nat, IntErrorKind>(n),
{
    reveal_with_fuel(decimal, 4);
    reveal_with_fuel(scan_digits, 4);
    let d = decimal(n);
    let c0 = digit_char(n % 10);
    assert(digit_value(c0) == n % 10 && is_digit(c0));
    if n < 10 {
        assert(d.drop_first().len() == 0);
    } else if n < 100 {
        let c1 = digit_char(n / 10);
        assert(digit_value(c1) == n / 10 && is_digit(c1));
        assert(decimal(n / 10) == seq![c1]);
        assert(d =~= seq![c1, c0]);
        assert(d.drop_first() =~= seq![c0]);
        assert(d.drop_first().drop_first().len() == 0);
        assert((n / 10) * 10 + n % 10 == n);
    } else {
        let c2 = digit_char(n / 100);
        let c1 = digit_char((n / 10) % 10);
        assert(digit_value(c2) == n / 100 && is_digit(c2));
        assert(digit_value(c1) == (n / 10) % 10 && is_digit(c1));
        assert((n / 10) / 10 == n / 100);
        assert(decimal(n / 100) == seq![c2]);
        assert(decimal(n / 10) =~= seq![c2, c1]);
        assert(d =~= seq![c2, c1, c0]);
        assert(d.drop_first() =~= seq![c1, c0]);
        assert(d.drop_first().drop_first() =~= seq![c0]);
        assert(d.drop_first().drop_first().drop_first().len() == 0);
        assert((n / 100) * 10 + (n / 10) % 10 == n / 10);
        assert((n / 10) * 10 + n % 10 == n);
    }
}

/// A prefix length of at most 32, written in decimal, reads back as itself.
proof fn lemma_prefix_reads(p: nat)
    requires
        p <= 32,
    ensures
        parse_unsigned(decimal(p), 0xffff_ffff) == Ok::<nat, IntErrorKind>(p),
{
    lemma_decimal_reads(p, 0xffff_ffff);
}

/// The text `a/p` reads as the hosts of the block of `a` with the prefix length `p`.
pub proof fn lemma_cidr_text(a: u32, p: nat)
    requires
        p <= 32,
    ensures
        range_spec(cidr_text(a, p)) == Ok::<Seq<Ipv4Addr>, RangeError>(cidr_hosts(a, p)),
{
    let d = dotted(a);
    let q = decimal(p);
    let s = cidr_text(a, p);
    lemma_dotted_shape(a);
    lemma_decimal_digits(p);
    assert(s[0] == d[0]);
    assert(s.last() == q.last());
    lemma_trim_plain(s);
    assert forall|j: int| 0 <= j < d.len() implies #[trigger] s[j] != '/' by {
        assert(s[j] == d[j]);
    }
    assert(s[d.len() as int] == '/');
    lemma_first_index(s, '/', d.len() as int);
    assert forall|j: int| 0 <= j < q.len() implies #[trigger] q[j] != '/' by {}
    lemma_no_char(q, '/');
    assert(s.take(d.len() as int) =~= d);
    assert(s.skip(d.len() as int + 1) =~= q);
    lemma_parse_dotted(a);
    lemma_prefix_reads(p);
}

/// A CIDR block ignores the host bits of its address: two addresses of the same
/// block give, with the same prefix length, the same hosts.
pub proof fn lemma_cidr_ignores_host_bits(a: u32, b: u32, p: nat)
    requires
        p <= 32,
        network_of(a, p) == network_of(b, p),
    ensures
        range_spec(cidr_text(a, p)) == range_spec(cidr_text(b, p)),
{
    lemma_cidr_text(a, p);
    lemma_cidr_text(b, p);
    assert(cidr_hosts(a, p) =~= cidr_hosts(b, p));
}

/// A last-octet range `a.b.c.d-e` names the addresses `a.b.c.d`, `a.b.c.(d+1)`,
/// ..., `a.b.c.e`, in that order: it starts at the start address itself and ends
/// at the address whose last octet is `e`; when `e` is below `d` it names none.
pub proof fn lemma_octet_range(start: u32, last: nat)
    requires
        last <= 255,
    ensures
        range_spec(dotted(start) + seq!['-'] + decimal(last)) matches Ok(v) && {
            let o = octets_of(start);
            &&& (last < o[3] ==> v.len() == 0)
            &&& (last >= o[3] ==> {
                &&& v.len() == last - o[3] + 1
                &&& v[0].bits == start
                &&& octets_of(v.last().bits)[3] == last
                &&& forall|k: int|
                    0 <= k < v.len() ==> octets_of(#[trigger] v[k].bits) == seq![
                        o[0],
                        o[1],
                        o[2],
                        (o[3] + k) as u8,
                    ]
            })
        },
{
    let d = dotted(start);
    let q = decimal(last);
    let s = d + seq!['-'] + q;
    lemma_dotted_shape(start);
    lemma_decimal_digits(last);
    assert(s[0] == d[0]);
    assert(s.last() == q.last());
    lemma_trim_plain(s);
    lemma_trim_plain(q);
    assert forall|j: int| 0 <= j < s.len() implies #[trigger] s[j] != '/' by {
        if j < d.len() {
            assert(s[j] == d[j]);
        } else if j > d.len() {
            assert(s[j] == q[j - d.len() - 1]);
        }
    }
    lemma_no_char(s, '/');
    assert forall|j: int| 0 <= j < d.len() implies #[trigger] s[j] != '-' by {
        assert(s[j] == d[j]);
    }
    assert(s[d.len() as int] == '-');
    lemma_first_index(s, '-', d.len() as int);
    assert forall|j: int| 0 <= j < q.len() implies #[trigger] q[j] != '-' by {}
    lemma_no_char(q, '-');
    assert(s.take(d.len() as int) =~= d);
    assert(s.skip(d.len() as int + 1) =~= q);
    lemma_parse_dotted(start);
    lemma_decimal_reads(last, 255);
    let v = octet_run(start, last);
    assert(range_spec(s) == Ok::<Seq<Ipv4Addr>, RangeError>(v));
    let o = octets_of(start);
    if last >= o[3] {
        assert forall|k: int| 0 <= k < v.len() implies octets_of(#[trigger] v[k].bits) == seq![
            o[0],
            o[1],
            o[2],
            (o[3] + k) as u8,
        ] by {
            lemma_octets_roundtrip(o[0], o[1], o[2], (o[3] + k) as u8, start);
        }
        lemma_octets_roundtrip(o[0], o[1], o[2], o[3], start);
        assert(v[0].bits == from_octets(o[0], o[1], o[2], o[3]));
        let n = v.len() - 1;
        assert(octets_of(v[n].bits) == seq![o[0], o[1], o[2], (o[3] + n) as u8]);
    }
}

/// Digits followed somewhere by a character that is not a digit do not read as
/// a number.
proof fn lemma_scan_stops(s: Seq<char>, acc: nat, max: nat, i: int)
    requires
        0 <= i < s.len(),
        !is_digit(s[i]),
    ensures
        scan_digits(s, acc, max) is Err,
    decreases s.len(),
{
    if is_digit(s[0]) && acc * 10 + digit_value(s[0]) <= max {
        assert(i > 0);
        assert(s.drop_first()[i - 1] == s[i]);
        lemma_scan_stops(s.drop_first(), acc * 10 + digit_value(s[0]), max, i - 1);
    }
}

/// A range of whole addresses `a-b` names every address from `a` to `b`, one
/// after the other; when `b` comes before `a` it is refused as ending before it
/// starts.
pub proof fn lemma_address_range(a: u32, b: u32)
    ensures
        b < a ==> range_spec(dotted(a) + seq!['-'] + dotted(b)) == Err::<Seq<Ipv4Addr>, RangeError>(
            RangeError::EndBeforeStart,
        ),
        a <= b ==> (range_spec(dotted(a) + seq!['-'] + dotted(b)) matches Ok(v) && v.len() == b - a
            + 1 && forall|k: int| 0 <= k < v.len() ==> #[trigger] v[k].bits == a + k),
{
    let d = dotted(a);
    let q = dotted(b);
    let s = d + seq!['-'] + q;
    lemma_dotted_shape(a);
    lemma_dotted_shape(b);
    assert(s[0] == d[0]);
    assert(s.last() == q.last());
    lemma_trim_plain(s);
    lemma_trim_plain(q);
    assert forall|j: int| 0 <= j < s.len() implies #[trigger] s[j] != '/' by {
        if j < d.len() {
            assert(s[j] == d[j]);
        } else if j > d.len() {
            assert(s[j] == q[j - d.len() - 1]);
        }
    }
    lemma_no_char(s, '/');
    assert forall|j: int| 0 <= j < d.len() implies #[trigger] s[j] != '-' by {
        assert(s[j] == d[j]);
    }
    assert(s[d.len() as int] == '-');
    lemma_first_index(s, '-', d.len() as int);
    assert forall|j: int| 0 <= j < q.len() implies #[trigger] q[j] != '-' by {}
    lemma_no_char(q, '-');
    assert(s.take(d.len() as int) =~= d);
    assert(s.skip(d.len() as int + 1) =~= q);
    lemma_parse_dotted(a);
    lemma_parse_dotted(b);
    let dot = choose|j: int| 0 <= j < q.len() && q[j] == '.';
    assert(exists|j: int| 0 <= j < q.len() && q[j] == '.') by {
        let n0 = decimal(octets_of(b)[0] as nat).len() as int;
        lemma_decimal_digits(octets_of(b)[0] as nat);
        assert(q[n0] == '.');
    }
    lemma_scan_stops(q, 0, 255, dot);
    assert(parse_unsigned(q, 255) is Err);
    if a <= b {
        lemma_addr_run(a as nat, (b + 1) as nat);
    }
}

} // verus!
