//! What a scan finds out about one host, and the decisions the scanner takes
//! between its probes: which probes to run, how their answers are read, and how
//! they make up a result.

use vstd::prelude::*;
use crate::ipv4::{dotted, Ipv4Addr};
use crate::text::{chars_of, push_char, string_of_span, trim, trim_span};

verus! {

/// The TCP ports that a port scan probes.
pub const COMMON_PORTS: [u16; 22] = [
    21,
    22,
    23,
    25,
    53,
    80,
    110,
    135,
    139,
    143,
    443,
    445,
    993,
    995,
    1433,
    1521,
    3306,
    3389,
    5432,
    5900,
    8080,
    8443,
];

/// Whether a host answered.
#[derive(Clone, Copy, Debug, PartialEq, Eq, Structural)]
pub enum HostStatus {
    Alive,
    Dead,
    Unknown,
}

/// The name under which a status is shown.
pub open spec fn status_text(s: HostStatus) -> Seq<char> {
    match s {
        HostStatus::Alive => "Alive"@,
        HostStatus::Dead => "Dead"@,
        HostStatus::Unknown => "Unknown"@,
    }
}

impl HostStatus {
    /// The name under which the status is shown.
    pub fn to_string(&self) -> (r: String)
        ensures
            r@ == status_text(*self),
    {
        match self {
            HostStatus::Alive => String::from_str("Alive"),
            HostStatus::Dead => String::from_str("Dead"),
            HostStatus::Unknown => String::from_str("Unknown"),
        }
    }
}

/// What a scan found out about one host. The round-trip time is kept in whole
/// microseconds.
pub struct ScanResult {
    pub ip: Ipv4Addr,
    pub hostname: String,
    pub mac: String,
    pub vendor: String,
    pub latency_us: Option<u64>,
    pub open_ports: Vec<u16>,
    pub status: HostStatus,
}

/// A host's status from its ping: alive exactly when it answered.
pub open spec fn status_of(latency_us: Option<u64>) -> HostStatus {
    if latency_us is Some {
        HostStatus::Alive
    } else {
        HostStatus::Dead
    }
}

/// The probes to run on a host once its ping is in.
#[derive(Clone, Copy, Debug, PartialEq, Eq, Structural)]
pub struct ProbePlan {
    pub reverse_dns: bool,
    pub arp: bool,
    pub port_scan: bool,
}

/// A probe that scans hosts for liveness, name, MAC address and open ports.
#[derive(Clone, Copy, Debug, PartialEq, Eq, Structural)]
pub struct Scanner {
    pub timeout_ms: u32,
    pub scan_ports: bool,
}

/// The text of an answer that is missing: the empty string.
pub open spec fn text_or_empty(s: Option<String>) -> Seq<char> {
    match s {
        Some(t) => t@,
        None => Seq::empty(),
    }
}

impl Scanner {
    /// A scanner with the given ping timeout, which scans ports when `scan_ports` holds.
    pub fn new(timeout_ms: u32, scan_ports: bool) -> (r: Scanner)
        ensures
            r.timeout_ms == timeout_ms,
            r.scan_ports == scan_ports,
    {
        Scanner { timeout_ms, scan_ports }
    }

    /// The probes that follow a ping: a host that answered gets a reverse DNS lookup
    /// and an ARP request, and a port scan when this scanner scans ports; a host that
    /// did not answer gets none.
    pub fn plan_after_ping(&self, latency_us: Option<u64>) -> (r: ProbePlan)
        ensures
            r.reverse_dns == latency_us is Some,
            r.arp == latency_us is Some,
            r.port_scan == (latency_us is Some && self.scan_ports),
    {
        let alive = latency_us.is_some();
        ProbePlan { reverse_dns: alive, arp: alive, port_scan: alive && self.scan_ports }
    }

    /// The result for `ip` from the answers of the probes. A host that did not
    /// answer its ping is dead and has nothing else; for one that did, a missing
    /// name or MAC address is empty, the vendor counts only with a MAC address,
    /// and the open ports only when this scanner scans ports.
    pub fn host_result(
        &self,
        ip: Ipv4Addr,
        latency_us: Option<u64>,
        hostname: Option<String>,
        mac: Option<String>,
        vendor: Option<String>,
        open_ports: Vec<u16>,
    ) -> (r: ScanResult)
        ensures
            r.ip == ip,
            r.latency_us == latency_us,
            r.status == status_of(latency_us),
            r.hostname@ == (if latency_us is Some {
                text_or_empty(hostname)
            } else {
                Seq::<char>::empty()
            }),
            r.mac@ == (if latency_us is Some {
                text_or_empty(mac)
            } else {
                Seq::<char>::empty()
            }),
            r.vendor@ == (if latency_us is Some && mac is Some {
                text_or_empty(vendor)
            } else {
                Seq::<char>::empty()
            }),
            r.open_ports@ == (if latency_us is Some && self.scan_ports {
                open_ports@
            } else {
                Seq::<u16>::empty()
            }),
    {
        let mut out_hostname = String::new();
        let mut out_mac = String::new();
        let mut out_vendor = String::new();
        let mut out_ports: Vec<u16> = Vec::new();
        let status = if latency_us.is_some() {
            HostStatus::Alive
        } else {
            HostStatus::Dead
        };
        if latency_us.is_some() {
            if let Some(h) = hostname {
                out_hostname = h;
            }
            if let Some(m) = mac {
                if let Some(v) = vendor {
                    out_vendor = v;
                }
                out_mac = m;
            }
            if self.scan_ports {
                out_ports = open_ports;
            }
        }
        ScanResult {
            ip,
            hostname: out_hostname,
            mac: out_mac,
            vendor: out_vendor,
            latency_us,
            open_ports: out_ports,
            status,
        }
    }
}

/// Open ports in ascending order, each as often as it was found.
pub fn sorted_ports(ports: Vec<u16>) -> (r: Vec<u16>)
    ensures
        r@.to_multiset() == ports@.to_multiset(),
        forall|i: int, j: int| 0 <= i < j < r.len() ==> r[i] <= r[j],
{
    let mut out: Vec<u16> = Vec::new();
    let mut k: usize = 0;
    broadcast use vstd::seq_lib::group_to_multiset_ensures;

    while k < ports.len()
        invariant
            k <= ports.len(),
            out@.to_multiset() == ports@.take(k as int).to_multiset(),
            forall|i: int, j: int| 0 <= i < j < out.len() ==> out[i] <= out[j],
        decreases ports.len() - k,
    {
        let p = ports[k];
        let mut pos: usize = out.len();
        while pos > 0 && out[pos - 1] > p
            invariant
                pos <= out.len(),
                forall|i: int| pos <= i < out.len() ==> out[i] > p,
            decreases pos,
        {
            pos = pos - 1;
        }
        let ghost before = out@;
        out.insert(pos, p);
        proof {
            before.insert_ensures(pos as int, p);
            assert(ports@.take(k + 1) =~= ports@.take(k as int).push(p));
            ports@.take(k as int).to_multiset_ensures();
            assert(ports@.take(k as int).push(p).to_multiset() =~= ports@.take(
                k as int,
            ).to_multiset().insert(p));
            assert(before.insert(pos as int, p).to_multiset() =~= before.to_multiset().insert(p))
                by {
                lemma_insert_multiset(before, pos as int, p);
            }
            assert(out@ == before.insert(pos as int, p));
            assert(out@.to_multiset() == ports@.take(k + 1).to_multiset());
            assert forall|i: int, j: int| 0 <= i < j < out.len() implies out[i] <= out[j] by {
                if j < pos {
                } else if j == pos {
                    if pos > 0 {
                        assert(out[i] == before[i]);
                        assert(before[pos - 1] <= p);
                    }
                } else if i < pos {
                    assert(out[j] == before[j - 1]);
                    if pos < before.len() {
                        assert(before[i] <= before[pos as int]);
                    }
                } else if i == pos {
                    assert(out[j] == before[j - 1]);
                } else {
                    assert(out[i] == before[i - 1]);
                    assert(out[j] == before[j - 1]);
                }
            }
        }
        k = k + 1;
    }
    assert(ports@.take(ports.len() as int) =~= ports@);
    out
}

/// Inserting into a sequence adds the element to its multiset.
proof fn lemma_insert_multiset<A>(s: Seq<A>, i: int, a: A)
    requires
        0 <= i <= s.len(),
    ensures
        s.insert(i, a).to_multiset() =~= s.to_multiset().insert(a),
{
    broadcast use vstd::seq_lib::group_to_multiset_ensures;

    let t = s.insert(i, a);
    s.insert_ensures(i, a);
    assert(t.remove(i) =~= s);
    assert(t[i] == a);
}

/// The uppercase hexadecimal digit of `d`.
pub open spec fn hex_digit(d: nat) -> char {
    if d < 10 {
        (d + 48) as char
    } else {
        (d + 55) as char
    }
}

/// A byte as two uppercase hexadecimal digits.
pub open spec fn hex2(b: u8) -> Seq<char> {
    seq![hex_digit((b / 16) as nat), hex_digit((b % 16) as nat)]
}

/// A MAC address written as six colon-separated pairs of uppercase hex digits,
/// such as `AA:BB:CC:DD:EE:FF`.
pub open spec fn mac_text(m: Seq<u8>) -> Seq<char> {
    hex2(m[0]) + seq![':'] + hex2(m[1]) + seq![':'] + hex2(m[2]) + seq![':'] + hex2(m[3]) + seq![
        ':',
    ] + hex2(m[4]) + seq![':'] + hex2(m[5])
}

fn push_hex2(out: &mut String, b: u8)
    ensures
        final(out)@ == old(out)@ + hex2(b),
{
    let hi = b / 16;
    let lo = b % 16;
    let c1 = if hi < 10 {
        (hi + 48) as char
    } else {
        (hi + 55) as char
    };
    let c2 = if lo < 10 {
        (lo + 48) as char
    } else {
        (lo + 55) as char
    };
    push_char(out, c1);
    push_char(out, c2);
    assert(out@ =~= old(out)@ + hex2(b));
}

/// The MAC address from an ARP reply, as the scanner keeps it: only a reply that
/// succeeded (`status` 0) with a six-byte address counts, and the empty address
/// 00:00:00:00:00:00 and the broadcast address FF:FF:FF:FF:FF:FF are dropped.
pub fn mac_from_arp(status: u32, mac_len: u32, mac: [u8; 6]) -> (r: Option<String>)
    ensures
        r is Some <==> (status == 0 && mac_len == 6 && !(forall|i: int|
            0 <= i < 6 ==> #[trigger] mac@[i] == 0) && !(forall|i: int|
            0 <= i < 6 ==> #[trigger] mac@[i] == 255)),
        r matches Some(t) ==> t@ == mac_text(mac@),
{
    if status != 0 || mac_len != 6 {
        return None;
    }
    let mut all_zero = true;
    let mut all_ff = true;
    let mut i: usize = 0;
    while i < 6
        invariant
            i <= 6,
            all_zero == (forall|j: int| 0 <= j < i ==> #[trigger] mac@[j] == 0),
            all_ff == (forall|j: int| 0 <= j < i ==> #[trigger] mac@[j] == 255),
        decreases 6 - i,
    {
        let b = mac[i];
        all_zero = all_zero && b == 0;
        all_ff = all_ff && b == 255;
        i = i + 1;
    }
    if all_zero || all_ff {
        return None;
    }
    let mut out = String::new();
    push_hex2(&mut out, mac[0]);
    push_char(&mut out, ':');
    push_hex2(&mut out, mac[1]);
    push_char(&mut out, ':');
    push_hex2(&mut out, mac[2]);
    push_char(&mut out, ':');
    push_hex2(&mut out, mac[3]);
    push_char(&mut out, ':');
    push_hex2(&mut out, mac[4]);
    push_char(&mut out, ':');
    push_hex2(&mut out, mac[5]);
    assert(out@ =~= mac_text(mac@));
    Some(out)
}

/// The host name from a reverse DNS lookup, as the scanner keeps it: a name that
/// is only the address written out again counts as no name.
pub fn reverse_name(ip: Ipv4Addr, looked_up: Option<String>) -> (r: Option<String>)
    ensures
        r is Some <==> (looked_up matches Some(n) && n@ != dotted(ip.bits)),
        r matches Some(n) ==> looked_up == Some(n),
{
    match looked_up {
        Some(n) => {
            let own = ip.to_string();
            if n == own {
                None
            } else {
                Some(n)
            }
        },
        None => None,
    }
}

/// The first position at or after `i` where `pat` occurs in `s`.
pub open spec fn find_from(s: Seq<char>, pat: Seq<char>, i: nat) -> Option<nat>
    decreases s.len() - i,
{
    if i + pat.len() > s.len() {
        None
    } else if pat.len() == 0 || s.subrange(i as int, i as int + pat.len()) == pat {
        Some(i)
    } else {
        find_from(s, pat, i + 1)
    }
}

/// The first position where `pat` occurs in `s`, as `str::find` gives it.
pub open spec fn find_str(s: Seq<char>, pat: Seq<char>) -> Option<nat> {
    find_from(s, pat, 0)
}

/// Whether `pat` occurs at `s[i..]`.
fn occurs_at(s: &Vec<char>, i: usize, hi: usize, pat: &Vec<char>) -> (r: bool)
    requires
        i <= hi <= s.len(),
    ensures
        r == (i + pat.len() <= hi && s@.subrange(i as int, i + pat.len()) == pat@),
{
    if pat.len() > hi - i {
        return false;
    }
    let mut k: usize = 0;
    while k < pat.len()
        invariant
            k <= pat.len(),
            i + pat.len() <= hi <= s.len(),
            forall|j: int| 0 <= j < k ==> s@[i + j] == pat@[j],
        decreases pat.len() - k,
    {
        if s[i + k] != pat[k] {
            assert(s@.subrange(i as int, i + pat.len())[k as int] != pat@[k as int]);
            return false;
        }
        k = k + 1;
    }
    assert(s@.subrange(i as int, i + pat.len()) =~= pat@);
    true
}

/// Finds the first occurrence of `pat` in `s[lo..hi]`; the position returned is one in `s`.
fn find_str_span(s: &Vec<char>, lo: usize, hi: usize, pat: &Vec<char>) -> (r: Option<usize>)
    requires
        lo <= hi <= s.len(),
    ensures
        match r {
            Some(i) => lo <= i && i + pat.len() <= hi && find_str(
                s@.subrange(lo as int, hi as int),
                pat@,
            ) == Some((i - lo) as nat),
            None => find_str(s@.subrange(lo as int, hi as int), pat@) is None,
        },
{
    let ghost sub = s@.subrange(lo as int, hi as int);
    let mut i: usize = lo;
    loop
        invariant
            lo <= i <= hi <= s.len(),
            sub == s@.subrange(lo as int, hi as int),
            find_str(sub, pat@) == find_from(sub, pat@, (i - lo) as nat),
        decreases hi - i,
    {
        let found = occurs_at(s, i, hi, pat);
        proof {
            let k = (i - lo) as nat;
            if k + pat@.len() <= sub.len() {
                assert(sub.subrange(k as int, k as int + pat@.len()) =~= s@.subrange(
                    i as int,
                    i + pat@.len(),
                ));
            }
            if pat@.len() == 0 && i + pat.len() <= hi {
                assert(s@.subrange(i as int, i + pat.len()) =~= pat@);
            }
        }
        if found {
            return Some(i);
        }
        if i == hi {
            return None;
        }
        i = i + 1;
    }
}

/// The round-trip text that follows `prefix` in a ping reply, trimmed, up to the
/// first `ms` after it; nothing when the prefix or the `ms` is missing.
pub open spec fn rtt_after(s: Seq<char>, prefix: Seq<char>) -> Seq<Seq<char>> {
    match find_str(s, prefix) {
        None => Seq::empty(),
        Some(p) => {
            let rest = s.skip(p as int + prefix.len());
            match find_str(rest, "ms"@) {
                None => Seq::empty(),
                Some(e) => seq![trim(rest.take(e as int))],
            }
        },
    }
}

/// What the output of the system `ping` command says: nothing when it holds no
/// `TTL=` or `ttl=` (no reply came), else the round-trip texts that follow
/// `temps=`, `time=`, `temps<` and `time<`, in that order.
pub open spec fn ping_rtt_texts(s: Seq<char>) -> Option<Seq<Seq<char>>> {
    if find_str(s, "TTL="@) is None && find_str(s, "ttl="@) is None {
        None
    } else {
        Some(
            rtt_after(s, "temps="@) + rtt_after(s, "time="@) + rtt_after(s, "temps<"@) + rtt_after(
                s,
                "time<"@,
            ),
        )
    }
}

fn push_rtt_after(out: &mut Vec<String>, s: &Vec<char>, prefix: &str)
    ensures
        final(out)@.len() == old(out)@.len() + rtt_after(s@, prefix@).len(),
        forall|i: int| 0 <= i < old(out)@.len() ==> #[trigger] final(out)@[i] == old(out)@[i],
        forall|i: int|
            0 <= i < rtt_after(s@, prefix@).len() ==> #[trigger] final(out)@[old(out)@.len()
                + i]@ == rtt_after(s@, prefix@)[i],
{
    let pat = chars_of(prefix);
    let ms = chars_of("ms");
    let n = s.len();
    assert(s@.subrange(0, n as int) =~= s@);
    match find_str_span(s, 0, n, &pat) {
        None => {},
        Some(p) => {
            let start = p + pat.len();
            let ghost rest = s@.skip(p as int + prefix@.len());
            assert(rest =~= s@.subrange(start as int, n as int));
            match find_str_span(s, start, n, &ms) {
                None => {},
                Some(e) => {
                    assert(rest.take(e - start) =~= s@.subrange(start as int, e as int));
                    let (a, b) = trim_span(s, start, e);
                    let t = string_of_span(s, a, b);
                    out.push(t);
                },
            }
        },
    }
}

/// Reads the output of the system `ping` command: `None` when no reply came,
/// else the round-trip texts to try, in order.
pub fn ping_rtt_texts_of(stdout: &str) -> (r: Option<Vec<String>>)
    ensures
        match r {
            None => ping_rtt_texts(stdout@) is None,
            Some(v) => ping_rtt_texts(stdout@) matches Some(t) && v@.len() == t.len() && forall|
                i: int,
            | 0 <= i < t.len() ==> #[trigger] v@[i]@ == t[i],
        },
{
    let s = chars_of(stdout);
    let n = s.len();
    assert(s@.subrange(0, n as int) =~= s@);
    let upper = chars_of("TTL=");
    let lower = chars_of("ttl=");
    if find_str_span(&s, 0, n, &upper).is_none() && find_str_span(&s, 0, n, &lower).is_none() {
        return None;
    }
    let mut out: Vec<String> = Vec::new();
    push_rtt_after(&mut out, &s, "temps=");
    let ghost o1 = out@;
    push_rtt_after(&mut out, &s, "time=");
    let ghost o2 = out@;
    push_rtt_after(&mut out, &s, "temps<");
    let ghost o3 = out@;
    push_rtt_after(&mut out, &s, "time<");
    proof {
        let t = ping_rtt_texts(stdout@).unwrap();
        let a = rtt_after(s@, "temps="@);
        let b = rtt_after(s@, "time="@);
        let c = rtt_after(s@, "temps<"@);
        let d = rtt_after(s@, "time<"@);
        assert(t == a + b + c + d);
        assert forall|i: int| 0 <= i < t.len() implies #[trigger] out@[i]@ == t[i] by {
            if i < a.len() {
                assert(o1[0 + i]@ == a[i]);
                assert(o2[i] == o1[i]);
                assert(o3[i] == o2[i]);
                assert(out@[i] == o3[i]);
            } else if i < a.len() + b.len() {
                let j = i - a.len();
                assert(o2[o1.len() + j]@ == b[j]);
                assert(o3[i] == o2[i]);
                assert(out@[i] == o3[i]);
            } else if i < a.len() + b.len() + c.len() {
                let j = i - a.len() - b.len();
                assert(o3[o2.len() + j]@ == c[j]);
                assert(out@[i] == o3[i]);
            } else {
                let j = i - a.len() - b.len() - c.len();
                assert(out@[o3.len() + j]@ == d[j]);
            }
        }
    }
    Some(out)
}

/// The little-endian `u32` in `b[at..at + 4]`.
pub open spec fn le_u32(b: Seq<u8>, at: int) -> nat {
    (b[at] + b[at + 1] * 256 + b[at + 2] * 65536 + b[at + 3] * 16777216) as nat
}

/// The round-trip time, in milliseconds, from the answer of an ICMP echo request:
/// `replies` is the number of replies, `reply` the reply buffer, an
/// `ICMP_ECHO_REPLY` whose status is at byte 4 and whose round-trip time is at
/// byte 8, both in the little-endian order of the machines that run the scanner.
/// There is a time only when a reply came with status 0.
pub fn echo_reply_rtt(replies: u32, reply: &Vec<u8>) -> (r: Option<u32>)
    requires
        reply.len() >= 12,
    ensures
        r == (if replies > 0 && le_u32(reply@, 4) == 0 {
            Some(le_u32(reply@, 8) as u32)
        } else {
            None::<u32>
        }),
{
    if replies == 0 {
        return None;
    }
    let status = reply[4] as u32 + (reply[5] as u32) * 256 + (reply[6] as u32) * 65536 + (
    reply[7] as u32) * 16777216;
    if status != 0 {
        return None;
    }
    let rtt = reply[8] as u32 + (reply[9] as u32) * 256 + (reply[10] as u32) * 65536 + (
    reply[11] as u32) * 16777216;
    Some(rtt)
}

/// Whether `pat` occurs in `s` at position `i`.
pub open spec fn occurs_at_pos(s: Seq<char>, pat: Seq<char>, i: int) -> bool {
    0 <= i && i + pat.len() <= s.len() && s.subrange(i, i + pat.len()) == pat
}

/// Whether `pat` occurs anywhere in `s`.
pub open spec fn occurs_in(s: Seq<char>, pat: Seq<char>) -> bool {
    exists|i: int| occurs_at_pos(s, pat, i)
}

/// A search from `i` finds the first occurrence of a non-empty pattern at or after `i`.
proof fn lemma_find_first(s: Seq<char>, pat: Seq<char>, i: nat, p: int)
    requires
        pat.len() > 0,
        i <= p,
        occurs_at_pos(s, pat, p),
        forall|q: int| i <= q < p ==> !#[trigger] occurs_at_pos(s, pat, q),
    ensures
        find_from(s, pat, i) == Some(p as nat),
    decreases p - i,
{
    if i < p {
        assert(!occurs_at_pos(s, pat, i as int));
        lemma_find_first(s, pat, i + 1, p);
    }
}

/// A search from `i` finds something when the pattern occurs at or after `i`.
proof fn lemma_find_some(s: Seq<char>, pat: Seq<char>, i: nat, p: int)
    requires
        i <= p,
        occurs_at_pos(s, pat, p),
    ensures
        find_from(s, pat, i) is Some,
    decreases p - i,
{
    if i < p && !(pat.len() == 0 || s.subrange(i as int, i as int + pat.len()) == pat) {
        lemma_find_some(s, pat, i + 1, p);
    }
}

/// A search from `i` finds nothing when a non-empty pattern does not occur at or after `i`.
proof fn lemma_find_none(s: Seq<char>, pat: Seq<char>, i: nat)
    requires
        pat.len() > 0,
        forall|q: int| i <= q ==> !#[trigger] occurs_at_pos(s, pat, q),
    ensures
        find_from(s, pat, i) is None,
    decreases s.len() - i,
{
    if i + pat.len() <= s.len() {
        assert(!occurs_at_pos(s, pat, i as int));
        lemma_find_none(s, pat, i + 1);
    }
}

/// The prefixes before a round-trip time in a ping reply, in the order they are
/// tried: French, then English, each with `=` and then with `<`.
pub open spec fn rtt_prefixes() -> Seq<Seq<char>> {
    seq!["temps="@, "time="@, "temps<"@, "time<"@]
}

/// The text read after a prefix that first occurs at `p` and is followed first by
/// `ms` at `e` is the text between them, trimmed; a prefix that does not occur
/// gives none.
proof fn lemma_rtt_after_reads(s: Seq<char>, prefix: Seq<char>, p: int, e: int)
    requires
        prefix.len() > 0,
        occurs_at_pos(s, prefix, p),
        forall|q: int| 0 <= q < p ==> !#[trigger] occurs_at_pos(s, prefix, q),
        p + prefix.len() <= e,
        occurs_at_pos(s, "ms"@, e),
        forall|q: int| p + prefix.len() <= q < e ==> !#[trigger] occurs_at_pos(s, "ms"@, q),
    ensures
        rtt_after(s, prefix) == seq![trim(s.subrange(p + prefix.len(), e))],
{
    reveal_strlit("ms");
    lemma_find_first(s, prefix, 0, p);
    let b = p + prefix.len();
    let rest = s.skip(b);
    let m = "ms"@;
    assert(occurs_at_pos(rest, m, e - b)) by {
        assert(rest.subrange(e - b, e - b + 2) =~= s.subrange(e, e + 2));
    }
    assert forall|q: int| 0 <= q < e - b implies !#[trigger] occurs_at_pos(rest, m, q) by {
        if occurs_at_pos(rest, m, q) {
            assert(rest.subrange(q, q + 2) =~= s.subrange(q + b, q + b + 2));
            assert(occurs_at_pos(s, m, q + b));
        }
    }
    lemma_find_first(rest, m, 0, e - b);
    assert(rest.take(e - b) =~= s.subrange(b, e));
}

/// A prefix that does not occur gives no text.
proof fn lemma_rtt_after_absent(s: Seq<char>, prefix: Seq<char>)
    requires
        prefix.len() > 0,
        !occurs_in(s, prefix),
    ensures
        rtt_after(s, prefix) == Seq::<Seq<char>>::empty(),
{
    lemma_find_none(s, prefix, 0);
}

/// A ping output tells of a reply exactly when it holds `TTL=` or `ttl=`.
pub proof fn lemma_ping_reply_marker(s: Seq<char>)
    ensures
        ping_rtt_texts(s) is Some <==> (occurs_in(s, "TTL="@) || occurs_in(s, "ttl="@)),
{
    reveal_strlit("TTL=");
    reveal_strlit("ttl=");
    if occurs_in(s, "TTL="@) {
        let i = choose|i: int| occurs_at_pos(s, "TTL="@, i);
        lemma_find_some(s, "TTL="@, 0, i);
    } else {
        lemma_find_none(s, "TTL="@, 0);
    }
    if occurs_in(s, "ttl="@) {
        let i = choose|i: int| occurs_at_pos(s, "ttl="@, i);
        lemma_find_some(s, "ttl="@, 0, i);
    } else {
        lemma_find_none(s, "ttl="@, 0);
    }
}

/// In a ping reply, the first round-trip text to try is read after the first
/// prefix of `temps=`, `time=`, `temps<`, `time<` that occurs: when the `k`-th
/// is the first that occurs, first at `p`, and `ms` follows first at `e`, the
/// first text is what lies between them, trimmed; when none of the later ones
/// occurs either, it is the only text. So a French reply `temps=12 ms` reads `12`.
pub proof fn lemma_ping_reads_first_prefix(s: Seq<char>, k: int, p: int, e: int)
    requires
        occurs_in(s, "TTL="@) || occurs_in(s, "ttl="@),
        0 <= k < 4,
        forall|j: int| 0 <= j < k ==> !occurs_in(s, #[trigger] rtt_prefixes()[j]),
        occurs_at_pos(s, rtt_prefixes()[k], p),
        forall|q: int| 0 <= q < p ==> !#[trigger] occurs_at_pos(s, rtt_prefixes()[k], q),
        p + rtt_prefixes()[k].len() <= e,
        occurs_at_pos(s, "ms"@, e),
        forall|q: int| p + rtt_prefixes()[k].len() <= q < e ==> !#[trigger] occurs_at_pos(s, "ms"@, q),
    ensures
        ping_rtt_texts(s) matches Some(t) && t.len() >= 1 && t[0] == trim(
            s.subrange(p + rtt_prefixes()[k].len(), e),
        ) && ((forall|j: int| k < j < 4 ==> !occurs_in(s, #[trigger] rtt_prefixes()[j])) ==> t
            == seq![trim(s.subrange(p + rtt_prefixes()[k].len(), e))]),
{
    reveal_strlit("temps=");
    reveal_strlit("time=");
    reveal_strlit("temps<");
    reveal_strlit("time<");
    lemma_ping_reply_marker(s);
    let ps = rtt_prefixes();
    let x = trim(s.subrange(p + ps[k].len(), e));
    lemma_rtt_after_reads(s, ps[k], p, e);
    let a = rtt_after(s, "temps="@);
    let b = rtt_after(s, "time="@);
    let c = rtt_after(s, "temps<"@);
    let d = rtt_after(s, "time<"@);
    let t = a + b + c + d;
    assert(ping_rtt_texts(s) == Some(t));
    assert forall|j: int| 0 <= j < k implies #[trigger] rtt_after(s, ps[j]) == Seq::<Seq<char>>::empty() by {
        assert(!occurs_in(s, ps[j]));
        lemma_rtt_after_absent(s, ps[j]);
    }
    if forall|j: int| k < j < 4 ==> !occurs_in(s, #[trigger] rtt_prefixes()[j]) {
        assert forall|j: int| k < j < 4 implies #[trigger] rtt_after(s, ps[j]) == Seq::<Seq<char>>::empty() by {
            assert(!occurs_in(s, ps[j]));
            lemma_rtt_after_absent(s, ps[j]);
        }
    }
    if k == 0 {
        assert(ps[0] == "temps="@);
        assert(t[0] == x);
        if forall|j: int| k < j < 4 ==> !occurs_in(s, #[trigger] rtt_prefixes()[j]) {
            assert(rtt_after(s, ps[1]) == Seq::<Seq<char>>::empty());
            assert(rtt_after(s, ps[2]) == Seq::<Seq<char>>::empty());
            assert(rtt_after(s, ps[3]) == Seq::<Seq<char>>::empty());
            assert(t =~= seq![x]);
        }
    } else if k == 1 {
        assert(rtt_after(s, ps[0]) == Seq::<Seq<char>>::empty());
        assert(t[0] == x);
        if forall|j: int| k < j < 4 ==> !occurs_in(s, #[trigger] rtt_prefixes()[j]) {
            assert(rtt_after(s, ps[2]) == Seq::<Seq<char>>::empty());
            assert(rtt_after(s, ps[3]) == Seq::<Seq<char>>::empty());
            assert(t =~= seq![x]);
        }
    } else if k == 2 {
        assert(rtt_after(s, ps[0]) == Seq::<Seq<char>>::empty());
        assert(rtt_after(s, ps[1]) == Seq::<Seq<char>>::empty());
        assert(t[0] == x);
        if forall|j: int| k < j < 4 ==> !occurs_in(s, #[trigger] rtt_prefixes()[j]) {
            assert(rtt_after(s, ps[3]) == Seq::<Seq<char>>::empty());
            assert(t =~= seq![x]);
        }
    } else {
        assert(rtt_after(s, ps[0]) == Seq::<Seq<char>>::empty());
        assert(rtt_after(s, ps[1]) == Seq::<Seq<char>>::empty());
        assert(rtt_after(s, ps[2]) == Seq::<Seq<char>>::empty());
        assert(t =~= seq![x]);
    }
}

/// The value of an uppercase hexadecimal digit, if `c` is one.
pub open spec fn upper_hex_value(c: char) -> Option<nat> {
    if '0' <= c && c <= '9' {
        Some((c as nat - 48) as nat)
    } else if 'A' <= c && c <= 'F' {
        Some((c as nat - 55) as nat)
    } else {
        None
    }
}

/// A byte as two hexadecimal digits reads back as that byte.
proof fn lemma_hex2_reads(b: u8)
    ensures
        hex2(b).len() == 2,
        upper_hex_value(hex2(b)[0]) matches Some(h) && upper_hex_value(hex2(b)[1]) matches Some(l)
            && h * 16 + l == b,
{
    let hi = (b / 16) as nat;
    let lo = (b % 16) as nat;
    assert(hi < 16 && lo < 16);
    assert(hi * 16 + lo == b);
}

/// The text of a MAC address has 17 characters: six pairs of uppercase
/// hexadecimal digits, the `k`-th pair giving the `k`-th byte, with a colon
/// between each two pairs.
pub proof fn lemma_mac_text_reads(m: Seq<u8>)
    requires
        m.len() == 6,
    ensures
        mac_text(m).len() == 17,
        forall|k: int| 0 <= k < 5 ==> #[trigger] mac_text(m)[3 * k + 2] == ':',
        forall|k: int|
            0 <= k < 6 ==> (upper_hex_value(mac_text(m)[3 * k]) matches Some(h) && upper_hex_value(
                mac_text(m)[3 * k + 1],
            ) matches Some(l) && h * 16 + l == #[trigger] m[k]),
{
    let t = mac_text(m);
    lemma_hex2_reads(m[0]);
    lemma_hex2_reads(m[1]);
    lemma_hex2_reads(m[2]);
    lemma_hex2_reads(m[3]);
    lemma_hex2_reads(m[4]);
    lemma_hex2_reads(m[5]);
    assert(t.len() == 17);
    assert forall|k: int| 0 <= k < 6 implies t[3 * k] == hex2(m[k])[0] && t[3 * k + 1] == hex2(
        m[k],
    )[1] && (k < 5 ==> t[3 * k + 2] == ':') by {}
    assert forall|k: int| 0 <= k < 6 implies (upper_hex_value(t[3 * k]) matches Some(h)
        && upper_hex_value(t[3 * k + 1]) matches Some(l) && h * 16 + l == #[trigger] m[k]) by {
        lemma_hex2_reads(m[k]);
        assert(t[3 * k] == hex2(m[k])[0] && t[3 * k + 1] == hex2(m[k])[1]);
    }
}

} // verus!
