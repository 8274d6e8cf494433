//! The range that a scan starts from: the `/24` of the machine's own address.

use vstd::prelude::*;
use crate::ipv4::{
    dotted, from_octets, lemma_dotted_shape, lemma_octets_roundtrip, lemma_parse_dotted, octets_of,
    Ipv4Addr,
};
use crate::range::{
    cidr_hosts, dash_range, lemma_cidr24_octets, octet_run, range_spec, split_pair, RangeError,
};
use crate::text::{
    decimal, first_index, lemma_first_index, lemma_no_char, lemma_trim_plain, parse_unsigned,
    push_char, push_decimal, push_str, scan_digits, trim,
};

verus! {

/// The range offered when the scanner opens: hosts 1 to 254 of the local
/// address's `/24`, or of 192.168.1.0/24 when no local address is known.
pub open spec fn suggested_range(local: Option<Ipv4Addr>) -> Seq<char> {
    match local {
        Some(ip) => {
            let o = octets_of(ip.bits);
            decimal(o[0] as nat) + seq!['.'] + decimal(o[1] as nat) + seq!['.'] + decimal(
                o[2] as nat,
            ) + ".1-254"@
        },
        None => "192.168.1.1-254"@,
    }
}

/// The range offered when the scanner opens, from the machine's local IPv4
/// address if one was found.
pub fn suggest_range(local: Option<Ipv4Addr>) -> (r: String)
    ensures
        r@ == suggested_range(local),
{
    match local {
        Some(ip) => {
            let o = ip.octets();
            let mut out = String::new();
            push_decimal(&mut out, o[0] as u64);
            push_char(&mut out, '.');
            push_decimal(&mut out, o[1] as u64);
            push_char(&mut out, '.');
            push_decimal(&mut out, o[2] as u64);
            push_str(&mut out, ".1-254");
            assert(out@ =~= suggested_range(local));
            out
        },
        None => String::from_str("192.168.1.1-254"),
    }
}

/// The offered range text is the dotted form of host 1 of the `/24`, a dash, and 254.
proof fn lemma_suggested_shape(ip: Ipv4Addr)
    ensures
        suggested_range(Some(ip)) == dotted(
            from_octets(octets_of(ip.bits)[0], octets_of(ip.bits)[1], octets_of(ip.bits)[2], 1),
        ) + seq!['-'] + seq!['2', '5', '4'],
{
    let o = octets_of(ip.bits);
    let y = from_octets(o[0], o[1], o[2], 1);
    lemma_octets_roundtrip(o[0], o[1], o[2], 1, ip.bits);
    assert(octets_of(y) == seq![o[0], o[1], o[2], 1u8]);
    assert(decimal(1) =~= seq!['1']);
    reveal_strlit(".1-254");
    assert(suggested_range(Some(ip)) =~= dotted(y) + seq!['-'] + seq!['2', '5', '4']);
}

/// `254` reads as the octet 254.
proof fn lemma_read_254()
    ensures
        parse_unsigned(seq!['2', '5', '4'], 255) == Ok::<nat, crate::text::IntErrorKind>(254),
        trim(seq!['2', '5', '4']) == seq!['2', '5', '4'],
        first_index(seq!['2', '5', '4'], '-') is None,
{
    let tail = seq!['2', '5', '4'];
    lemma_trim_plain(tail);
    lemma_no_char(tail, '-');
    reveal_with_fuel(scan_digits, 4);
    assert(tail.drop_first() =~= seq!['5', '4']);
    assert(tail.drop_first().drop_first() =~= seq!['4']);
    assert(tail.drop_first().drop_first().drop_first() =~= Seq::<char>::empty());
}

/// An address's dotted form, a dash and `254` read as the rest of its `/24` up to 254.
proof fn lemma_dash_254(y: u32)
    ensures
        dash_range(dotted(y) + seq!['-'] + seq!['2', '5', '4']) == Ok::<
            Seq<Ipv4Addr>,
            RangeError,
        >(octet_run(y, 254)),
{
    let tail = seq!['2', '5', '4'];
    let d = dotted(y);
    let s = d + seq!['-'] + tail;
    lemma_dotted_shape(y);
    assert forall|i: int| 0 <= i < d.len() implies #[trigger] s[i] != '-' by {
        assert(s[i] == d[i]);
    }
    lemma_first_index(s, '-', d.len() as int);
    assert(s.skip(d.len() as int + 1) =~= tail);
    assert(s.take(d.len() as int) =~= d);
    lemma_read_254();
    assert(split_pair(s, '-') == Some((d, tail)));
    lemma_parse_dotted(y);
}

/// The offered range names exactly the hosts of the local address's `/24`.
pub proof fn lemma_suggested_range_hosts(ip: Ipv4Addr)
    ensures
        range_spec(suggested_range(Some(ip))) == Ok::<Seq<Ipv4Addr>, RangeError>(
            cidr_hosts(ip.bits, 24),
        ),
{
    let o = octets_of(ip.bits);
    let y = from_octets(o[0], o[1], o[2], 1);
    let d = dotted(y);
    let s = suggested_range(Some(ip));
    lemma_suggested_shape(ip);
    lemma_dotted_shape(y);
    assert(s[0] == d[0]);
    lemma_trim_plain(s);
    assert forall|i: int| 0 <= i < s.len() implies #[trigger] s[i] != '/' by {
        if i < d.len() {
            assert(s[i] == d[i]);
        }
    }
    lemma_no_char(s, '/');
    assert(s[d.len() as int] == '-');
    lemma_dash_254(y);
    lemma_cidr24_octets(ip.bits);
}

} // verus!
