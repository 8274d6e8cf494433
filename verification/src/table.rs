//! The results table: the column it is sorted by, the order that gives its rows,
//! and the sort itself, a stable merge sort.

use vstd::prelude::*;
use vstd::relations::{sorted_by, total_ordering};
use crate::scanner::{HostStatus, ScanResult};
use crate::ipv4::Ipv4Addr;
use crate::text::chars_of;

verus! {

/// A column of the results table.
#[derive(Clone, Copy, Debug, PartialEq, Eq, Structural)]
pub enum SortColumn {
    Ip,
    Hostname,
    Mac,
    Vendor,
    Latency,
    Ports,
    Status,
}

/// The column that the results are sorted by, and in which direction.
#[derive(Clone, Copy, Debug, PartialEq, Eq, Structural)]
pub struct SortState {
    pub column: SortColumn,
    pub ascending: bool,
}

impl Default for SortState {
    /// By address, ascending.
    fn default() -> (r: SortState)
        ensures
            r.column == SortColumn::Ip,
            r.ascending,
    {
        SortState { column: SortColumn::Ip, ascending: true }
    }
}

/// Compares two sequences of numbers lexicographically: -1, 0 or 1 as the first
/// comes before, equals or comes after the second.
pub open spec fn seq_order(a: Seq<u64>, b: Seq<u64>) -> int
    decreases a.len(),
{
    if a.len() == 0 {
        if b.len() == 0 {
            0
        } else {
            -1
        }
    } else if b.len() == 0 {
        1
    } else if a[0] < b[0] {
        -1
    } else if a[0] > b[0] {
        1
    } else {
        seq_order(a.drop_first(), b.drop_first())
    }
}

/// The position of a status in the order of their names: Alive, Dead, Unknown.
pub open spec fn status_rank(s: HostStatus) -> nat {
    match s {
        HostStatus::Alive => 0,
        HostStatus::Dead => 1,
        HostStatus::Unknown => 2,
    }
}

/// A text as the sequence of its code points, whose lexicographic order is that
/// of `String`'s `Ord` (UTF-8 keeps the order of code points).
pub open spec fn text_key(t: Seq<char>) -> Seq<u64> {
    t.map_values(|c: char| (c as u32) as u64)
}

/// What a row is sorted by in a column: the address's number; the host name, MAC
/// address or vendor as text; the latency with a missing one first; the number of
/// open ports; or the status by name.
pub open spec fn row_key(r: ScanResult, col: SortColumn) -> Seq<u64> {
    match col {
        SortColumn::Ip => seq![r.ip.bits as u64],
        SortColumn::Hostname => text_key(r.hostname@),
        SortColumn::Mac => text_key(r.mac@),
        SortColumn::Vendor => text_key(r.vendor@),
        SortColumn::Latency => match r.latency_us {
            None => seq![0u64],
            Some(us) => seq![1u64, us],
        },
        SortColumn::Ports => seq![r.open_ports@.len() as u64],
        SortColumn::Status => seq![status_rank(r.status) as u64],
    }
}

/// The sort keys of the rows in a column.
pub open spec fn rows_keys(rows: Seq<ScanResult>, col: SortColumn) -> Seq<Seq<u64>> {
    rows.map_values(|r: ScanResult| row_key(r, col))
}

/// Whether row `i` may come before row `j`: by key in the direction asked for,
/// and by original position between rows with equal keys, which makes the sort
/// stable in both directions.
pub open spec fn keys_le(keys: Seq<Seq<u64>>, ascending: bool, i: usize, j: usize) -> bool {
    let c = if ascending {
        seq_order(keys[i as int], keys[j as int])
    } else {
        seq_order(keys[j as int], keys[i as int])
    };
    c < 0 || (c == 0 && i <= j)
}

/// `p` lists each of `0..n` once.
pub open spec fn is_permutation(p: Seq<usize>, n: nat) -> bool {
    &&& p.len() == n
    &&& p.no_duplicates()
    &&& forall|i: int| 0 <= i < p.len() ==> #[trigger] p[i] < n
}

/// Swapping the arguments negates the comparison, and only equal sequences compare equal.
pub proof fn lemma_seq_order_antisym(a: Seq<u64>, b: Seq<u64>)
    ensures
        seq_order(a, b) == -seq_order(b, a),
        -1 <= seq_order(a, b) <= 1,
        seq_order(a, b) == 0 <==> a == b,
    decreases a.len(),
{
    if a.len() > 0 && b.len() > 0 && a[0] == b[0] {
        lemma_seq_order_antisym(a.drop_first(), b.drop_first());
        if a.drop_first() == b.drop_first() {
            assert(a =~= seq![a[0]] + a.drop_first());
            assert(b =~= seq![b[0]] + b.drop_first());
        }
        if a == b {
            assert(a.drop_first() =~= b.drop_first());
        }
    }
    if a.len() == 0 && b.len() == 0 {
        assert(a =~= b);
    }
}

/// The comparison is transitive.
pub proof fn lemma_seq_order_trans(a: Seq<u64>, b: Seq<u64>, c: Seq<u64>)
    requires
        seq_order(a, b) <= 0,
        seq_order(b, c) <= 0,
    ensures
        seq_order(a, c) <= 0,
        seq_order(a, b) < 0 || seq_order(b, c) < 0 ==> seq_order(a, c) < 0,
    decreases a.len(),
{
    lemma_seq_order_antisym(a, b);
    lemma_seq_order_antisym(b, c);
    lemma_seq_order_antisym(a, c);
    if a.len() > 0 && b.len() > 0 && c.len() > 0 && a[0] == b[0] && b[0] == c[0] {
        lemma_seq_order_trans(a.drop_first(), b.drop_first(), c.drop_first());
    }
}

/// The order between rows is total, which is what a sort needs.
pub proof fn lemma_keys_le_total(keys: Seq<Seq<u64>>, ascending: bool)
    ensures
        total_ordering(|i: usize, j: usize| keys_le(keys, ascending, i, j)),
{
    let le = |i: usize, j: usize| keys_le(keys, ascending, i, j);
    assert forall|i: usize| #[trigger] le(i, i) by {
        lemma_seq_order_antisym(keys[i as int], keys[i as int]);
    }
    assert forall|i: usize, j: usize| #[trigger] le(i, j) && #[trigger] le(j, i) implies i == j by {
        lemma_seq_order_antisym(keys[i as int], keys[j as int]);
    }
    assert forall|i: usize, j: usize, k: usize| #[trigger] le(i, j) && #[trigger] le(j, k) implies le(
        i,
        k,
    ) by {
        lemma_seq_order_antisym(keys[i as int], keys[j as int]);
        lemma_seq_order_antisym(keys[j as int], keys[k as int]);
        lemma_seq_order_antisym(keys[i as int], keys[k as int]);
        if ascending {
            lemma_seq_order_trans(keys[i as int], keys[j as int], keys[k as int]);
        } else {
            lemma_seq_order_trans(keys[k as int], keys[j as int], keys[i as int]);
        }
    }
    assert forall|i: usize, j: usize| #[trigger] le(i, j) || #[trigger] le(j, i) by {
        lemma_seq_order_antisym(keys[i as int], keys[j as int]);
    }
}

/// Compares two keys.
fn key_order(a: &Vec<u64>, b: &Vec<u64>) -> (r: i8)
    ensures
        r as int == seq_order(a@, b@),
{
    let mut i: usize = 0;
    assert(a@.skip(0) =~= a@);
    assert(b@.skip(0) =~= b@);
    while i < a.len() && i < b.len()
        invariant
            i <= a.len(),
            i <= b.len(),
            seq_order(a@, b@) == seq_order(a@.skip(i as int), b@.skip(i as int)),
        decreases a.len() - i,
    {
        let x = a[i];
        let y = b[i];
        proof {
            assert(a@.skip(i as int)[0] == x);
            assert(b@.skip(i as int)[0] == y);
            assert(a@.skip(i as int).drop_first() =~= a@.skip(i + 1));
            assert(b@.skip(i as int).drop_first() =~= b@.skip(i + 1));
        }
        if x < y {
            return -1;
        }
        if x > y {
            return 1;
        }
        i = i + 1;
    }
    if i < a.len() {
        1
    } else if i < b.len() {
        -1
    } else {
        0
    }
}

/// Whether row `i` may come before row `j`.
fn le_rows(keys: &Vec<Vec<u64>>, ascending: bool, i: usize, j: usize) -> (r: bool)
    requires
        i < keys.len(),
        j < keys.len(),
    ensures
        r == keys_le(keys@.map_values(|k: Vec<u64>| k@), ascending, i, j),
{
    let c = if ascending {
        key_order(&keys[i], &keys[j])
    } else {
        key_order(&keys[j], &keys[i])
    };
    c < 0 || (c == 0 && i <= j)
}

/// Merges two sorted lists of rows.
fn merge(keys: &Vec<Vec<u64>>, ascending: bool, left: Vec<usize>, right: Vec<usize>) -> (r: Vec<
    usize,
>)
    requires
        forall|i: int| 0 <= i < left.len() ==> #[trigger] left@[i] < keys.len(),
        forall|i: int| 0 <= i < right.len() ==> #[trigger] right@[i] < keys.len(),
        sorted_by(
            left@,
            |x: usize, y: usize| keys_le(keys@.map_values(|k: Vec<u64>| k@), ascending, x, y),
        ),
        sorted_by(
            right@,
            |x: usize, y: usize| keys_le(keys@.map_values(|k: Vec<u64>| k@), ascending, x, y),
        ),
    ensures
        r@.to_multiset() == (left@ + right@).to_multiset(),
        forall|i: int| 0 <= i < r.len() ==> #[trigger] r@[i] < keys.len(),
        sorted_by(
            r@,
            |x: usize, y: usize| keys_le(keys@.map_values(|k: Vec<u64>| k@), ascending, x, y),
        ),
{
    let ghost kv = keys@.map_values(|k: Vec<u64>| k@);
    let ghost le = |x: usize, y: usize| keys_le(kv, ascending, x, y);
    proof {
        lemma_keys_le_total(kv, ascending);
    }
    let mut out: Vec<usize> = Vec::new();
    let mut i: usize = 0;
    let mut j: usize = 0;
    broadcast use vstd::seq_lib::group_to_multiset_ensures;

    while i < left.len() || j < right.len()
        invariant
            i <= left.len(),
            j <= right.len(),
            kv == keys@.map_values(|k: Vec<u64>| k@),
            le == (|x: usize, y: usize| keys_le(kv, ascending, x, y)),
            total_ordering(le),
            forall|a: int| 0 <= a < left.len() ==> #[trigger] left@[a] < keys.len(),
            forall|a: int| 0 <= a < right.len() ==> #[trigger] right@[a] < keys.len(),
            sorted_by(left@, le),
            sorted_by(right@, le),
            out@.to_multiset() == (left@.take(i as int) + right@.take(j as int)).to_multiset(),
            forall|a: int| 0 <= a < out.len() ==> #[trigger] out@[a] < keys.len(),
            sorted_by(out@, le),
            forall|a: int, b: int|
                0 <= a < out.len() && i <= b < left.len() ==> le(#[trigger] out@[a], #[trigger] left@[b]),
            forall|a: int, b: int|
                0 <= a < out.len() && j <= b < right.len() ==> le(
                    #[trigger] out@[a],
                    #[trigger] right@[b],
                ),
        decreases left.len() + right.len() - i - j,
    {
        let take_left = if i < left.len() && j < right.len() {
            le_rows(keys, ascending, left[i], right[j])
        } else {
            i < left.len()
        };
        let ghost before = out@;
        let x = if take_left {
            left[i]
        } else {
            right[j]
        };
        out.push(x);
        proof {
            if take_left {
                assert(left@.take(i + 1) =~= left@.take(i as int).push(x));
                lemma_multiset_push_mid(left@.take(i as int), right@.take(j as int), x);
            } else {
                assert(right@.take(j + 1) =~= right@.take(j as int).push(x));
                assert(left@.take(i as int) + right@.take(j + 1) =~= (left@.take(i as int)
                    + right@.take(j as int)).push(x));
            }
            (left@.take(i as int) + right@.take(j as int)).to_multiset_ensures();
            before.to_multiset_ensures();
            // x may come after everything already out, and before everything left.
            assert forall|b: int| i + (if take_left { 1int } else { 0 }) <= b < left.len() implies le(
                x,
                #[trigger] left@[b],
            ) by {
                if take_left {
                } else {
                    assert(le(left@[i as int], right@[j as int]) == false);
                    assert(le(right@[j as int], left@[i as int]));
                    assert(le(left@[i as int], left@[b]));
                }
            }
            assert forall|b: int| j + (if take_left { 0int } else { 1 }) <= b < right.len() implies le(
                x,
                #[trigger] right@[b],
            ) by {
                if take_left {
                    assert(j < right.len());
                    assert(i < left.len());
                    assert(keys_le(kv, ascending, left@[i as int], right@[j as int]));
                    assert(le(x, right@[j as int]));
                    if b > j {
                        assert(le(right@[j as int], right@[b]));
                    }
                } else {
                    assert(le(right@[j as int], right@[b]));
                }
            }
        }
        if take_left {
            i = i + 1;
        } else {
            j = j + 1;
        }
        proof {
            assert forall|a: int, b: int| 0 <= a < b < out.len() implies le(
                #[trigger] out@[a],
                #[trigger] out@[b],
            ) by {
                if b == out.len() - 1 {
                    assert(out@[a] == before[a]);
                }
            }
        }
    }
    assert(left@.take(left.len() as int) =~= left@);
    assert(right@.take(right.len() as int) =~= right@);
    out
}

/// Pushing `x` after `a + b` and putting it between them give the same multiset.
proof fn lemma_multiset_push_mid(a: Seq<usize>, b: Seq<usize>, x: usize)
    ensures
        (a.push(x) + b).to_multiset() == (a + b).push(x).to_multiset(),
{
    broadcast use vstd::seq_lib::group_to_multiset_ensures;

    vstd::seq_lib::lemma_multiset_commutative(a.push(x), b);
    vstd::seq_lib::lemma_multiset_commutative(a, b);
    a.to_multiset_ensures();
    (a + b).to_multiset_ensures();
    assert((a.push(x) + b).to_multiset() =~= (a + b).push(x).to_multiset());
}

/// Sorts a list of rows by their keys: a merge sort, stable because rows with
/// equal keys are ordered by position.
fn merge_sort(keys: &Vec<Vec<u64>>, ascending: bool, v: Vec<usize>) -> (r: Vec<usize>)
    requires
        forall|i: int| 0 <= i < v.len() ==> #[trigger] v@[i] < keys.len(),
    ensures
        r@.to_multiset() == v@.to_multiset(),
        forall|i: int| 0 <= i < r.len() ==> #[trigger] r@[i] < keys.len(),
        sorted_by(
            r@,
            |x: usize, y: usize| keys_le(keys@.map_values(|k: Vec<u64>| k@), ascending, x, y),
        ),
    decreases v.len(),
{
    if v.len() <= 1 {
        return v;
    }
    let mid = v.len() / 2;
    let mut left: Vec<usize> = Vec::new();
    let mut right: Vec<usize> = Vec::new();
    let mut k: usize = 0;
    while k < v.len()
        invariant
            k <= v.len(),
            mid < v.len(),
            k <= mid ==> left@ == v@.take(k as int) && right@.len() == 0,
            k > mid ==> left@ == v@.take(mid as int) && right@ == v@.subrange(mid as int, k as int),
        decreases v.len() - k,
    {
        if k < mid {
            left.push(v[k]);
            assert(left@ =~= v@.take(k + 1));
        } else {
            right.push(v[k]);
            assert(right@ =~= v@.subrange(mid as int, k + 1));
        }
        k = k + 1;
    }
    assert(v@ =~= left@ + right@);
    let ghost lv = left@;
    let ghost rv = right@;
    let l = merge_sort(keys, ascending, left);
    let r = merge_sort(keys, ascending, right);
    let ghost ls = l@;
    let ghost rs = r@;
    let out = merge(keys, ascending, l, r);
    proof {
        vstd::seq_lib::lemma_multiset_commutative(ls, rs);
        vstd::seq_lib::lemma_multiset_commutative(lv, rv);
    }
    out
}

/// The order in which the rows with the given keys are shown: each row once,
/// ordered by key in the direction asked for, and by position among equal keys.
pub fn sort_order(keys: &Vec<Vec<u64>>, ascending: bool) -> (p: Vec<usize>)
    ensures
        is_permutation(p@, keys.len() as nat),
        sorted_by(
            p@,
            |x: usize, y: usize| keys_le(keys@.map_values(|k: Vec<u64>| k@), ascending, x, y),
        ),
{
    let n = keys.len();
    let mut idx: Vec<usize> = Vec::new();
    let mut i: usize = 0;
    while i < n
        invariant
            i <= n == keys.len(),
            idx@ == Seq::new(i as nat, |j: int| j as usize),
        decreases n - i,
    {
        idx.push(i);
        assert(idx@ =~= Seq::new((i + 1) as nat, |j: int| j as usize));
        i = i + 1;
    }
    let ghost iv = idx@;
    assert(iv.no_duplicates());
    let p = merge_sort(keys, ascending, idx);
    proof {
        broadcast use vstd::seq_lib::group_to_multiset_ensures;

        iv.lemma_multiset_has_no_duplicates();
        p@.lemma_multiset_has_no_duplicates_conv();
        iv.to_multiset_ensures();
        p@.to_multiset_ensures();
    }
    p
}

/// The key of a text: its code points.
fn text_key_of(t: &String) -> (r: Vec<u64>)
    ensures
        r@ == text_key(t@),
{
    let cs = chars_of(t.as_str());
    let mut out: Vec<u64> = Vec::new();
    let mut i: usize = 0;
    while i < cs.len()
        invariant
            i <= cs.len(),
            cs@ == t@,
            out@ == text_key(t@).take(i as int),
        decreases cs.len() - i,
    {
        out.push((cs[i] as u32) as u64);
        assert(out@ =~= text_key(t@).take(i + 1));
        i = i + 1;
    }
    assert(text_key(t@).take(cs.len() as int) =~= text_key(t@));
    out
}

/// The key of a row in a column.
pub fn row_key_of(r: &ScanResult, col: SortColumn) -> (k: Vec<u64>)
    ensures
        k@ == row_key(*r, col),
{
    let mut k: Vec<u64> = Vec::new();
    match col {
        SortColumn::Ip => {
            k.push(r.ip.bits as u64);
        },
        SortColumn::Hostname => {
            k = text_key_of(&r.hostname);
        },
        SortColumn::Mac => {
            k = text_key_of(&r.mac);
        },
        SortColumn::Vendor => {
            k = text_key_of(&r.vendor);
        },
        SortColumn::Latency => {
            match r.latency_us {
                None => {
                    k.push(0);
                },
                Some(us) => {
                    k.push(1);
                    k.push(us);
                },
            }
        },
        SortColumn::Ports => {
            k.push(r.open_ports.len() as u64);
        },
        SortColumn::Status => {
            let rank: u64 = match r.status {
                HostStatus::Alive => 0,
                HostStatus::Dead => 1,
                HostStatus::Unknown => 2,
            };
            k.push(rank);
        },
    }
    assert(k@ =~= row_key(*r, col));
    k
}

/// A row that holds nothing, to fill a place a moment.
fn blank_row() -> (r: ScanResult)
    ensures
        r.ip.bits == 0,
        r.hostname@.len() == 0,
        r.mac@.len() == 0,
        r.vendor@.len() == 0,
        r.latency_us is None,
        r.open_ports@.len() == 0,
        r.status == HostStatus::Unknown,
{
    ScanResult {
        ip: Ipv4Addr { bits: 0 },
        hostname: String::new(),
        mac: String::new(),
        vendor: String::new(),
        latency_us: None,
        open_ports: Vec::new(),
        status: HostStatus::Unknown,
    }
}

/// The rows of `rows` in the order `p`.
fn permute(rows: Vec<ScanResult>, p: &Vec<usize>) -> (r: Vec<ScanResult>)
    requires
        is_permutation(p@, rows.len() as nat),
    ensures
        r@ == p@.map_values(|i: usize| rows@[i as int]),
{
    let ghost orig = rows@;
    let mut rows = rows;
    let mut out: Vec<ScanResult> = Vec::new();
    let mut k: usize = 0;
    while k < p.len()
        invariant
            k <= p.len() == orig.len() == rows.len(),
            is_permutation(p@, orig.len() as nat),
            forall|m: int| k <= m < p.len() ==> #[trigger] rows@[p@[m] as int] == orig[p@[m] as int],
            out@ == p@.take(k as int).map_values(|i: usize| orig[i as int]),
        decreases p.len() - k,
    {
        let mut tmp = blank_row();
        let at = p[k];
        rows.set_and_swap(at, &mut tmp);
        out.push(tmp);
        proof {
            assert forall|m: int| k + 1 <= m < p.len() implies #[trigger] rows@[p@[m] as int]
                == orig[p@[m] as int] by {
                assert(p@[m] != p@[k as int]);
            }
            assert(out@ =~= p@.take(k + 1).map_values(|i: usize| orig[i as int]));
        }
        k = k + 1;
    }
    assert(p@.take(p.len() as int) =~= p@);
    out
}

/// The rows ordered as the table shows them: each row once, ordered by the
/// column's key in the direction of `state`, and in their former order among
/// equal keys (the sort is stable in both directions).
pub fn sort_rows(rows: &mut Vec<ScanResult>, state: SortState)
    ensures
        exists|p: Seq<usize>|
            {
                &&& is_permutation(p, old(rows)@.len())
                &&& sorted_by(
                    p,
                    |x: usize, y: usize|
                        keys_le(rows_keys(old(rows)@, state.column), state.ascending, x, y),
                )
                &&& final(rows)@ == p.map_values(|i: usize| old(rows)@[i as int])
            },
{
    let ghost orig = rows@;
    let mut keys: Vec<Vec<u64>> = Vec::new();
    let mut i: usize = 0;
    while i < rows.len()
        invariant
            i <= rows.len(),
            rows@ == orig,
            keys.len() == i,
            keys@.map_values(|k: Vec<u64>| k@) == rows_keys(orig, state.column).take(i as int),
        decreases rows.len() - i,
    {
        let k = row_key_of(&rows[i], state.column);
        let ghost kb = keys@;
        keys.push(k);
        assert(keys@[i as int]@ == row_key(orig[i as int], state.column));
        assert forall|j: int| 0 <= j < i implies #[trigger] keys@[j]@ == kb[j]@ by {}
        assert(keys@.map_values(|k: Vec<u64>| k@) =~= rows_keys(orig, state.column).take(i + 1));
        i = i + 1;
    }
    assert(rows_keys(orig, state.column).take(rows.len() as int) =~= rows_keys(
        orig,
        state.column,
    ));
    let p = sort_order(&keys, state.ascending);
    let mut taken: Vec<ScanResult> = Vec::new();
    std::mem::swap(rows, &mut taken);
    let sorted = permute(taken, &p);
    *rows = sorted;
    assert(is_permutation(p@, orig.len()));
}

/// `out` is `rows` ordered as the table shows them under `state`: some
/// permutation that is sorted by the column's key, stable among equal keys.
pub open spec fn sorted_rows(rows: Seq<ScanResult>, state: SortState, out: Seq<ScanResult>) -> bool {
    exists|p: Seq<usize>|
        {
            &&& is_permutation(p, rows.len())
            &&& sorted_by(
                p,
                |x: usize, y: usize| keys_le(rows_keys(rows, state.column), state.ascending, x, y),
            )
            &&& out == p.map_values(|i: usize| rows[i as int])
        }
}

/// A sequence of distinct `usize` values is no longer than there are `usize` values.
proof fn lemma_distinct_fits(p: Seq<usize>)
    requires
        p.no_duplicates(),
    ensures
        p.len() <= usize::MAX + 1,
{
    broadcast use vstd::seq_lib::seq_to_set_is_finite;

    let all = Seq::new((usize::MAX + 1) as nat, |i: int| i as usize);
    assert forall|i: int, j: int| 0 <= i < all.len() && 0 <= j < all.len() && i != j implies all[i]
        != all[j] by {}
    p.unique_seq_to_set();
    all.unique_seq_to_set();
    assert forall|y: usize| p.to_set().contains(y) implies all.to_set().contains(y) by {
        assert(all[y as int] == y);
    }
    vstd::set_lib::lemma_len_subset(p.to_set(), all.to_set());
}

/// A permutation of `0..n` holds each of `0..n`.
proof fn lemma_permutation_covers(p: Seq<usize>, n: nat, x: usize)
    requires
        is_permutation(p, n),
        x < n,
    ensures
        p.contains(x),
{
    broadcast use vstd::seq_lib::seq_to_set_is_finite;

    lemma_distinct_fits(p);

    let ids = Seq::new(n, |i: int| i as usize);
    assert(ids.no_duplicates());
    p.unique_seq_to_set();
    ids.unique_seq_to_set();
    assert forall|y: usize| p.to_set().contains(y) implies ids.to_set().contains(y) by {
        let i = choose|i: int| 0 <= i < p.len() && p[i] == y;
        assert(ids[y as int] == y);
    }
    vstd::set_lib::lemma_subset_equality(p.to_set(), ids.to_set());
    assert(ids[x as int] == x);
    assert(ids.to_set().contains(x));
}

/// Two permutations of `0..n` sorted by the same total order agree on the
/// first `k` places.
proof fn lemma_sorted_permutations_agree(
    p: Seq<usize>,
    q: Seq<usize>,
    n: nat,
    le: spec_fn(usize, usize) -> bool,
    k: nat,
)
    requires
        is_permutation(p, n),
        is_permutation(q, n),
        total_ordering(le),
        sorted_by(p, le),
        sorted_by(q, le),
        k <= n,
    ensures
        forall|m: int| 0 <= m < k ==> #[trigger] p[m] == q[m],
    decreases k,
{
    if k > 0 {
        let j = k - 1;
        lemma_sorted_permutations_agree(p, q, n, le, j as nat);
        let x = p[j];
        let y = q[j];
        if x != y {
            lemma_permutation_covers(q, n, x);
            lemma_permutation_covers(p, n, y);
            let a = choose|a: int| 0 <= a < q.len() && q[a] == x;
            let b = choose|b: int| 0 <= b < p.len() && p[b] == y;
            if a < j {
                assert(p[a] == q[a]);
            }
            if b < j {
                assert(p[b] == q[b]);
            }
            assert(le(p[j as int], p[b]));
            assert(le(q[j as int], q[a]));
        }
    }
}

/// Rows already in the table's order stay as they are when sorted again by the
/// same column and direction: sorting settles the order.
pub proof fn lemma_sort_settled(
    rows: Seq<ScanResult>,
    state: SortState,
    out: Seq<ScanResult>,
    again: Seq<ScanResult>,
)
    requires
        sorted_rows(rows, state, out),
        sorted_rows(out, state, again),
    ensures
        again == out,
{
    let kr = rows_keys(rows, state.column);
    let ko = rows_keys(out, state.column);
    let p = choose|p: Seq<usize>|
        {
            &&& is_permutation(p, rows.len())
            &&& sorted_by(
                p,
                |x: usize, y: usize| keys_le(rows_keys(rows, state.column), state.ascending, x, y),
            )
            &&& out == p.map_values(|i: usize| rows[i as int])
        };
    let q = choose|q: Seq<usize>|
        {
            &&& is_permutation(q, out.len())
            &&& sorted_by(
                q,
                |x: usize, y: usize| keys_le(rows_keys(out, state.column), state.ascending, x, y),
            )
            &&& again == q.map_values(|i: usize| out[i as int])
        };
    let n = out.len();
    let le = |x: usize, y: usize| keys_le(ko, state.ascending, x, y);
    let ids = Seq::new(n, |i: int| i as usize);
    let lp = |x: usize, y: usize| keys_le(rows_keys(rows, state.column), state.ascending, x, y);
    lemma_distinct_fits(p);
    assert(p.len() == n);
    assert forall|i: int, j: int| 0 <= i < j < ids.len() implies #[trigger] le(ids[i], ids[j]) by {
        assert(ko[i] == kr[p[i] as int]);
        assert(ko[j] == kr[p[j] as int]);
        assert(lp(p[i], p[j]));
    }
    assert(ids.no_duplicates());
    lemma_keys_le_total(ko, state.ascending);
    lemma_sorted_permutations_agree(ids, q, n, le, n);
    assert(q =~= ids);
    assert(again =~= out);
}

/// Whether the text `a` comes no later than `b`, comparing character by
/// character by code point, a text before any longer text it begins.
pub open spec fn text_le(a: Seq<char>, b: Seq<char>) -> bool
    decreases a.len(),
{
    if a.len() == 0 {
        true
    } else if b.len() == 0 {
        false
    } else if (a[0] as u32) != (b[0] as u32) {
        (a[0] as u32) < (b[0] as u32)
    } else {
        text_le(a.drop_first(), b.drop_first())
    }
}

/// Whether the row `a` may come before the row `b` in the column `col`, ascending:
/// by address; by host name, MAC address or vendor as text; by latency, a host
/// that did not answer first; by the number of open ports; by status, Alive
/// before Dead before Unknown.
pub open spec fn column_le(col: SortColumn, a: ScanResult, b: ScanResult) -> bool {
    match col {
        SortColumn::Ip => a.ip.bits <= b.ip.bits,
        SortColumn::Hostname => text_le(a.hostname@, b.hostname@),
        SortColumn::Mac => text_le(a.mac@, b.mac@),
        SortColumn::Vendor => text_le(a.vendor@, b.vendor@),
        SortColumn::Latency => match (a.latency_us, b.latency_us) {
            (None, _) => true,
            (Some(_), None) => false,
            (Some(x), Some(y)) => x <= y,
        },
        SortColumn::Ports => a.open_ports@.len() <= b.open_ports@.len(),
        SortColumn::Status => a.status == b.status || a.status == HostStatus::Alive || b.status
            == HostStatus::Unknown,
    }
}

/// Whether the rows `a` and `b` hold the same value in the column `col`.
pub open spec fn column_same(col: SortColumn, a: ScanResult, b: ScanResult) -> bool {
    match col {
        SortColumn::Ip => a.ip.bits == b.ip.bits,
        SortColumn::Hostname => a.hostname@ == b.hostname@,
        SortColumn::Mac => a.mac@ == b.mac@,
        SortColumn::Vendor => a.vendor@ == b.vendor@,
        SortColumn::Latency => a.latency_us == b.latency_us,
        SortColumn::Ports => a.open_ports@.len() == b.open_ports@.len(),
        SortColumn::Status => a.status == b.status,
    }
}

/// Texts whose code points compare no later come no later.
proof fn lemma_text_key_order(a: Seq<char>, b: Seq<char>)
    requires
        seq_order(text_key(a), text_key(b)) <= 0,
    ensures
        text_le(a, b),
    decreases a.len(),
{
    let ka = text_key(a);
    let kb = text_key(b);
    if a.len() > 0 && b.len() > 0 {
        assert(ka[0] == (a[0] as u32) as u64);
        assert(kb[0] == (b[0] as u32) as u64);
        if (a[0] as u32) == (b[0] as u32) {
            assert(ka.drop_first() =~= text_key(a.drop_first()));
            assert(kb.drop_first() =~= text_key(b.drop_first()));
            lemma_text_key_order(a.drop_first(), b.drop_first());
        }
    }
}

/// Rows whose keys in a column compare no later are in that column's order, and
/// rows with the same value in the column have the same key.
proof fn lemma_row_key_order(col: SortColumn, a: ScanResult, b: ScanResult)
    ensures
        seq_order(row_key(a, col), row_key(b, col)) <= 0 ==> column_le(col, a, b),
        column_same(col, a, b) ==> row_key(a, col) == row_key(b, col),
{
    let ka = row_key(a, col);
    let kb = row_key(b, col);
    match col {
        SortColumn::Hostname => {
            if seq_order(ka, kb) <= 0 {
                lemma_text_key_order(a.hostname@, b.hostname@);
            }
        },
        SortColumn::Mac => {
            if seq_order(ka, kb) <= 0 {
                lemma_text_key_order(a.mac@, b.mac@);
            }
        },
        SortColumn::Vendor => {
            if seq_order(ka, kb) <= 0 {
                lemma_text_key_order(a.vendor@, b.vendor@);
            }
        },
        SortColumn::Latency => {
            match (a.latency_us, b.latency_us) {
                (Some(x), Some(y)) => {
                    assert(ka.drop_first() =~= seq![x]);
                    assert(kb.drop_first() =~= seq![y]);
                    assert(seq![x].drop_first() =~= Seq::<u64>::empty());
                    assert(seq![y].drop_first() =~= Seq::<u64>::empty());
                    assert(seq_order(ka, kb) == seq_order(seq![x], seq![y]));
                    assert(seq_order(Seq::<u64>::empty(), Seq::<u64>::empty()) == 0);
                    assert(seq_order(seq![x], seq![y]) <= 0 ==> x <= y);
                },
                (Some(x), None) => {
                    assert(ka[0] == 1 && kb[0] == 0);
                    assert(seq_order(ka, kb) == 1);
                },
                _ => {},
            }
        },
        SortColumn::Ip => {
            assert(ka.drop_first() =~= Seq::<u64>::empty());
            assert(kb.drop_first() =~= Seq::<u64>::empty());
            assert(ka[0] == a.ip.bits as u64 && kb[0] == b.ip.bits as u64);
        },
        SortColumn::Ports => {
            assert(ka.drop_first() =~= Seq::<u64>::empty());
            assert(kb.drop_first() =~= Seq::<u64>::empty());
            assert(a.open_ports@.len() == a.open_ports.len() && b.open_ports@.len()
                == b.open_ports.len());
            assert(ka[0] == a.open_ports@.len() as u64 && kb[0] == b.open_ports@.len() as u64);
        },
        SortColumn::Status => {
            assert(ka.drop_first() =~= Seq::<u64>::empty());
            assert(kb.drop_first() =~= Seq::<u64>::empty());
            assert(ka[0] == status_rank(a.status) as u64 && kb[0] == status_rank(b.status) as u64);
        },
    }
}

/// The table's order, as `sort_rows` and the window's sorting give it: the rows,
/// each once, in the order of the column in the direction asked for (see
/// `column_le`), and rows with the same value in the column in their former
/// order.
pub proof fn lemma_sorted_by_column(rows: Seq<ScanResult>, state: SortState, out: Seq<ScanResult>)
    requires
        sorted_rows(rows, state, out),
    ensures
        out.len() == rows.len(),
        forall|i: int, j: int|
            0 <= i < j < out.len() ==> (if state.ascending {
                column_le(state.column, #[trigger] out[i], #[trigger] out[j])
            } else {
                column_le(state.column, out[j], out[i])
            }),
        exists|p: Seq<usize>|
            {
                &&& is_permutation(p, rows.len())
                &&& out == p.map_values(|k: usize| rows[k as int])
                &&& forall|i: int, j: int|
                    0 <= i < j < out.len() && column_same(state.column, #[trigger] out[i], #[trigger] out[j])
                        ==> p[i] < p[j]
            },
{
    let col = state.column;
    let keys = rows_keys(rows, col);
    let p = choose|p: Seq<usize>|
        {
            &&& is_permutation(p, rows.len())
            &&& sorted_by(
                p,
                |x: usize, y: usize| keys_le(rows_keys(rows, state.column), state.ascending, x, y),
            )
            &&& out == p.map_values(|i: usize| rows[i as int])
        };
    let le = |x: usize, y: usize| keys_le(rows_keys(rows, state.column), state.ascending, x, y);
    assert forall|i: int, j: int| 0 <= i < j < out.len() implies (if state.ascending {
        column_le(col, #[trigger] out[i], #[trigger] out[j])
    } else {
        column_le(col, out[j], out[i])
    }) && (column_same(col, out[i], out[j]) ==> p[i] < p[j]) by {
        assert(le(p[i], p[j]));
        assert(out[i] == rows[p[i] as int]);
        assert(out[j] == rows[p[j] as int]);
        assert(keys[p[i] as int] == row_key(out[i], col));
        assert(keys[p[j] as int] == row_key(out[j], col));
        lemma_seq_order_antisym(row_key(out[i], col), row_key(out[j], col));
        lemma_row_key_order(col, out[i], out[j]);
        lemma_row_key_order(col, out[j], out[i]);
        assert(p[i] != p[j]);
    }
}

} // verus!
