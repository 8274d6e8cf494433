//! The texts that show a result: in the table, in the exported sheet, and in
//! the links that open a host in other programs.

use vstd::prelude::*;
use crate::ipv4::{dotted, Ipv4Addr};
use crate::scanner::{status_text, HostStatus, ScanResult};
use crate::text::{decimal, push_decimal, push_str};

verus! {

/// The mark shown in place of a value that is missing: an em dash.
pub open spec fn missing_mark() -> Seq<char> {
    "\u{2014}"@
}

/// A text as shown: the text itself, or the missing mark when it is empty.
pub open spec fn shown_text(t: Seq<char>) -> Seq<char> {
    if t.len() == 0 {
        missing_mark()
    } else {
        t
    }
}

/// A text as shown, or the missing mark when it is empty.
pub fn shown(t: &String) -> (r: String)
    ensures
        r@ == shown_text(t@),
{
    if t.as_str().unicode_len() == 0 {
        String::from_str("\u{2014}")
    } else {
        t.clone()
    }
}

/// A number of microseconds as whole milliseconds, rounded to the nearest with
/// ties to the even one, as `{:.0}` formats a number of milliseconds.
pub open spec fn rounded_ms(us: u64) -> nat {
    let q = us / 1000;
    let r = us % 1000;
    if r > 500 || (r == 500 && q % 2 == 1) {
        (q + 1) as nat
    } else {
        q as nat
    }
}

/// A latency as shown: whole milliseconds, followed by ` ms` when `unit` holds,
/// or the missing mark when the host did not answer.
pub open spec fn latency_text(us: Option<u64>, unit: bool) -> Seq<char> {
    match us {
        None => missing_mark(),
        Some(x) => if unit {
            decimal(rounded_ms(x)) + " ms"@
        } else {
            decimal(rounded_ms(x))
        },
    }
}

/// A latency as shown in the table (`unit`) or in the sheet.
pub fn latency_shown(us: Option<u64>, unit: bool) -> (r: String)
    ensures
        r@ == latency_text(us, unit),
{
    match us {
        None => String::from_str("\u{2014}"),
        Some(x) => {
            let q = x / 1000;
            let rem = x % 1000;
            let ms = if rem > 500 || (rem == 500 && q % 2 == 1) {
                q + 1
            } else {
                q
            };
            let mut out = String::new();
            push_decimal(&mut out, ms);
            if unit {
                push_str(&mut out, " ms");
            }
            assert(out@ =~= latency_text(us, unit));
            out
        },
    }
}

/// Port numbers in decimal, joined by `, `.
pub open spec fn joined_ports(p: Seq<u16>) -> Seq<char>
    decreases p.len(),
{
    if p.len() == 0 {
        Seq::empty()
    } else if p.len() == 1 {
        decimal(p[0] as nat)
    } else {
        joined_ports(p.drop_last()) + ", "@ + decimal(p.last() as nat)
    }
}

/// The open ports as shown: joined by `, `, or the missing mark when there are none.
pub open spec fn ports_text(p: Seq<u16>) -> Seq<char> {
    if p.len() == 0 {
        missing_mark()
    } else {
        joined_ports(p)
    }
}

/// The open ports as shown.
pub fn ports_shown(p: &Vec<u16>) -> (r: String)
    ensures
        r@ == ports_text(p@),
{
    if p.len() == 0 {
        return String::from_str("\u{2014}");
    }
    let mut out = String::new();
    let mut i: usize = 0;
    while i < p.len()
        invariant
            i <= p.len(),
            out@ == joined_ports(p@.take(i as int)),
        decreases p.len() - i,
    {
        let ghost before = out@;
        if i > 0 {
            push_str(&mut out, ", ");
        }
        push_decimal(&mut out, p[i] as u64);
        proof {
            let t = p@.take(i + 1);
            assert(t.drop_last() =~= p@.take(i as int));
            assert(t.last() == p@[i as int]);
            if i == 0 {
                assert(t.len() == 1);
                assert(out@ =~= decimal(p@[0] as nat));
            } else {
                assert(out@ =~= before + ", "@ + decimal(p@[i as int] as nat));
            }
        }
        i = i + 1;
    }
    assert(p@.take(p.len() as int) =~= p@);
    out
}

/// The seven texts of a result, in the order of the table's columns: address,
/// host name, MAC address, vendor, latency, open ports, status.
pub struct RowTexts {
    pub ip: String,
    pub hostname: String,
    pub mac: String,
    pub vendor: String,
    pub latency: String,
    pub ports: String,
    pub status: String,
}

/// The texts of a result; the latency carries its unit when `unit` holds, as in
/// the table, and not in the sheet.
pub fn row_texts(r: &ScanResult, unit: bool) -> (t: RowTexts)
    ensures
        t.ip@ == dotted(r.ip.bits),
        t.hostname@ == shown_text(r.hostname@),
        t.mac@ == shown_text(r.mac@),
        t.vendor@ == shown_text(r.vendor@),
        t.latency@ == latency_text(r.latency_us, unit),
        t.ports@ == ports_text(r.open_ports@),
        t.status@ == status_text(r.status),
{
    RowTexts {
        ip: r.ip.to_string(),
        hostname: shown(&r.hostname),
        mac: shown(&r.mac),
        vendor: shown(&r.vendor),
        latency: latency_shown(r.latency_us, unit),
        ports: ports_shown(&r.open_ports),
        status: r.status.to_string(),
    }
}

/// How a cell of the exported sheet is drawn.
#[derive(Clone, Copy, Debug, PartialEq, Eq, Structural)]
pub enum CellStyle {
    /// The report's title.
    Title,
    /// A column header.
    Header,
    /// Plain data.
    Data,
    /// A MAC address.
    Mac,
    /// Open ports.
    Ports,
    /// The status of a host that answered.
    Alive,
    /// The status of a host that did not answer.
    Dead,
    /// No format: the summary line.
    Plain,
}

/// The style of the data cell in column `col` (0 to 6) of a result with status `s`.
pub open spec fn data_style(col: nat, s: HostStatus) -> CellStyle {
    if col == 2 {
        CellStyle::Mac
    } else if col == 5 {
        CellStyle::Ports
    } else if col == 6 {
        match s {
            HostStatus::Alive => CellStyle::Alive,
            HostStatus::Dead => CellStyle::Dead,
            HostStatus::Unknown => CellStyle::Data,
        }
    } else {
        CellStyle::Data
    }
}

/// The style of a data cell of the sheet.
pub fn data_cell_style(col: u16, s: HostStatus) -> (r: CellStyle)
    ensures
        r == data_style(col as nat, s),
{
    if col == 2 {
        CellStyle::Mac
    } else if col == 5 {
        CellStyle::Ports
    } else if col == 6 {
        match s {
            HostStatus::Alive => CellStyle::Alive,
            HostStatus::Dead => CellStyle::Dead,
            HostStatus::Unknown => CellStyle::Data,
        }
    } else {
        CellStyle::Data
    }
}

/// The number of results whose host answered.
pub open spec fn alive_in(rows: Seq<ScanResult>) -> nat
    decreases rows.len(),
{
    if rows.len() == 0 {
        0
    } else {
        alive_in(rows.drop_last()) + if rows.last().status == HostStatus::Alive {
            1nat
        } else {
            0
        }
    }
}

/// No more hosts answered than there are results.
pub proof fn lemma_alive_in_bound(rows: Seq<ScanResult>)
    ensures
        alive_in(rows) <= rows.len(),
    decreases rows.len(),
{
    if rows.len() > 0 {
        lemma_alive_in_bound(rows.drop_last());
    }
}

/// The number of results whose host answered.
pub fn count_alive(rows: &Vec<ScanResult>) -> (n: usize)
    ensures
        n == alive_in(rows@),
{
    let mut n: usize = 0;
    let mut i: usize = 0;
    while i < rows.len()
        invariant
            i <= rows.len(),
            n == alive_in(rows@.take(i as int)),
            n <= i,
        decreases rows.len() - i,
    {
        assert(rows@.take(i + 1).drop_last() =~= rows@.take(i as int));
        if rows[i].status == HostStatus::Alive {
            n = n + 1;
        }
        i = i + 1;
    }
    assert(rows@.take(rows.len() as int) =~= rows@);
    n
}

/// The summary line under the sheet's title.
pub open spec fn summary_text(date: Seq<char>, rows: Seq<ScanResult>) -> Seq<char> {
    "Date: "@ + date + " | Total: "@ + decimal(rows.len()) + " | Alive: "@ + decimal(alive_in(rows))
        + " | Dead: "@ + decimal((rows.len() - alive_in(rows)) as nat)
}

/// The summary line under the sheet's title, for the results `rows` exported at `date`.
pub fn export_summary(date: &str, rows: &Vec<ScanResult>) -> (r: String)
    ensures
        r@ == summary_text(date@, rows@),
{
    let alive = count_alive(rows);
    proof {
        lemma_alive_in_bound(rows@);
    }
    let mut out = String::from_str("Date: ");
    push_str(&mut out, date);
    push_str(&mut out, " | Total: ");
    push_decimal(&mut out, rows.len() as u64);
    push_str(&mut out, " | Alive: ");
    push_decimal(&mut out, alive as u64);
    push_str(&mut out, " | Dead: ");
    push_decimal(&mut out, (rows.len() - alive) as u64);
    assert(out@ =~= summary_text(date@, rows@));
    out
}

/// One cell of the exported sheet.
pub struct SheetCell {
    pub row: usize,
    pub col: u16,
    pub text: String,
    pub style: CellStyle,
}

/// The header of column `col` of the sheet.
pub open spec fn header_text(col: nat) -> Seq<char> {
    if col == 0 {
        "IP"@
    } else if col == 1 {
        "Hostname"@
    } else if col == 2 {
        "MAC"@
    } else if col == 3 {
        "Vendor"@
    } else if col == 4 {
        "Latence (ms)"@
    } else if col == 5 {
        "Ports"@
    } else {
        "Statut"@
    }
}

/// The text of column `col` of a result's row in the sheet.
pub open spec fn data_text(r: ScanResult, col: nat) -> Seq<char> {
    if col == 0 {
        dotted(r.ip.bits)
    } else if col == 1 {
        shown_text(r.hostname@)
    } else if col == 2 {
        shown_text(r.mac@)
    } else if col == 3 {
        shown_text(r.vendor@)
    } else if col == 4 {
        latency_text(r.latency_us, false)
    } else if col == 5 {
        ports_text(r.open_ports@)
    } else {
        status_text(r.status)
    }
}

/// Whether a cell holds the given place, text and style.
pub open spec fn cell_is(c: SheetCell, row: nat, col: nat, text: Seq<char>, style: CellStyle) -> bool {
    c.row == row && c.col == col && c.text@ == text && c.style == style
}

/// The cells of the sheet that exports the results `rows` at `date`: the title
/// and the summary in the first column of the first two rows, the seven headers
/// in the fourth row, and a row for each result from the fifth row on.
pub open spec fn sheet_is(cells: Seq<SheetCell>, date: Seq<char>, rows: Seq<ScanResult>) -> bool {
    &&& cells.len() == 9 + 7 * rows.len()
    &&& cell_is(cells[0], 0, 0, "NyxIP Scan Report"@, CellStyle::Title)
    &&& cell_is(cells[1], 1, 0, summary_text(date, rows), CellStyle::Plain)
    &&& forall|c: int| 0 <= c < 7 ==> cell_is(#[trigger] cells[2 + c], 3, c as nat, header_text(c as nat), CellStyle::Header)
    &&& forall|i: int, c: int|
        0 <= i < rows.len() && 0 <= c < 7 ==> cell_is(
            #[trigger] cells[9 + 7 * i + c],
            (i + 4) as nat,
            c as nat,
            data_text(rows[i], c as nat),
            data_style(c as nat, rows[i].status),
        )
}

fn header_of(col: u16) -> (r: String)
    requires
        col < 7,
    ensures
        r@ == header_text(col as nat),
{
    if col == 0 {
        String::from_str("IP")
    } else if col == 1 {
        String::from_str("Hostname")
    } else if col == 2 {
        String::from_str("MAC")
    } else if col == 3 {
        String::from_str("Vendor")
    } else if col == 4 {
        String::from_str("Latence (ms)")
    } else if col == 5 {
        String::from_str("Ports")
    } else {
        String::from_str("Statut")
    }
}

/// The cells of the sheet that exports `rows` at `date`.
pub fn sheet_cells(date: &str, rows: &Vec<ScanResult>) -> (cells: Vec<SheetCell>)
    ensures
        sheet_is(cells@, date@, rows@),
{
    let mut cells: Vec<SheetCell> = Vec::new();
    cells.push(
        SheetCell { row: 0, col: 0, text: String::from_str("NyxIP Scan Report"), style: CellStyle::Title },
    );
    cells.push(
        SheetCell { row: 1, col: 0, text: export_summary(date, rows), style: CellStyle::Plain },
    );
    let mut c: u16 = 0;
    while c < 7
        invariant
            c <= 7,
            cells.len() == 2 + c,
            cell_is(cells@[0], 0, 0, "NyxIP Scan Report"@, CellStyle::Title),
            cell_is(cells@[1], 1, 0, summary_text(date@, rows@), CellStyle::Plain),
            forall|k: int| 0 <= k < c ==> cell_is(#[trigger] cells@[2 + k], 3, k as nat, header_text(k as nat), CellStyle::Header),
        decreases 7 - c,
    {
        cells.push(SheetCell { row: 3, col: c, text: header_of(c), style: CellStyle::Header });
        c = c + 1;
    }
    let mut i: usize = 0;
    while i < rows.len()
        invariant
            i <= rows.len(),
            cells.len() == 9 + 7 * i,
            cell_is(cells@[0], 0, 0, "NyxIP Scan Report"@, CellStyle::Title),
            cell_is(cells@[1], 1, 0, summary_text(date@, rows@), CellStyle::Plain),
            forall|k: int| 0 <= k < 7 ==> cell_is(#[trigger] cells@[2 + k], 3, k as nat, header_text(k as nat), CellStyle::Header),
            forall|j: int, k: int|
                0 <= j < i && 0 <= k < 7 ==> cell_is(
                    #[trigger] cells@[9 + 7 * j + k],
                    (j + 4) as nat,
                    k as nat,
                    data_text(rows@[j], k as nat),
                    data_style(k as nat, rows@[j].status),
                ),
        decreases rows.len() - i,
    {
        let r = &rows[i];
        let t = row_texts(r, false);
        let ghost before = cells@;
        let row = i + 4;
        cells.push(SheetCell { row, col: 0, text: t.ip, style: data_cell_style(0, r.status) });
        cells.push(SheetCell { row, col: 1, text: t.hostname, style: data_cell_style(1, r.status) });
        cells.push(SheetCell { row, col: 2, text: t.mac, style: data_cell_style(2, r.status) });
        cells.push(SheetCell { row, col: 3, text: t.vendor, style: data_cell_style(3, r.status) });
        cells.push(SheetCell { row, col: 4, text: t.latency, style: data_cell_style(4, r.status) });
        cells.push(SheetCell { row, col: 5, text: t.ports, style: data_cell_style(5, r.status) });
        cells.push(SheetCell { row, col: 6, text: t.status, style: data_cell_style(6, r.status) });
        proof {
            assert forall|j: int, k: int| 0 <= j < i + 1 && 0 <= k < 7 implies cell_is(
                #[trigger] cells@[9 + 7 * j + k],
                (j + 4) as nat,
                k as nat,
                data_text(rows@[j], k as nat),
                data_style(k as nat, rows@[j].status),
            ) by {
                if j < i {
                    assert(cells@[9 + 7 * j + k] == before[9 + 7 * j + k]);
                }
            }
            assert forall|k: int| 0 <= k < 7 implies cell_is(#[trigger] cells@[2 + k], 3, k as nat, header_text(k as nat), CellStyle::Header) by {
                assert(cells@[2 + k] == before[2 + k]);
            }
        }
        i = i + 1;
    }
    cells
}

/// The places to which a host's context menu leads.
#[derive(Clone, Copy, Debug, PartialEq, Eq, Structural)]
pub enum HostLink {
    Http,
    Https,
    Http8080,
    Https8443,
    Http3000,
    Http9090,
    SmbShare,
    RemoteDesktop,
}

/// The text that opens a host in another program: a web address, a share path,
/// or the `/v:` argument of the remote desktop client.
pub open spec fn link_text(ip: u32, link: HostLink) -> Seq<char> {
    let a = dotted(ip);
    match link {
        HostLink::Http => "http://"@ + a,
        HostLink::Https => "https://"@ + a,
        HostLink::Http8080 => "http://"@ + a + ":8080"@,
        HostLink::Https8443 => "https://"@ + a + ":8443"@,
        HostLink::Http3000 => "http://"@ + a + ":3000"@,
        HostLink::Http9090 => "http://"@ + a + ":9090"@,
        HostLink::SmbShare => "\\\\"@ + a,
        HostLink::RemoteDesktop => "/v:"@ + a,
    }
}

/// The text that opens the host `ip` in another program.
pub fn host_link(ip: Ipv4Addr, link: HostLink) -> (r: String)
    ensures
        r@ == link_text(ip.bits, link),
{
    let a = ip.to_string();
    let mut out = match link {
        HostLink::Http | HostLink::Http8080 | HostLink::Http3000 | HostLink::Http9090 => String::from_str(
            "http://",
        ),
        HostLink::Https | HostLink::Https8443 => String::from_str("https://"),
        HostLink::SmbShare => String::from_str("\\\\"),
        HostLink::RemoteDesktop => String::from_str("/v:"),
    };
    push_str(&mut out, a.as_str());
    match link {
        HostLink::Http8080 => push_str(&mut out, ":8080"),
        HostLink::Https8443 => push_str(&mut out, ":8443"),
        HostLink::Http3000 => push_str(&mut out, ":3000"),
        HostLink::Http9090 => push_str(&mut out, ":9090"),
        _ => {},
    }
    out
}

/// Whether a link opens the host's web server over TLS.
pub open spec fn link_is_secure(link: HostLink) -> bool {
    link == HostLink::Https || link == HostLink::Https8443
}

/// Whether a link opens the host's web server.
pub open spec fn link_is_web(link: HostLink) -> bool {
    link != HostLink::SmbShare && link != HostLink::RemoteDesktop
}

/// A web link starts with `https://` exactly when it opens the host over TLS, and
/// with `http://` otherwise; the host's dotted address follows the scheme. The
/// links to the TLS and plain servers on the default ports differ in the scheme
/// alone. A share path starts with two backslashes and a remote desktop argument
/// with `/v:`, each followed by the address.
pub proof fn lemma_link_schemes(ip: u32, link: HostLink)
    ensures
        link_is_web(link) && link_is_secure(link) ==> link_text(ip, link).take(8) == "https://"@
            && link_text(ip, link).skip(8).take(dotted(ip).len() as int) == dotted(ip),
        link_is_web(link) && !link_is_secure(link) ==> link_text(ip, link).take(7) == "http://"@
            && link_text(ip, link).skip(7).take(dotted(ip).len() as int) == dotted(ip),
        link_text(ip, HostLink::Https).skip(8) == link_text(ip, HostLink::Http).skip(7),
        link == HostLink::SmbShare ==> link_text(ip, link).take(2) == seq!['\\', '\\']
            && link_text(ip, link).skip(2) == dotted(ip),
        link == HostLink::RemoteDesktop ==> link_text(ip, link).take(3) == "/v:"@
            && link_text(ip, link).skip(3) == dotted(ip),
{
    reveal_strlit("http://");
    reveal_strlit("https://");
    reveal_strlit("\\\\");
    reveal_strlit("/v:");
    reveal_strlit(":8080");
    reveal_strlit(":8443");
    reveal_strlit(":3000");
    reveal_strlit(":9090");
    let a = dotted(ip);
    let t = link_text(ip, link);
    let n = a.len() as int;
    match link {
        HostLink::Http => {
            assert(t.take(7) =~= "http://"@);
            assert(t.skip(7).take(n) =~= a);
        },
        HostLink::Https => {
            assert(t.take(8) =~= "https://"@);
            assert(t.skip(8).take(n) =~= a);
        },
        HostLink::Http8080 => {
            assert(t.take(7) =~= "http://"@);
            assert(t.skip(7).take(n) =~= a);
        },
        HostLink::Https8443 => {
            assert(t.take(8) =~= "https://"@);
            assert(t.skip(8).take(n) =~= a);
        },
        HostLink::Http3000 => {
            assert(t.take(7) =~= "http://"@);
            assert(t.skip(7).take(n) =~= a);
        },
        HostLink::Http9090 => {
            assert(t.take(7) =~= "http://"@);
            assert(t.skip(7).take(n) =~= a);
        },
        HostLink::SmbShare => {
            assert(t.take(2) =~= seq!['\\', '\\']);
            assert(t.skip(2) =~= a);
        },
        HostLink::RemoteDesktop => {
            assert(t.take(3) =~= "/v:"@);
            assert(t.skip(3) =~= a);
        },
    }
    assert(link_text(ip, HostLink::Https).skip(8) =~= a);
    assert(link_text(ip, HostLink::Http).skip(7) =~= a);
}

/// In the exported sheet, the column under each header shows that field of each
/// result as the table shows it: the address under `IP`, the host name under
/// `Hostname`, the MAC address under `MAC`, the vendor under `Vendor`, the
/// latency in whole milliseconds under `Latence (ms)`, the open ports under
/// `Ports` and the status under `Statut`, a missing value as the em dash; the
/// row of the `i`-th result is the `(i + 5)`-th of the sheet.
pub proof fn lemma_sheet_columns(cells: Seq<SheetCell>, date: Seq<char>, rows: Seq<ScanResult>, i: int)
    requires
        sheet_is(cells, date, rows),
        0 <= i < rows.len(),
    ensures
        cells[2].text@ == "IP"@ && cells[9 + 7 * i].text@ == dotted(rows[i].ip.bits),
        cells[3].text@ == "Hostname"@ && cells[9 + 7 * i + 1].text@ == shown_text(
            rows[i].hostname@,
        ),
        cells[4].text@ == "MAC"@ && cells[9 + 7 * i + 2].text@ == shown_text(rows[i].mac@),
        cells[5].text@ == "Vendor"@ && cells[9 + 7 * i + 3].text@ == shown_text(rows[i].vendor@),
        cells[6].text@ == "Latence (ms)"@ && cells[9 + 7 * i + 4].text@ == latency_text(
            rows[i].latency_us,
            false,
        ),
        cells[7].text@ == "Ports"@ && cells[9 + 7 * i + 5].text@ == ports_text(rows[i].open_ports@),
        cells[8].text@ == "Statut"@ && cells[9 + 7 * i + 6].text@ == status_text(rows[i].status),
        forall|c: int|
            0 <= c < 7 ==> cells[2 + c].row == 3 && cells[2 + c].col == c && (#[trigger] cells[9
                + 7 * i + c]).row == i + 4 && cells[9 + 7 * i + c].col == c,
{
    assert(cells[2int + 0] == cells[2int]);
    assert(cells[2int + 1] == cells[3int]);
    assert(cells[2int + 2] == cells[4int]);
    assert(cells[2int + 3] == cells[5int]);
    assert(cells[2int + 4] == cells[6int]);
    assert(cells[2int + 5] == cells[7int]);
    assert(cells[2int + 6] == cells[8int]);
    assert(cell_is(cells[9 + 7 * i + 0], (i + 4) as nat, 0, data_text(rows[i], 0), data_style(0, rows[i].status)));
    assert(cell_is(cells[9 + 7 * i + 1], (i + 4) as nat, 1, data_text(rows[i], 1), data_style(1, rows[i].status)));
    assert(cell_is(cells[9 + 7 * i + 2], (i + 4) as nat, 2, data_text(rows[i], 2), data_style(2, rows[i].status)));
    assert(cell_is(cells[9 + 7 * i + 3], (i + 4) as nat, 3, data_text(rows[i], 3), data_style(3, rows[i].status)));
    assert(cell_is(cells[9 + 7 * i + 4], (i + 4) as nat, 4, data_text(rows[i], 4), data_style(4, rows[i].status)));
    assert(cell_is(cells[9 + 7 * i + 5], (i + 4) as nat, 5, data_text(rows[i], 5), data_style(5, rows[i].status)));
    assert(cell_is(cells[9 + 7 * i + 6], (i + 4) as nat, 6, data_text(rows[i], 6), data_style(6, rows[i].status)));
    assert(9 + 7 * i + 0 == 9 + 7 * i);
}

/// A latency is shown as the whole number of milliseconds nearest to it, a tie
/// going to the even one: no more than half a millisecond away.
pub proof fn lemma_rounded_ms_nearest(us: u64)
    ensures
        rounded_ms(us) * 1000 <= us + 500,
        us <= rounded_ms(us) * 1000 + 500,
        rounded_ms(us) * 1000 == us + 500 || us == rounded_ms(us) * 1000 + 500 ==> rounded_ms(us)
            % 2 == 0,
{
    let q = us / 1000;
    let r = us % 1000;
    assert(us == q * 1000 + r);
}

} // verus!
