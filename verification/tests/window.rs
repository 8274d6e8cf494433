use nyxip::ipv4::Ipv4Addr;
use nyxip::report::{
    count_alive, data_cell_style, export_summary, host_link, latency_shown, ports_shown, row_texts,
    sheet_cells, CellStyle, HostLink,
};
use nyxip::scanner::{HostStatus, ScanResult};
use nyxip::session::{KeyPress, NyxApp};
use nyxip::table::{sort_rows, SortColumn, SortState};

fn row(last: u8, name: &str, latency: Option<u64>, status: HostStatus) -> ScanResult {
    ScanResult {
        ip: Ipv4Addr::new(10, 0, 0, last),
        hostname: name.to_string(),
        mac: String::new(),
        vendor: String::new(),
        latency_us: latency,
        open_ports: vec![],
        status,
    }
}

fn lasts(rows: &[ScanResult]) -> Vec<u8> {
    rows.iter().map(|r| r.ip.octets()[3]).collect()
}

#[test]
fn default_sort_state() {
    let s = SortState::default();
    assert_eq!(s.column, SortColumn::Ip);
    assert!(s.ascending);
}

#[test]
fn sort_by_address_both_ways() {
    let mut rows = vec![row(3, "", None, HostStatus::Dead), row(1, "", None, HostStatus::Dead), row(2, "", None, HostStatus::Dead)];
    sort_rows(&mut rows, SortState { column: SortColumn::Ip, ascending: true });
    assert_eq!(lasts(&rows), vec![1, 2, 3]);
    sort_rows(&mut rows, SortState { column: SortColumn::Ip, ascending: false });
    assert_eq!(lasts(&rows), vec![3, 2, 1]);
}

#[test]
fn sort_is_stable_in_both_directions() {
    let mut rows = vec![
        row(1, "b", None, HostStatus::Alive),
        row(2, "a", None, HostStatus::Alive),
        row(3, "b", None, HostStatus::Alive),
        row(4, "a", None, HostStatus::Alive),
    ];
    let mut up = rows.clone_rows();
    sort_rows(&mut up, SortState { column: SortColumn::Hostname, ascending: true });
    assert_eq!(lasts(&up), vec![2, 4, 1, 3]);
    sort_rows(&mut rows, SortState { column: SortColumn::Hostname, ascending: false });
    assert_eq!(lasts(&rows), vec![1, 3, 2, 4]);
}

trait CloneRows {
    fn clone_rows(&self) -> Vec<ScanResult>;
}

impl CloneRows for Vec<ScanResult> {
    fn clone_rows(&self) -> Vec<ScanResult> {
        self.iter()
            .map(|r| ScanResult {
                ip: r.ip,
                hostname: r.hostname.clone(),
                mac: r.mac.clone(),
                vendor: r.vendor.clone(),
                latency_us: r.latency_us,
                open_ports: r.open_ports.clone(),
                status: r.status,
            })
            .collect()
    }
}

#[test]
fn sort_by_latency_puts_missing_first() {
    let mut rows = vec![
        row(1, "", Some(9000), HostStatus::Alive),
        row(2, "", None, HostStatus::Dead),
        row(3, "", Some(800), HostStatus::Alive),
    ];
    sort_rows(&mut rows, SortState { column: SortColumn::Latency, ascending: true });
    assert_eq!(lasts(&rows), vec![2, 3, 1]);
}

#[test]
fn sort_by_status_follows_names() {
    let mut rows = vec![
        row(1, "", None, HostStatus::Unknown),
        row(2, "", None, HostStatus::Dead),
        row(3, "", Some(1), HostStatus::Alive),
    ];
    sort_rows(&mut rows, SortState { column: SortColumn::Status, ascending: true });
    assert_eq!(lasts(&rows), vec![3, 2, 1]);
}

#[test]
fn sorting_a_large_table() {
    let mut rows: Vec<ScanResult> = (0..3000u32)
        .map(|i| {
            let mut r = row(0, "", Some(((i * 7919) % 1000) as u64), HostStatus::Alive);
            r.ip = Ipv4Addr::from_bits(i);
            r
        })
        .collect();
    sort_rows(&mut rows, SortState { column: SortColumn::Latency, ascending: true });
    for w in rows.windows(2) {
        let (a, b) = (w[0].latency_us.unwrap(), w[1].latency_us.unwrap());
        assert!(a < b || (a == b && w[0].ip.to_bits() < w[1].ip.to_bits()));
    }
}

#[test]
fn new_window() {
    let app = NyxApp::new("10.0.0.1-254".to_string());
    assert_eq!(app.ip_range_input, "10.0.0.1-254");
    assert_eq!(app.timeout_ms, 1000);
    assert!(!app.is_scanning);
    assert!(app.results.is_empty());
    assert!(app.error_message.is_none());
}

#[test]
fn start_scan_hands_out_the_job() {
    let mut app = NyxApp::new("10.0.0.1-3".to_string());
    app.scan_ports_enabled = true;
    app.timeout_ms = 500;
    let job = app.start_scan().unwrap();
    assert_eq!(job.ips.len(), 3);
    assert_eq!(job.scanner.timeout_ms, 500);
    assert!(job.scanner.scan_ports);
    assert!(app.is_scanning);
    assert_eq!(app.total_hosts, 3);
    assert_eq!(app.scanned_hosts, 0);
    assert!(app.start_scan().is_none());
    app.stop_scan();
    assert!(!app.is_scanning);
}

#[test]
fn start_scan_with_a_bad_range() {
    let mut app = NyxApp::new("nope".to_string());
    assert!(app.start_scan().is_none());
    assert_eq!(app.error_message.as_deref(), Some("Erreur: Invalid IP: invalid IPv4 address syntax"));
    assert!(!app.is_scanning);
}

#[test]
fn reports_end_the_scan_and_sort() {
    let mut app = NyxApp::new("10.0.0.1-3".to_string());
    app.start_scan().unwrap();
    app.take_reports(vec![row(3, "", None, HostStatus::Dead)], vec![(1, 3)]);
    assert!(app.is_scanning);
    assert_eq!(app.scanned_hosts, 1);
    app.take_reports(vec![row(2, "", None, HostStatus::Dead), row(1, "", None, HostStatus::Dead)], vec![(2, 3), (3, 3)]);
    assert!(!app.is_scanning);
    assert_eq!(app.scanned_hosts, 3);
    assert_eq!(app.total_hosts, 3);
    assert_eq!(lasts(&app.results), vec![1, 2, 3]);
}

#[test]
fn clicking_headers() {
    let mut app = NyxApp::new(String::new());
    app.results = vec![row(1, "b", None, HostStatus::Dead), row(2, "a", None, HostStatus::Dead)];
    app.click_column(SortColumn::Hostname);
    assert_eq!(app.sort_state, SortState { column: SortColumn::Hostname, ascending: true });
    assert_eq!(lasts(&app.results), vec![2, 1]);
    app.click_column(SortColumn::Hostname);
    assert!(!app.sort_state.ascending);
    assert_eq!(lasts(&app.results), vec![1, 2]);
    assert_eq!(app.header_label("Hostname", SortColumn::Hostname), "Hostname \u{25BC}");
    assert_eq!(app.header_label("IP", SortColumn::Ip), "IP");
    app.click_column(SortColumn::Ip);
    assert_eq!(app.header_label("IP", SortColumn::Ip), "IP \u{25B2}");
}

#[test]
fn dead_hosts_hidden_unless_asked() {
    let mut app = NyxApp::new(String::new());
    let dead = row(1, "", None, HostStatus::Dead);
    let alive = row(2, "", Some(1), HostStatus::Alive);
    assert!(!app.is_shown(&dead));
    assert!(app.is_shown(&alive));
    app.show_dead = true;
    assert!(app.is_shown(&dead));
}

#[test]
fn hidden_key_sequence() {
    let mut app = NyxApp::new(String::new());
    let seq = [
        KeyPress::ArrowUp, KeyPress::ArrowUp, KeyPress::ArrowDown, KeyPress::ArrowDown,
        KeyPress::ArrowLeft, KeyPress::ArrowRight, KeyPress::ArrowLeft, KeyPress::ArrowRight,
        KeyPress::B, KeyPress::A,
    ];
    app.key_pressed(KeyPress::Other);
    app.key_pressed(KeyPress::A);
    for k in seq {
        app.key_pressed(k);
    }
    assert!(app.show_easter_egg);
    assert!(app.konami_buffer.is_empty());
}

#[test]
fn wrong_keys_keep_last_ten() {
    let mut app = NyxApp::new(String::new());
    for _ in 0..15 {
        app.key_pressed(KeyPress::Other);
    }
    assert!(!app.show_easter_egg);
    assert_eq!(app.konami_buffer.len(), 10);
}

#[test]
fn export_messages() {
    let mut app = NyxApp::new(String::new());
    app.export_finished("scan.xlsx", Ok(()));
    assert_eq!(app.error_message.as_deref(), Some("Export sauvegardé: scan.xlsx"));
    app.export_finished("scan.xlsx", Err("disk full".to_string()));
    assert_eq!(app.error_message.as_deref(), Some("Erreur export: disk full"));
}

#[test]
fn row_texts_in_table_and_sheet() {
    let mut r = row(7, "", Some(12_500), HostStatus::Alive);
    r.mac = "AA:BB:CC:DD:EE:FF".to_string();
    r.open_ports = vec![22, 80, 443];
    let t = row_texts(&r, true);
    assert_eq!(t.ip, "10.0.0.7");
    assert_eq!(t.hostname, "\u{2014}");
    assert_eq!(t.mac, "AA:BB:CC:DD:EE:FF");
    assert_eq!(t.vendor, "\u{2014}");
    assert_eq!(t.latency, "12 ms");
    assert_eq!(t.ports, "22, 80, 443");
    assert_eq!(t.status, "Alive");
    assert_eq!(row_texts(&r, false).latency, "12");
}

#[test]
fn latency_rounding_matches_float_formatting() {
    for us in [0u64, 499, 500, 1500, 2500, 12_500, 13_500, 999_999, 1_000_501] {
        let ms = us as f64 / 1000.0;
        assert_eq!(latency_shown(Some(us), false), format!("{:.0}", ms), "{}", us);
    }
    assert_eq!(latency_shown(None, true), "\u{2014}");
}

#[test]
fn ports_text() {
    assert_eq!(ports_shown(&vec![]), "\u{2014}");
    assert_eq!(ports_shown(&vec![3389]), "3389");
}

#[test]
fn sheet_summary_and_styles() {
    let rows = vec![row(1, "", Some(1), HostStatus::Alive), row(2, "", None, HostStatus::Dead), row(3, "", None, HostStatus::Dead)];
    assert_eq!(count_alive(&rows), 1);
    assert_eq!(export_summary("2024-01-02 03:04:05", &rows), "Date: 2024-01-02 03:04:05 | Total: 3 | Alive: 1 | Dead: 2");
    assert_eq!(data_cell_style(2, HostStatus::Dead), CellStyle::Mac);
    assert_eq!(data_cell_style(5, HostStatus::Dead), CellStyle::Ports);
    assert_eq!(data_cell_style(6, HostStatus::Alive), CellStyle::Alive);
    assert_eq!(data_cell_style(6, HostStatus::Dead), CellStyle::Dead);
    assert_eq!(data_cell_style(6, HostStatus::Unknown), CellStyle::Data);
    assert_eq!(data_cell_style(0, HostStatus::Alive), CellStyle::Data);
}

#[test]
fn host_links() {
    let a = Ipv4Addr::new(192, 168, 1, 5);
    assert_eq!(host_link(a, HostLink::Http), "http://192.168.1.5");
    assert_eq!(host_link(a, HostLink::Https8443), "https://192.168.1.5:8443");
    assert_eq!(host_link(a, HostLink::Http9090), "http://192.168.1.5:9090");
    assert_eq!(host_link(a, HostLink::SmbShare), "\\\\192.168.1.5");
    assert_eq!(host_link(a, HostLink::RemoteDesktop), "/v:192.168.1.5");
}

#[test]
fn export_sheet_layout() {
    let mut app = NyxApp::new(String::new());
    let mut r = row(9, "srv", Some(2_000), HostStatus::Alive);
    r.open_ports = vec![80];
    app.results = vec![r, row(10, "", None, HostStatus::Dead)];
    let cells = sheet_cells("2024-05-06 07:08:09", &app.results);
    assert_eq!(cells.len(), 9 + 14);
    assert_eq!((cells[0].row, cells[0].col, cells[0].text.as_str()), (0, 0, "NyxIP Scan Report"));
    assert_eq!(cells[0].style, CellStyle::Title);
    assert_eq!(cells[1].text, "Date: 2024-05-06 07:08:09 | Total: 2 | Alive: 1 | Dead: 1");
    assert_eq!(cells[1].style, CellStyle::Plain);
    let headers: Vec<&str> = cells[2..9].iter().map(|c| c.text.as_str()).collect();
    assert_eq!(headers, vec!["IP", "Hostname", "MAC", "Vendor", "Latence (ms)", "Ports", "Statut"]);
    assert!(cells[2..9].iter().all(|c| c.row == 3 && c.style == CellStyle::Header));
    let first: Vec<&str> = cells[9..16].iter().map(|c| c.text.as_str()).collect();
    assert_eq!(first, vec!["10.0.0.9", "srv", "\u{2014}", "\u{2014}", "2", "80", "Alive"]);
    assert!(cells[9..16].iter().all(|c| c.row == 4));
    assert_eq!(cells[15].style, CellStyle::Alive);
    assert_eq!(cells[22].text, "Dead");
    assert_eq!(cells[22].style, CellStyle::Dead);
    assert_eq!(cells[22].row, 5);
    assert_eq!(cells[11].style, CellStyle::Mac);
    assert_eq!(cells[14].style, CellStyle::Ports);
}

#[test]
fn export_workbook_holds_the_results() {
    let mut empty = NyxApp::new(String::new());
    let mut book = empty.export_csv("2024-05-06 07:08:09");
    let small = book.save_to_buffer().expect("an empty report saves");
    assert_eq!(&small[0..2], b"PK");

    let mut r = row(9, "a-rather-long-host-name.example.lan", Some(2_000), HostStatus::Alive);
    r.mac = "AA:BB:CC:DD:EE:FF".to_string();
    r.open_ports = vec![22, 80, 443];
    empty.results = vec![r, row(10, "another-host.example.lan", None, HostStatus::Dead)];
    let mut book = empty.export_csv("2024-05-06 07:08:09");
    let large = book.save_to_buffer().expect("a report saves");
    assert_eq!(&large[0..2], b"PK");
    assert!(large.len() > small.len());
}

#[test]
fn export_workbook_names_its_sheet() {
    let app = NyxApp::new(String::new());
    let mut book = app.export_csv("2024-05-06 07:08:09");
    let sheet = book.worksheet_from_index(0).expect("the report's sheet");
    assert_eq!(sheet.name(), "NyxIP Scan");
}

#[test]
fn frame_of_keys_keeps_ten_and_opens_window() {
    let mut app = NyxApp::new(String::new());
    let mut keys = vec![KeyPress::Other; 15];
    app.keys_pressed(&keys);
    assert_eq!(app.konami_buffer.len(), 10);
    assert!(!app.show_easter_egg);
    keys = vec![
        KeyPress::B, KeyPress::ArrowUp, KeyPress::ArrowUp, KeyPress::ArrowDown, KeyPress::ArrowDown,
        KeyPress::ArrowLeft, KeyPress::ArrowRight, KeyPress::ArrowLeft, KeyPress::ArrowRight,
        KeyPress::B, KeyPress::A, KeyPress::Other,
    ];
    app.keys_pressed(&keys);
    assert!(app.show_easter_egg);
    assert_eq!(app.konami_buffer, vec![KeyPress::Other]);
}
