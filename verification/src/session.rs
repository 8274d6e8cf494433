//! The scanner window's state and the decisions it takes: starting and stopping
//! a scan, taking in what the scan reports, sorting, the column headers, the
//! hidden key sequence, and the export message.

use vstd::prelude::*;
use crate::ipv4::Ipv4Addr;
use crate::range::{parse_range, range_error_text, range_spec, RangeError};
use crate::scanner::{HostStatus, ScanResult, Scanner};
use crate::table::{sort_rows, sorted_rows, SortColumn, SortState};
use crate::text::push_str;
use crate::workbook::{
    export_workbook, report_column_widths, report_filter, report_looks, report_texts,
    workbook_sheet_filters, workbook_sheet_looks, workbook_sheet_names, workbook_sheet_widths,
    workbook_sheets,
};
use rust_xlsxwriter::Workbook;

verus! {

/// A key as the hidden key sequence sees it.
#[derive(Clone, Copy, Debug, PartialEq, Eq, Structural)]
pub enum KeyPress {
    ArrowUp,
    ArrowDown,
    ArrowLeft,
    ArrowRight,
    A,
    B,
    Other,
}

/// The hidden key sequence: up, up, down, down, left, right, left, right, B, A.
pub open spec fn konami() -> Seq<KeyPress> {
    seq![
        KeyPress::ArrowUp,
        KeyPress::ArrowUp,
        KeyPress::ArrowDown,
        KeyPress::ArrowDown,
        KeyPress::ArrowLeft,
        KeyPress::ArrowRight,
        KeyPress::ArrowLeft,
        KeyPress::ArrowRight,
        KeyPress::B,
        KeyPress::A,
    ]
}

/// The work that a started scan hands to the probes: the addresses, in order,
/// and the scanner that probes them.
pub struct ScanJob {
    pub ips: Vec<Ipv4Addr>,
    pub scanner: Scanner,
}

/// The state of the scanner window.
pub struct NyxApp {
    pub ip_range_input: String,
    pub results: Vec<ScanResult>,
    pub is_scanning: bool,
    pub scan_ports_enabled: bool,
    pub timeout_ms: u32,
    pub scanned_hosts: usize,
    pub total_hosts: usize,
    pub sort_state: SortState,
    pub show_dead: bool,
    pub error_message: Option<String>,
    pub show_credits: bool,
    pub show_easter_egg: bool,
    pub konami_buffer: Vec<KeyPress>,
}

/// The message shown when a range is refused.
pub open spec fn range_failure_text(e: RangeError) -> Seq<char> {
    "Erreur: "@ + range_error_text(e)
}

/// The settings of the window are the same in `a` and `b`: the range typed, the
/// port and timeout settings, and which hosts and windows are shown.
pub open spec fn settings_kept(a: NyxApp, b: NyxApp) -> bool {
    &&& a.ip_range_input == b.ip_range_input
    &&& a.scan_ports_enabled == b.scan_ports_enabled
    &&& a.timeout_ms == b.timeout_ms
    &&& a.show_dead == b.show_dead
    &&& a.show_credits == b.show_credits
}

/// The hidden key sequence's state is the same in `a` and `b`.
pub open spec fn keys_kept(a: NyxApp, b: NyxApp) -> bool {
    &&& a.show_easter_egg == b.show_easter_egg
    &&& a.konami_buffer == b.konami_buffer
}

/// The scan's progress and message are the same in `a` and `b`.
pub open spec fn progress_kept(a: NyxApp, b: NyxApp) -> bool {
    &&& a.is_scanning == b.is_scanning
    &&& a.scanned_hosts == b.scanned_hosts
    &&& a.total_hosts == b.total_hosts
    &&& a.error_message == b.error_message
}

/// Whether any of the progress reports says that the scan is done.
pub open spec fn reports_done(progress: Seq<(usize, usize)>) -> bool {
    exists|k: int| 0 <= k < progress.len() && #[trigger] progress[k].0 >= progress[k].1
}

/// The buffer of recent keys after `key`: the last ten keys.
pub open spec fn keys_after(buffer: Seq<KeyPress>, key: KeyPress) -> Seq<KeyPress> {
    let b = buffer.push(key);
    if b.len() > 10 {
        b.drop_first()
    } else {
        b
    }
}

/// The buffer of recent keys after `key`: the last ten keys, or none once they
/// are the hidden key sequence.
pub open spec fn buffer_after(buffer: Seq<KeyPress>, key: KeyPress) -> Seq<KeyPress> {
    if keys_after(buffer, key) == konami() {
        Seq::empty()
    } else {
        keys_after(buffer, key)
    }
}

/// The buffer of recent keys after the keys `keys`, pressed in order.
pub open spec fn buffer_after_keys(buffer: Seq<KeyPress>, keys: Seq<KeyPress>) -> Seq<KeyPress>
    decreases keys.len(),
{
    if keys.len() == 0 {
        buffer
    } else {
        buffer_after(buffer_after_keys(buffer, keys.drop_last()), keys.last())
    }
}

/// Whether one of the keys `keys`, pressed in order after `buffer`, completes the
/// hidden key sequence.
pub open spec fn opened_by(buffer: Seq<KeyPress>, keys: Seq<KeyPress>) -> bool {
    exists|i: int|
        0 <= i < keys.len() && #[trigger] keys_after(buffer_after_keys(buffer, keys.take(i)), keys[i])
            == konami()
}

/// Whether `a` is what remains of `whole` once some of its first elements are dropped.
pub open spec fn is_tail_of(a: Seq<KeyPress>, whole: Seq<KeyPress>) -> bool {
    a.len() <= whole.len() && a == whole.skip(whole.len() - a.len())
}

/// However many keys are pressed, the buffer of recent keys never holds more than
/// ten, and it holds the last keys of the old buffer followed by those pressed.
pub proof fn lemma_key_buffer_bounded(buffer: Seq<KeyPress>, keys: Seq<KeyPress>)
    requires
        buffer.len() <= 10,
    ensures
        buffer_after_keys(buffer, keys).len() <= 10,
        is_tail_of(buffer_after_keys(buffer, keys), buffer + keys),
    decreases keys.len(),
{
    if keys.len() == 0 {
        assert((buffer + keys) =~= buffer);
        assert(buffer.skip(0) =~= buffer);
    } else {
        let front = keys.drop_last();
        let k = keys.last();
        lemma_key_buffer_bounded(buffer, front);
        let b = buffer_after_keys(buffer, front);
        let whole = buffer + front;
        assert(buffer + keys =~= whole.push(k));
        let w2 = whole.push(k);
        let pushed = b.push(k);
        assert(pushed =~= w2.skip(w2.len() - pushed.len())) by {
            assert(b =~= whole.skip(whole.len() - b.len()));
        }
        if keys_after(b, k) == konami() {
            assert(w2.skip(w2.len() as int) =~= Seq::<KeyPress>::empty());
        } else if pushed.len() > 10 {
            assert(pushed.drop_first() =~= w2.skip(w2.len() - pushed.len() + 1));
        }
    }
}

impl NyxApp {
    /// The window as it opens, with the range `default_range` offered.
    pub fn new(default_range: String) -> (r: NyxApp)
        ensures
            r.ip_range_input == default_range,
            r.results@.len() == 0,
            !r.is_scanning,
            !r.scan_ports_enabled,
            r.timeout_ms == 1000,
            r.scanned_hosts == 0,
            r.total_hosts == 0,
            r.sort_state == (SortState { column: SortColumn::Ip, ascending: true }),
            !r.show_dead,
            r.error_message is None,
            !r.show_credits,
            !r.show_easter_egg,
            r.konami_buffer@.len() == 0,
    {
        NyxApp {
            ip_range_input: default_range,
            results: Vec::new(),
            is_scanning: false,
            scan_ports_enabled: false,
            timeout_ms: 1000,
            scanned_hosts: 0,
            total_hosts: 0,
            sort_state: SortState::default(),
            show_dead: false,
            error_message: None,
            show_credits: false,
            show_easter_egg: false,
            konami_buffer: Vec::new(),
        }
    }

    /// Starts a scan of the range in the input field. Nothing happens while a scan
    /// runs. A range that does not read leaves its message and no scan; one that
    /// reads clears the results and hands out the job of scanning its addresses
    /// with the window's timeout and port setting.
    pub fn start_scan(&mut self) -> (job: Option<ScanJob>)
        ensures
            settings_kept(*final(self), *old(self)),
            keys_kept(*final(self), *old(self)),
            final(self).sort_state == old(self).sort_state,
            old(self).is_scanning ==> job is None && final(self).results == old(self).results
                && progress_kept(*final(self), *old(self)),
            !old(self).is_scanning ==> match range_spec(old(self).ip_range_input@) {
                Err(e) => {
                    &&& job is None
                    &&& final(self).error_message matches Some(m) && m@ == range_failure_text(e)
                    &&& final(self).results == old(self).results
                    &&& !final(self).is_scanning
                    &&& final(self).scanned_hosts == old(self).scanned_hosts
                    &&& final(self).total_hosts == old(self).total_hosts
                },
                Ok(ips) => {
                    &&& job matches Some(j) && j.ips@ == ips && j.scanner == Scanner {
                        timeout_ms: old(self).timeout_ms,
                        scan_ports: old(self).scan_ports_enabled,
                    }
                    &&& final(self).error_message is None
                    &&& final(self).results@.len() == 0
                    &&& final(self).is_scanning
                    &&& final(self).scanned_hosts == 0
                    &&& final(self).total_hosts == ips.len()
                },
            },
    {
        if self.is_scanning {
            return None;
        }
        self.error_message = None;
        match parse_range(self.ip_range_input.as_str()) {
            Err(e) => {
                let mut m = String::from_str("Erreur: ");
                let text = e.message();
                push_str(&mut m, text.as_str());
                self.error_message = Some(m);
                None
            },
            Ok(ips) => {
                self.results = Vec::new();
                self.is_scanning = true;
                self.scanned_hosts = 0;
                self.total_hosts = ips.len();
                let scanner = Scanner::new(self.timeout_ms, self.scan_ports_enabled);
                Some(ScanJob { ips, scanner })
            },
        }
    }

    /// Stops the scan; the probes still running are told to stop by the caller.
    pub fn stop_scan(&mut self)
        ensures
            *final(self) == (NyxApp { is_scanning: false, ..*old(self) }),
    {
        self.is_scanning = false;
    }

    /// Sorts the results by the column and direction chosen.
    pub fn sort_results(&mut self)
        ensures
            sorted_rows(old(self).results@, old(self).sort_state, final(self).results@),
            final(self).sort_state == old(self).sort_state,
            settings_kept(*final(self), *old(self)),
            keys_kept(*final(self), *old(self)),
            progress_kept(*final(self), *old(self)),
    {
        let state = self.sort_state;
        sort_rows(&mut self.results, state);
    }

    /// Takes in what the scan reported since the last frame: the results in the
    /// order they came, and the progress reports `(done, total)`. The last report
    /// gives the counters; a report with `done >= total` ends the scan, and then
    /// the results are sorted.
    pub fn take_reports(&mut self, new_results: Vec<ScanResult>, progress: Vec<(usize, usize)>)
        ensures
            final(self).sort_state == old(self).sort_state,
            final(self).error_message == old(self).error_message,
            settings_kept(*final(self), *old(self)),
            keys_kept(*final(self), *old(self)),
            progress@.len() == 0 ==> final(self).scanned_hosts == old(self).scanned_hosts
                && final(self).total_hosts == old(self).total_hosts,
            progress@.len() > 0 ==> final(self).scanned_hosts == progress@.last().0
                && final(self).total_hosts == progress@.last().1,
            final(self).is_scanning == (old(self).is_scanning && !reports_done(progress@)),
            reports_done(progress@) ==> sorted_rows(
                old(self).results@ + new_results@,
                old(self).sort_state,
                final(self).results@,
            ),
            !reports_done(progress@) ==> final(self).results@ == old(self).results@
                + new_results@,
    {
        let mut incoming = new_results;
        let ghost added = incoming@;
        let ghost start = self.results@;
        self.results.append(&mut incoming);
        let mut done = false;
        let mut i: usize = 0;
        while i < progress.len()
            invariant
                i <= progress.len(),
                self.results@ == start + added,
                done == (exists|j: int| 0 <= j < i && #[trigger] progress@[j].0 >= progress@[j].1),
                i == 0 ==> self.scanned_hosts == old(self).scanned_hosts && self.total_hosts == old(
                    self,
                ).total_hosts,
                i > 0 ==> self.scanned_hosts == progress@[i - 1].0 && self.total_hosts
                    == progress@[i - 1].1,
                self.is_scanning == (old(self).is_scanning && !done),
                self.sort_state == old(self).sort_state,
                self.error_message == old(self).error_message,
                settings_kept(*self, *old(self)),
                keys_kept(*self, *old(self)),
            decreases progress.len() - i,
        {
            let (d, t) = progress[i];
            self.scanned_hosts = d;
            self.total_hosts = t;
            if d >= t {
                self.is_scanning = false;
                done = true;
            }
            i = i + 1;
        }
        if done {
            self.sort_results();
        }
    }

    /// A click on the header of `col`: the same column turns the direction round,
    /// another column sorts by it ascending; then the results are sorted.
    pub fn click_column(&mut self, col: SortColumn)
        ensures
            final(self).sort_state == (if old(self).sort_state.column == col {
                SortState { column: col, ascending: !old(self).sort_state.ascending }
            } else {
                SortState { column: col, ascending: true }
            }),
            sorted_rows(old(self).results@, final(self).sort_state, final(self).results@),
            settings_kept(*final(self), *old(self)),
            keys_kept(*final(self), *old(self)),
            progress_kept(*final(self), *old(self)),
    {
        if self.sort_state.column == col {
            self.sort_state.ascending = !self.sort_state.ascending;
        } else {
            self.sort_state.column = col;
            self.sort_state.ascending = true;
        }
        self.sort_results();
    }

    /// The text of the header of `col`: its name, with an arrow up or down when the
    /// results are sorted by it.
    pub fn header_label(&self, name: &str, col: SortColumn) -> (r: String)
        ensures
            r@ == name@ + (if self.sort_state.column == col {
                if self.sort_state.ascending {
                    " \u{25B2}"@
                } else {
                    " \u{25BC}"@
                }
            } else {
                Seq::<char>::empty()
            }),
    {
        let mut out = String::from_str(name);
        if self.sort_state.column == col {
            if self.sort_state.ascending {
                push_str(&mut out, " \u{25B2}");
            } else {
                push_str(&mut out, " \u{25BC}");
            }
        }
        assert(out@ =~= name@ + (if self.sort_state.column == col {
            if self.sort_state.ascending {
                " \u{25B2}"@
            } else {
                " \u{25BC}"@
            }
        } else {
            Seq::<char>::empty()
        }));
        out
    }

    /// Whether the table shows `r`: hosts that did not answer only when asked.
    pub fn is_shown(&self, r: &ScanResult) -> (b: bool)
        ensures
            b == (self.show_dead || r.status != HostStatus::Dead),
    {
        self.show_dead || r.status != HostStatus::Dead
    }

    /// A key pressed: it joins the last ten keys, and when those are the hidden
    /// key sequence the hidden window opens and the keys are forgotten.
    pub fn key_pressed(&mut self, key: KeyPress)
        ensures
            final(self).konami_buffer@ == buffer_after(old(self).konami_buffer@, key),
            final(self).show_easter_egg == (old(self).show_easter_egg || keys_after(
                old(self).konami_buffer@,
                key,
            ) == konami()),
            keys_after(old(self).konami_buffer@, key) == konami() ==> final(self).show_easter_egg
                && final(self).konami_buffer@.len() == 0,
            keys_after(old(self).konami_buffer@, key) != konami() ==> final(self).show_easter_egg
                == old(self).show_easter_egg && final(self).konami_buffer@ == keys_after(
                old(self).konami_buffer@,
                key,
            ),
            final(self).results == old(self).results,
            final(self).sort_state == old(self).sort_state,
            settings_kept(*final(self), *old(self)),
            progress_kept(*final(self), *old(self)),
    {
        self.konami_buffer.push(key);
        if self.konami_buffer.len() > 10 {
            self.konami_buffer.remove(0);
        }
        let ghost b = self.konami_buffer@;
        let matched = is_konami(&self.konami_buffer);
        if matched {
            self.show_easter_egg = true;
            self.konami_buffer.clear();
        }
        proof {
            let pushed = old(self).konami_buffer@.push(key);
            if pushed.len() > 10 {
                assert(pushed.remove(0) =~= pushed.drop_first());
            }
        }
    }

    /// The keys of one frame, pressed in order: each joins the last ten keys, and
    /// the hidden window opens when they make up the hidden key sequence.
    pub fn keys_pressed(&mut self, keys: &Vec<KeyPress>)
        ensures
            final(self).konami_buffer@ == buffer_after_keys(old(self).konami_buffer@, keys@),
            final(self).show_easter_egg == (old(self).show_easter_egg || opened_by(
                old(self).konami_buffer@,
                keys@,
            )),
            final(self).results == old(self).results,
            final(self).sort_state == old(self).sort_state,
            settings_kept(*final(self), *old(self)),
            progress_kept(*final(self), *old(self)),
    {
        let mut i: usize = 0;
        while i < keys.len()
            invariant
                i <= keys.len(),
                self.konami_buffer@ == buffer_after_keys(old(self).konami_buffer@, keys@.take(i as int)),
                self.show_easter_egg == (old(self).show_easter_egg || opened_by(
                    old(self).konami_buffer@,
                    keys@.take(i as int),
                )),
                self.results == old(self).results,
                self.sort_state == old(self).sort_state,
                settings_kept(*self, *old(self)),
                progress_kept(*self, *old(self)),
            decreases keys.len() - i,
        {
            let ghost b0 = old(self).konami_buffer@;
            let ghost t = keys@.take(i as int);
            let ghost t1 = keys@.take(i + 1);
            self.key_pressed(keys[i]);
            proof {
                assert(t1.drop_last() =~= t);
                assert(t1.last() == keys@[i as int]);
                assert forall|j: int| 0 <= j < i implies #[trigger] t1.take(j) =~= t.take(j) by {}
                assert(opened_by(b0, t1) == (opened_by(b0, t) || keys_after(
                    buffer_after_keys(b0, t),
                    keys@[i as int],
                ) == konami())) by {
                    if opened_by(b0, t) {
                        let j = choose|j: int|
                            0 <= j < t.len() && #[trigger] keys_after(
                                buffer_after_keys(b0, t.take(j)),
                                t[j],
                            ) == konami();
                        assert(t1.take(j) =~= t.take(j));
                        assert(t1[j] == t[j]);
                    }
                    if keys_after(buffer_after_keys(b0, t), keys@[i as int]) == konami() {
                        assert(t1.take(i as int) =~= t);
                        assert(t1[i as int] == keys@[i as int]);
                    }
                    if opened_by(b0, t1) {
                        let j = choose|j: int|
                            0 <= j < t1.len() && #[trigger] keys_after(
                                buffer_after_keys(b0, t1.take(j)),
                                t1[j],
                            ) == konami();
                        if j < i {
                            assert(t1.take(j) =~= t.take(j));
                            assert(t1[j] == t[j]);
                        } else {
                            assert(t1.take(j) =~= t);
                        }
                    }
                }
            }
            i = i + 1;
        }
        assert(keys@.take(keys.len() as int) =~= keys@);
    }

    /// The workbook that exports the results at `date`: one worksheet named
    /// `NyxIP Scan` with the report's texts, each cell in the format of its style,
    /// filter buttons over the headers and the results, and the report's column
    /// widths; the caller saves it.
    pub fn export_csv(&self, date: &str) -> (book: Workbook)
        ensures
            workbook_sheets(book) == seq![report_texts(date@, self.results@)],
            workbook_sheet_looks(book) == seq![report_looks(date@, self.results@)],
            workbook_sheet_names(book) == seq!["NyxIP Scan"@],
            workbook_sheet_filters(book) == seq![report_filter(self.results@.len())],
            workbook_sheet_widths(book) == seq![report_column_widths()],
    {
        export_workbook(date, &self.results)
    }

    /// The message after an export to `filename`: where it was saved, or why it failed.
    pub fn export_finished(&mut self, filename: &str, outcome: Result<(), String>)
        ensures
            final(self).error_message matches Some(m) && m@ == (match outcome {
                Ok(_) => "Export sauvegard\u{e9}: "@ + filename@,
                Err(e) => "Erreur export: "@ + e@,
            }),
            final(self).results == old(self).results,
            final(self).sort_state == old(self).sort_state,
            final(self).is_scanning == old(self).is_scanning,
            final(self).scanned_hosts == old(self).scanned_hosts,
            final(self).total_hosts == old(self).total_hosts,
            settings_kept(*final(self), *old(self)),
            keys_kept(*final(self), *old(self)),
    {
        let m = match outcome {
            Ok(_) => {
                let mut m = String::from_str("Export sauvegard\u{e9}: ");
                push_str(&mut m, filename);
                m
            },
            Err(e) => {
                let mut m = String::from_str("Erreur export: ");
                push_str(&mut m, e.as_str());
                m
            },
        };
        self.error_message = Some(m);
    }
}

/// Whether the keys are the hidden key sequence.
fn is_konami(b: &Vec<KeyPress>) -> (r: bool)
    ensures
        r == (b@ == konami()),
{
    if b.len() != 10 {
        return false;
    }
    let r = b[0] == KeyPress::ArrowUp && b[1] == KeyPress::ArrowUp && b[2] == KeyPress::ArrowDown
        && b[3] == KeyPress::ArrowDown && b[4] == KeyPress::ArrowLeft && b[5]
        == KeyPress::ArrowRight && b[6] == KeyPress::ArrowLeft && b[7] == KeyPress::ArrowRight
        && b[8] == KeyPress::B && b[9] == KeyPress::A;
    proof {
        if r {
            assert(b@ =~= konami());
        } else if b@ == konami() {
            assert(b@[0] == konami()[0]);
        }
    }
    r
}

} // verus!
