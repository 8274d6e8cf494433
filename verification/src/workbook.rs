//! The exported workbook: the report's cells written into a worksheet of
//! `rust_xlsxwriter`, with the formats that draw them.

use vstd::prelude::*;
use rust_xlsxwriter::{Color, Format, FormatBorder, Workbook, Worksheet};
use crate::ipv4::{dotted, lemma_dotted_shape};
use crate::report::{
    data_style, data_text, header_text, latency_text, ports_text, shown_text, rounded_ms, sheet_cells, sheet_is, summary_text, CellStyle,
    SheetCell,
};
use crate::scanner::{status_text, ScanResult};
use crate::text::{decimal, lemma_decimal_digits};

verus! {

#[verifier::external_type_specification]
#[verifier::external_body]
pub struct ExWorkbook(Workbook);

#[verifier::external_type_specification]
#[verifier::external_body]
pub struct ExWorksheet(Worksheet);

#[verifier::external_type_specification]
#[verifier::external_body]
pub struct ExFormat(Format);

/// The number of rows of a worksheet.
pub const ROW_LIMIT: u32 = 1_048_576;

/// The number of columns of a worksheet.
pub const COL_LIMIT: u16 = 16_384;

/// The longest text a cell holds, in UTF-16 units.
pub const TEXT_LIMIT: usize = 32_767;

/// The length of a text in UTF-16 units: a character above U+FFFF takes two.
pub open spec fn utf16_len(t: Seq<char>) -> nat
    decreases t.len(),
{
    if t.len() == 0 {
        0
    } else {
        utf16_len(t.drop_last()) + if (t.last() as u32) >= 0x10000 {
            2nat
        } else {
            1nat
        }
    }
}

/// A text takes at most two UTF-16 units a character.
proof fn lemma_utf16_len_bound(t: Seq<char>)
    ensures
        utf16_len(t) <= 2 * t.len(),
    decreases t.len(),
{
    if t.len() > 0 {
        lemma_utf16_len_bound(t.drop_last());
    }
}

/// Whether Excel takes `n` as the name of a worksheet: not empty, at most 31
/// UTF-16 units, none of `* ? : [ ] \ /`, and no apostrophe at either end.
pub open spec fn valid_sheet_name(n: Seq<char>) -> bool {
    &&& n.len() > 0
    &&& utf16_len(n) <= 31
    &&& forall|i: int|
        0 <= i < n.len() ==> !(#[trigger] n[i] == '*' || n[i] == '?' || n[i] == ':' || n[i] == '['
            || n[i] == ']' || n[i] == '\\' || n[i] == '/')
    &&& n[0] != '\''
    &&& n.last() != '\''
}

/// What a format shows of a cell, as far as the report sets it: bold type, the
/// font and background colors (`Some(0xRRGGBB)` for a color given as RGB, `None`
/// for any other), a thin line on all four sides, the color of all four sides,
/// and the font size in points (`Some(n)` when the size is the whole number `n`).
pub struct FormatLook {
    pub bold: bool,
    pub font_color: Option<u32>,
    pub background: Option<u32>,
    pub thin_border: bool,
    pub border_color: Option<u32>,
    pub font_points: Option<u32>,
}

/// What the default format shows: Calibri at 11 points, with nothing else set.
pub open spec fn default_look() -> FormatLook {
    FormatLook {
        bold: false,
        font_color: None,
        background: None,
        thin_border: false,
        border_color: None,
        font_points: Some(11),
    }
}

/// The text of each cell of a worksheet that holds a string, by row and column.
pub uninterp spec fn sheet_texts(s: Worksheet) -> Map<(u32, u16), Seq<char>>;

/// What the format of each cell of a worksheet that holds a string shows, by row
/// and column.
pub uninterp spec fn sheet_looks(s: Worksheet) -> Map<(u32, u16), FormatLook>;

/// The name of a worksheet; empty until it is given one.
pub uninterp spec fn sheet_name(s: Worksheet) -> Seq<char>;

/// The range `(first row, first column, last row, last column)` of a worksheet's
/// filter buttons, when it has them.
pub uninterp spec fn sheet_filter(s: Worksheet) -> Option<(u32, u16, u32, u16)>;

/// The width in pixels stored for each column of a worksheet that has settings
/// of its own.
pub uninterp spec fn sheet_column_widths(s: Worksheet) -> Map<u16, u32>;

/// The measures by which a worksheet turns a column width in characters into
/// pixels: the width of a digit, the padding of a cell, and the widest column.
pub uninterp spec fn sheet_width_measures(s: Worksheet) -> (u32, u32, u32);

/// What a format shows, as `FormatLook` describes it.
pub uninterp spec fn format_look(f: Format) -> FormatLook;

/// The texts of the worksheets of a workbook, in the order they were added.
pub uninterp spec fn workbook_sheets(w: Workbook) -> Seq<Map<(u32, u16), Seq<char>>>;

/// The looks of the cells of the worksheets of a workbook, in the order they were added.
pub uninterp spec fn workbook_sheet_looks(w: Workbook) -> Seq<Map<(u32, u16), FormatLook>>;

/// The column widths of the worksheets of a workbook, in the order they were added.
pub uninterp spec fn workbook_sheet_widths(w: Workbook) -> Seq<Map<u16, u32>>;

/// The names of the worksheets of a workbook, in the order they were added.
pub uninterp spec fn workbook_sheet_names(w: Workbook) -> Seq<Seq<char>>;

/// The filter ranges of the worksheets of a workbook, in the order they were added.
pub uninterp spec fn workbook_sheet_filters(w: Workbook) -> Seq<Option<(u32, u16, u32, u16)>>;

/// `Worksheet::new`: a worksheet with no cells, no name and no filter.
#[verifier::external_body]
fn new_sheet() -> (sheet: Worksheet)
    ensures
        sheet_texts(sheet).is_empty(),
        sheet_looks(sheet).is_empty(),
        sheet_name(sheet) == Seq::<char>::empty(),
        sheet_filter(sheet) is None,
        sheet_column_widths(sheet).is_empty(),
        sheet_width_measures(sheet) == (7u32, 5u32, 1790u32),
{
    Worksheet::new()
}

/// `Worksheet::set_name`: names the worksheet when Excel takes the name, and
/// otherwise leaves the name; the cells and the filter stay as they are.
#[verifier::external_body]
fn name_sheet(sheet: &mut Worksheet, name: &str)
    ensures
        valid_sheet_name(name@) ==> sheet_name(*final(sheet)) == name@,
        !valid_sheet_name(name@) ==> sheet_name(*final(sheet)) == sheet_name(*old(sheet)),
        sheet_texts(*final(sheet)) == sheet_texts(*old(sheet)),
        sheet_looks(*final(sheet)) == sheet_looks(*old(sheet)),
        sheet_filter(*final(sheet)) == sheet_filter(*old(sheet)),
        sheet_column_widths(*final(sheet)) == sheet_column_widths(*old(sheet)),
        sheet_width_measures(*final(sheet)) == sheet_width_measures(*old(sheet)),
{
    let _ = sheet.set_name(name);
}

/// `Worksheet::write_string_with_format`: a non-empty text is stored at `(row,
/// col)`, with the format given, exactly when the place lies in the sheet and the
/// text is not longer than Excel allows; otherwise the call fails and the cells
/// stay as they are. What this says holds of the crate's standard-memory
/// worksheets, the only kind this build has (its `constant_memory` feature is
/// off). The name and the filter stay as they are.
#[verifier::external_body]
fn write_text(sheet: &mut Worksheet, row: u32, col: u16, text: &str, format: &Format) -> (stored: bool)
    requires
        text@.len() > 0,
    ensures
        stored == (row < ROW_LIMIT && col < COL_LIMIT && utf16_len(text@) <= TEXT_LIMIT),
        stored ==> sheet_texts(*final(sheet)) == sheet_texts(*old(sheet)).insert((row, col), text@),
        stored ==> sheet_looks(*final(sheet)) == sheet_looks(*old(sheet)).insert(
            (row, col),
            format_look(*format),
        ),
        !stored ==> sheet_texts(*final(sheet)) == sheet_texts(*old(sheet)),
        !stored ==> sheet_looks(*final(sheet)) == sheet_looks(*old(sheet)),
        sheet_name(*final(sheet)) == sheet_name(*old(sheet)),
        sheet_filter(*final(sheet)) == sheet_filter(*old(sheet)),
        sheet_column_widths(*final(sheet)) == sheet_column_widths(*old(sheet)),
        sheet_width_measures(*final(sheet)) == sheet_width_measures(*old(sheet)),
{
    sheet.write_string_with_format(row, col, text, format).is_ok()
}

/// The pixels of a column `width` characters wide (at least one), under the
/// measures `(digit, padding, widest)`.
pub open spec fn column_pixels(width: u8, m: (u32, u32, u32)) -> u32 {
    let p = width * m.0 + m.1;
    if p > m.2 {
        m.2
    } else {
        p as u32
    }
}

/// `Worksheet::set_column_width`: sets the width of a column that lies in the
/// sheet, given in characters (at least one), and stores it in pixels: the
/// width of that many digits and a cell's padding, at most the widest column;
/// the cells, the name and the filter stay as they are.
#[verifier::external_body]
fn column_width(sheet: &mut Worksheet, col: u16, width: u8)
    requires
        width >= 1,
        1 <= width * sheet_width_measures(*old(sheet)).0 + sheet_width_measures(*old(sheet)).1
            < 0x1_0000_0000,
    ensures
        col < COL_LIMIT ==> sheet_column_widths(*final(sheet)) == sheet_column_widths(
            *old(sheet),
        ).insert(
            col,
            column_pixels(width, sheet_width_measures(*old(sheet))),
        ),
        col >= COL_LIMIT ==> sheet_column_widths(*final(sheet)) == sheet_column_widths(*old(sheet)),
        sheet_width_measures(*final(sheet)) == sheet_width_measures(*old(sheet)),
        sheet_texts(*final(sheet)) == sheet_texts(*old(sheet)),
        sheet_looks(*final(sheet)) == sheet_looks(*old(sheet)),
        sheet_name(*final(sheet)) == sheet_name(*old(sheet)),
        sheet_filter(*final(sheet)) == sheet_filter(*old(sheet)),
{
    let _ = sheet.set_column_width(col, width);
}

/// `Worksheet::autofilter`: puts filter buttons over a range whose corners lie
/// in the sheet and come in order; for another range the filter stays as it is.
/// The cells and the name stay as they are.
#[verifier::external_body]
fn filter_range(sheet: &mut Worksheet, first_row: u32, first_col: u16, last_row: u32, last_col: u16)
    ensures
        (first_row < ROW_LIMIT && first_col < COL_LIMIT && last_row < ROW_LIMIT && last_col
            < COL_LIMIT && first_row <= last_row && first_col <= last_col) ==> sheet_filter(
            *final(sheet),
        ) == Some((first_row, first_col, last_row, last_col)),
        !(first_row < ROW_LIMIT && first_col < COL_LIMIT && last_row < ROW_LIMIT && last_col
            < COL_LIMIT && first_row <= last_row && first_col <= last_col) ==> sheet_filter(
            *final(sheet),
        ) == sheet_filter(*old(sheet)),
        sheet_texts(*final(sheet)) == sheet_texts(*old(sheet)),
        sheet_looks(*final(sheet)) == sheet_looks(*old(sheet)),
        sheet_name(*final(sheet)) == sheet_name(*old(sheet)),
        sheet_column_widths(*final(sheet)) == sheet_column_widths(*old(sheet)),
        sheet_width_measures(*final(sheet)) == sheet_width_measures(*old(sheet)),
{
    let _ = sheet.autofilter(first_row, first_col, last_row, last_col);
}

/// `Format::new`: the default format.
#[verifier::external_body]
fn new_format() -> (f: Format)
    ensures
        format_look(f) == default_look(),
{
    Format::new()
}

/// `Format::set_bold`.
#[verifier::external_body]
fn with_bold(f: Format) -> (r: Format)
    ensures
        format_look(r) == (FormatLook { bold: true, ..format_look(f) }),
{
    f.set_bold()
}

/// `Format::set_font_color`, with the color `0xRRGGBB`.
#[verifier::external_body]
fn with_font_color(f: Format, rgb: u32) -> (r: Format)
    requires
        rgb <= 0xFFFFFF,
    ensures
        format_look(r) == (FormatLook { font_color: Some(rgb), ..format_look(f) }),
{
    f.set_font_color(Color::RGB(rgb))
}

/// `Format::set_background_color`, with the color `0xRRGGBB`.
#[verifier::external_body]
fn with_background(f: Format, rgb: u32) -> (r: Format)
    requires
        rgb <= 0xFFFFFF,
    ensures
        format_look(r) == (FormatLook { background: Some(rgb), ..format_look(f) }),
{
    f.set_background_color(Color::RGB(rgb))
}

/// `Format::set_border`, with a thin line on the four sides.
#[verifier::external_body]
fn with_thin_border(f: Format) -> (r: Format)
    ensures
        format_look(r) == (FormatLook { thin_border: true, ..format_look(f) }),
{
    f.set_border(FormatBorder::Thin)
}

/// `Format::set_border_color`, with the color `0xRRGGBB` on the four sides.
#[verifier::external_body]
fn with_border_color(f: Format, rgb: u32) -> (r: Format)
    requires
        rgb <= 0xFFFFFF,
    ensures
        format_look(r) == (FormatLook { border_color: Some(rgb), ..format_look(f) }),
{
    f.set_border_color(Color::RGB(rgb))
}

/// `Format::set_font_size`, in whole points.
#[verifier::external_body]
fn with_font_size(f: Format, points: u8) -> (r: Format)
    ensures
        format_look(r) == (FormatLook { font_points: Some(points as u32), ..format_look(f) }),
{
    f.set_font_size(points)
}

/// `Workbook::new`: a workbook with no worksheets.
#[verifier::external_body]
fn new_workbook() -> (book: Workbook)
    ensures
        workbook_sheets(book).len() == 0,
        workbook_sheet_looks(book).len() == 0,
        workbook_sheet_names(book).len() == 0,
        workbook_sheet_filters(book).len() == 0,
        workbook_sheet_widths(book).len() == 0,
{
    Workbook::new()
}

/// `Workbook::push_worksheet`: adds the worksheet after the others, naming it
/// `Sheet<n>` (`n` its place, from 1) when it has no name; its cells and its
/// filter stay as they are.
#[verifier::external_body]
fn add_sheet(book: &mut Workbook, sheet: Worksheet)
    ensures
        workbook_sheets(*final(book)) == workbook_sheets(*old(book)).push(sheet_texts(sheet)),
        workbook_sheet_looks(*final(book)) == workbook_sheet_looks(*old(book)).push(
            sheet_looks(sheet),
        ),
        workbook_sheet_filters(*final(book)) == workbook_sheet_filters(*old(book)).push(
            sheet_filter(sheet),
        ),
        workbook_sheet_widths(*final(book)) == workbook_sheet_widths(*old(book)).push(
            sheet_column_widths(sheet),
        ),
        sheet_name(sheet).len() > 0 ==> workbook_sheet_names(*final(book)) == workbook_sheet_names(
            *old(book),
        ).push(sheet_name(sheet)),
        sheet_name(sheet).len() == 0 ==> workbook_sheet_names(*final(book)) == workbook_sheet_names(
            *old(book),
        ).push("Sheet"@ + decimal(workbook_sheet_names(*old(book)).len() + 1)),
{
    book.push_worksheet(sheet)
}

/// Whether a cell of the report lies in a worksheet and its text is not longer
/// than a cell holds.
pub open spec fn cell_fits(c: SheetCell) -> bool {
    c.row < ROW_LIMIT && c.col < COL_LIMIT && utf16_len(c.text@) <= TEXT_LIMIT
}

/// The place of a cell in a worksheet.
pub open spec fn cell_key(c: SheetCell) -> (u32, u16) {
    (c.row as u32, c.col)
}

/// What a worksheet holds once the cells are written into it in order: for each
/// cell that fits, `value` of the cell at its place.
pub open spec fn written_by<V>(cells: Seq<SheetCell>, value: spec_fn(SheetCell) -> V) -> Map<
    (u32, u16),
    V,
>
    decreases cells.len(),
{
    if cells.len() == 0 {
        Map::empty()
    } else {
        let before = written_by(cells.drop_last(), value);
        let c = cells.last();
        if cell_fits(c) {
            before.insert(cell_key(c), value(c))
        } else {
            before
        }
    }
}

/// The texts a worksheet holds once the cells are written into it in order.
pub open spec fn written(cells: Seq<SheetCell>) -> Map<(u32, u16), Seq<char>> {
    written_by(cells, |c: SheetCell| c.text@)
}

/// The looks of the cells of a worksheet once the cells are written into it in
/// order, each in the format of its style.
pub open spec fn written_looks(cells: Seq<SheetCell>) -> Map<(u32, u16), FormatLook> {
    written_by(cells, |c: SheetCell| style_look(c.style))
}

/// What a data cell's format shows: a thin dark border and a 10-point font, in
/// `color` and bold when asked.
pub open spec fn data_look(color: Option<u32>, bold: bool) -> FormatLook {
    FormatLook {
        bold,
        font_color: color,
        background: None,
        thin_border: true,
        border_color: Some(0x333355),
        font_points: Some(10),
    }
}

/// What the format of a style shows: a 16-point bold cyan title; bold white
/// headers at 11 points on a dark ground with cyan borders; data cells whose MAC
/// addresses are purple, ports orange, and statuses bold green or red; and the
/// default format for the summary line.
pub open spec fn style_look(s: CellStyle) -> FormatLook {
    match s {
        CellStyle::Title => FormatLook {
            bold: true,
            font_color: Some(0x00D2FF),
            background: None,
            thin_border: false,
            border_color: None,
            font_points: Some(16),
        },
        CellStyle::Header => FormatLook {
            bold: true,
            font_color: Some(0xFFFFFF),
            background: Some(0x1A1A2E),
            thin_border: true,
            border_color: Some(0x00D2FF),
            font_points: Some(11),
        },
        CellStyle::Data => data_look(None, false),
        CellStyle::Mac => data_look(Some(0x9664FF), false),
        CellStyle::Ports => data_look(Some(0xFFAB40), false),
        CellStyle::Alive => data_look(Some(0x00E676), true),
        CellStyle::Dead => data_look(Some(0xFF5252), true),
        CellStyle::Plain => default_look(),
    }
}

/// The formats of the report's cells, one for each style.
struct SheetFormats {
    title: Format,
    header: Format,
    data: Format,
    mac: Format,
    ports: Format,
    alive: Format,
    dead: Format,
    plain: Format,
}

/// A data cell's format: a thin dark border and a small font, in `color` and
/// bold when asked.
fn data_format(color: Option<u32>, bold: bool) -> (f: Format)
    requires
        color matches Some(rgb) ==> rgb <= 0xFFFFFF,
    ensures
        format_look(f) == data_look(color, bold),
{
    let mut f = with_font_size(with_border_color(with_thin_border(new_format()), 0x333355), 10);
    if let Some(rgb) = color {
        f = with_font_color(f, rgb);
    }
    if bold {
        f = with_bold(f);
    }
    f
}

/// The formats of the report, each showing what `style_look` gives for its style.
fn sheet_formats() -> (r: SheetFormats)
    ensures
        format_look(r.title) == style_look(CellStyle::Title),
        format_look(r.header) == style_look(CellStyle::Header),
        format_look(r.data) == style_look(CellStyle::Data),
        format_look(r.mac) == style_look(CellStyle::Mac),
        format_look(r.ports) == style_look(CellStyle::Ports),
        format_look(r.alive) == style_look(CellStyle::Alive),
        format_look(r.dead) == style_look(CellStyle::Dead),
        format_look(r.plain) == style_look(CellStyle::Plain),
{
    SheetFormats {
        title: with_font_color(with_bold(with_font_size(new_format(), 16)), 0x00D2FF),
        header: with_font_size(
            with_border_color(
                with_thin_border(with_background(with_font_color(with_bold(new_format()), 0xFFFFFF), 0x1A1A2E)),
                0x00D2FF,
            ),
            11,
        ),
        data: data_format(None, false),
        mac: data_format(Some(0x9664FF), false),
        ports: data_format(Some(0xFFAB40), false),
        alive: data_format(Some(0x00E676), true),
        dead: data_format(Some(0xFF5252), true),
        plain: new_format(),
    }
}

/// A worksheet that holds the cells, each drawn in the format of its style.
fn write_sheet(cells: &Vec<SheetCell>) -> (sheet: Worksheet)
    requires
        forall|i: int| 0 <= i < cells@.len() ==> (#[trigger] cells@[i]).text@.len() > 0,
    ensures
        sheet_texts(sheet) == written(cells@),
        sheet_looks(sheet) == written_looks(cells@),
        sheet_name(sheet) == Seq::<char>::empty(),
        sheet_filter(sheet) is None,
        sheet_column_widths(sheet).is_empty(),
        sheet_width_measures(sheet) == (7u32, 5u32, 1790u32),
{
    let formats = sheet_formats();
    let mut sheet = new_sheet();
    let mut i: usize = 0;
    while i < cells.len()
        invariant
            i <= cells.len(),
            forall|k: int| 0 <= k < cells@.len() ==> (#[trigger] cells@[k]).text@.len() > 0,
            sheet_texts(sheet) == written(cells@.take(i as int)),
            sheet_looks(sheet) == written_looks(cells@.take(i as int)),
            sheet_name(sheet) == Seq::<char>::empty(),
            sheet_filter(sheet) is None,
            sheet_column_widths(sheet).is_empty(),
            sheet_width_measures(sheet) == (7u32, 5u32, 1790u32),
            format_look(formats.title) == style_look(CellStyle::Title),
            format_look(formats.header) == style_look(CellStyle::Header),
            format_look(formats.data) == style_look(CellStyle::Data),
            format_look(formats.mac) == style_look(CellStyle::Mac),
            format_look(formats.ports) == style_look(CellStyle::Ports),
            format_look(formats.alive) == style_look(CellStyle::Alive),
            format_look(formats.dead) == style_look(CellStyle::Dead),
            format_look(formats.plain) == style_look(CellStyle::Plain),
        decreases cells.len() - i,
    {
        let c = &cells[i];
        if c.row < ROW_LIMIT as usize {
            let row = c.row as u32;
            let col = c.col;
            let text = c.text.as_str();
            let format = match c.style {
                CellStyle::Plain => &formats.plain,
                CellStyle::Title => &formats.title,
                CellStyle::Header => &formats.header,
                CellStyle::Data => &formats.data,
                CellStyle::Mac => &formats.mac,
                CellStyle::Ports => &formats.ports,
                CellStyle::Alive => &formats.alive,
                CellStyle::Dead => &formats.dead,
            };
            let _ = write_text(&mut sheet, row, col, text, format);
        }
        assert(cells@.take(i + 1).drop_last() =~= cells@.take(i as int));
        i = i + 1;
    }
    assert(cells@.take(cells.len() as int) =~= cells@);
    sheet
}

/// Writing cells whose places differ: the worksheet holds, at each place, the
/// value of the cell written there, and nothing elsewhere.
proof fn lemma_written<V>(cells: Seq<SheetCell>, value: spec_fn(SheetCell) -> V)
    requires
        forall|a: int, b: int|
            0 <= a < b < cells.len() && cell_fits(cells[a]) && cell_fits(cells[b]) ==> cell_key(
                #[trigger] cells[a],
            ) != cell_key(#[trigger] cells[b]),
    ensures
        forall|k: (u32, u16)|
            #![trigger written_by(cells, value).dom().contains(k)]
            written_by(cells, value).dom().contains(k) <==> exists|j: int|
                0 <= j < cells.len() && cell_fits(cells[j]) && cell_key(#[trigger] cells[j]) == k,
        forall|j: int|
            0 <= j < cells.len() && cell_fits(#[trigger] cells[j]) ==> written_by(cells, value)[cell_key(
                cells[j],
            )] == value(cells[j]),
    decreases cells.len(),
{
    if cells.len() > 0 {
        let front = cells.drop_last();
        assert forall|a: int, b: int|
            0 <= a < b < front.len() && cell_fits(front[a]) && cell_fits(front[b]) implies cell_key(
            #[trigger] front[a],
        ) != cell_key(#[trigger] front[b]) by {
            assert(front[a] == cells[a] && front[b] == cells[b]);
        }
        lemma_written(front, value);
        let n = cells.len() - 1;
        assert forall|k: (u32, u16)|
            #![trigger written_by(cells, value).dom().contains(k)]
            written_by(cells, value).dom().contains(k) <==> exists|j: int|
                0 <= j < cells.len() && cell_fits(cells[j]) && cell_key(#[trigger] cells[j]) == k by {
            if written_by(cells, value).dom().contains(k) {
                if cell_fits(cells[n]) && cell_key(cells[n]) == k {
                } else {
                    assert(written_by(front, value).dom().contains(k));
                    let j = choose|j: int|
                        0 <= j < front.len() && cell_fits(front[j]) && cell_key(#[trigger] front[j])
                            == k;
                    assert(cells[j] == front[j]);
                }
            }
            if exists|j: int|
                0 <= j < cells.len() && cell_fits(cells[j]) && cell_key(#[trigger] cells[j]) == k {
                let j = choose|j: int|
                    0 <= j < cells.len() && cell_fits(cells[j]) && cell_key(#[trigger] cells[j]) == k;
                if j < n {
                    assert(front[j] == cells[j]);
                    assert(written_by(front, value).dom().contains(k));
                }
            }
        }
        assert forall|j: int|
            0 <= j < cells.len() && cell_fits(#[trigger] cells[j]) implies written_by(cells, value)[cell_key(
            cells[j],
        )] == value(cells[j]) by {
            if j < n {
                assert(front[j] == cells[j]);
                if cell_fits(cells[n]) {
                    assert(cell_key(cells[j]) != cell_key(cells[n]));
                }
            }
        }
    }
}

/// The text of the report at `(row, col)`, if it has one there: the title and
/// the summary in the first column of the first two rows, the seven headers in
/// the fourth row, and a row for each result from the fifth row on.
pub open spec fn report_text(date: Seq<char>, rows: Seq<ScanResult>, row: int, col: int) -> Option<
    Seq<char>,
> {
    if row == 0 && col == 0 {
        Some("NyxIP Scan Report"@)
    } else if row == 1 && col == 0 {
        Some(summary_text(date, rows))
    } else if row == 3 && 0 <= col < 7 {
        Some(header_text(col as nat))
    } else if 4 <= row < rows.len() + 4 && 0 <= col < 7 {
        Some(data_text(rows[row - 4], col as nat))
    } else {
        None
    }
}

/// The texts of the exported worksheet: each text of the report whose place
/// lies in a worksheet and which is not longer than a cell holds.
pub open spec fn report_texts(date: Seq<char>, rows: Seq<ScanResult>) -> Map<(u32, u16), Seq<char>> {
    Map::new(
        |k: (u32, u16)|
            k.0 < ROW_LIMIT && report_text(date, rows, k.0 as int, k.1 as int) is Some && utf16_len(
                report_text(date, rows, k.0 as int, k.1 as int)->0,
            ) <= TEXT_LIMIT,
        |k: (u32, u16)| report_text(date, rows, k.0 as int, k.1 as int)->0,
    )
}

/// The style of the report's cell at `(row, col)`, where it has one: the title,
/// the plain summary, the headers, and the data cells by column and status.
pub open spec fn report_style(rows: Seq<ScanResult>, row: int, col: int) -> CellStyle {
    if row == 0 {
        CellStyle::Title
    } else if row == 1 {
        CellStyle::Plain
    } else if row == 3 {
        CellStyle::Header
    } else {
        data_style(col as nat, rows[row - 4].status)
    }
}

/// The looks of the cells of the exported worksheet: at each place that holds a
/// text, what the format of the cell's style shows.
pub open spec fn report_looks(date: Seq<char>, rows: Seq<ScanResult>) -> Map<(u32, u16), FormatLook> {
    Map::new(
        |k: (u32, u16)| report_texts(date, rows).dom().contains(k),
        |k: (u32, u16)| style_look(report_style(rows, k.0 as int, k.1 as int)),
    )
}

/// The filter buttons of the exported worksheet for `n` results: over the
/// headers and the results, rows 3 to `n + 3` and columns 0 to 6, when the last
/// of those rows lies in a worksheet.
pub open spec fn report_filter(n: nat) -> Option<(u32, u16, u32, u16)> {
    if n + 3 < ROW_LIMIT {
        Some((3u32, 0u16, (n + 3) as u32, 6u16))
    } else {
        None
    }
}

/// In the exported worksheet, the text under each header in the row of the
/// `i`-th result is that field of the result as the table shows it.
pub proof fn lemma_report_columns(date: Seq<char>, rows: Seq<ScanResult>, i: int)
    requires
        0 <= i < rows.len(),
    ensures
        report_text(date, rows, 3, 0) == Some("IP"@) && report_text(date, rows, i + 4, 0) == Some(
            dotted(rows[i].ip.bits),
        ),
        report_text(date, rows, 3, 1) == Some("Hostname"@) && report_text(date, rows, i + 4, 1)
            == Some(shown_text(rows[i].hostname@)),
        report_text(date, rows, 3, 2) == Some("MAC"@) && report_text(date, rows, i + 4, 2) == Some(
            shown_text(rows[i].mac@),
        ),
        report_text(date, rows, 3, 3) == Some("Vendor"@) && report_text(date, rows, i + 4, 3)
            == Some(shown_text(rows[i].vendor@)),
        report_text(date, rows, 3, 4) == Some("Latence (ms)"@) && report_text(date, rows, i + 4, 4)
            == Some(latency_text(rows[i].latency_us, false)),
        report_text(date, rows, 3, 5) == Some("Ports"@) && report_text(date, rows, i + 4, 5)
            == Some(ports_text(rows[i].open_ports@)),
        report_text(date, rows, 3, 6) == Some("Statut"@) && report_text(date, rows, i + 4, 6)
            == Some(status_text(rows[i].status)),
{
}

/// Every text of the report is non-empty.
proof fn lemma_report_text_nonempty(date: Seq<char>, rows: Seq<ScanResult>, row: int, col: int)
    requires
        report_text(date, rows, row, col) is Some,
    ensures
        (report_text(date, rows, row, col)->0).len() > 0,
{
    reveal_strlit("NyxIP Scan Report");
    reveal_strlit("Date: ");
    reveal_strlit("IP");
    reveal_strlit("Hostname");
    reveal_strlit("MAC");
    reveal_strlit("Vendor");
    reveal_strlit("Latence (ms)");
    reveal_strlit("Ports");
    reveal_strlit("Statut");
    reveal_strlit("\u{2014}");
    reveal_strlit("Alive");
    reveal_strlit("Dead");
    reveal_strlit("Unknown");
    if 4 <= row < rows.len() + 4 && 0 <= col < 7 && !(row == 0 || row == 1 || row == 3) {
        let r = rows[row - 4];
        lemma_dotted_shape(r.ip.bits);
        if let Some(us) = r.latency_us {
            lemma_decimal_digits(rounded_ms(us));
        }
        let p = r.open_ports@;
        if p.len() > 1 {
            lemma_decimal_digits(p.last() as nat);
        } else if p.len() == 1 {
            lemma_decimal_digits(p[0] as nat);
        }
    }
}

/// Where the report puts its `j`-th cell, as `sheet_cells` lists them.
spec fn cell_place(j: int) -> (int, int) {
    if j == 0 {
        (0, 0)
    } else if j == 1 {
        (1, 0)
    } else if j < 9 {
        (3, j - 2)
    } else {
        ((j - 9) / 7 + 4, (j - 9) % 7)
    }
}

/// The cells of a report lie at their places and hold the report's texts there.
proof fn lemma_cells_placed(cells: Seq<SheetCell>, date: Seq<char>, rows: Seq<ScanResult>, j: int)
    requires
        sheet_is(cells, date, rows),
        0 <= j < cells.len(),
    ensures
        cells[j].row == cell_place(j).0,
        cells[j].col == cell_place(j).1,
        report_text(date, rows, cell_place(j).0, cell_place(j).1) == Some(cells[j].text@),
        cells[j].style == report_style(rows, cell_place(j).0, cell_place(j).1),
        0 <= cell_place(j).1 < 7,
{
    if 2 <= j < 9 {
        assert(cells[2 + (j - 2)] == cells[j]);
    } else if j >= 9 {
        let i = (j - 9) / 7;
        let c = (j - 9) % 7;
        assert(j == 9 + 7 * i + c);
        assert(0 <= i < rows.len()) by {
            assert(j < 9 + 7 * rows.len());
        }
        assert(cells[9 + 7 * i + c] == cells[j]);
    }
}

/// Two cells of a report never share a place.
proof fn lemma_places_differ(a: int, b: int)
    requires
        0 <= a < b,
    ensures
        cell_place(a) != cell_place(b),
{
    if a >= 9 {
        assert((a - 9) / 7 != (b - 9) / 7 || (a - 9) % 7 != (b - 9) % 7) by {
            assert(a - 9 == 7 * ((a - 9) / 7) + (a - 9) % 7);
            assert(b - 9 == 7 * ((b - 9) / 7) + (b - 9) % 7);
        }
    } else if b >= 9 {
        assert((b - 9) / 7 >= 0);
    }
}

/// The worksheet written from a report's cells holds the report's texts.
proof fn lemma_report_written(cells: Seq<SheetCell>, date: Seq<char>, rows: Seq<ScanResult>)
    requires
        sheet_is(cells, date, rows),
    ensures
        written(cells) == report_texts(date, rows),
        written_looks(cells) == report_looks(date, rows),
        forall|i: int| 0 <= i < cells.len() ==> (#[trigger] cells[i]).text@.len() > 0,
{
    assert forall|i: int| 0 <= i < cells.len() implies (#[trigger] cells[i]).text@.len() > 0 by {
        lemma_cells_placed(cells, date, rows, i);
        lemma_report_text_nonempty(date, rows, cell_place(i).0, cell_place(i).1);
    }
    assert forall|a: int, b: int|
        0 <= a < b < cells.len() && cell_fits(cells[a]) && cell_fits(cells[b]) implies cell_key(
        #[trigger] cells[a],
    ) != cell_key(#[trigger] cells[b]) by {
        lemma_cells_placed(cells, date, rows, a);
        lemma_cells_placed(cells, date, rows, b);
        lemma_places_differ(a, b);
    }
    let text_of = |c: SheetCell| c.text@;
    let look_of = |c: SheetCell| style_look(c.style);
    lemma_written(cells, text_of);
    lemma_written(cells, look_of);
    let w = written(cells);
    let wl = written_looks(cells);
    let r = report_texts(date, rows);
    let rl = report_looks(date, rows);
    assert forall|k: (u32, u16)| #[trigger] w.dom().contains(k) implies r.dom().contains(k) && w[k]
        == r[k] by {
        let j = choose|j: int|
            0 <= j < cells.len() && cell_fits(cells[j]) && cell_key(#[trigger] cells[j]) == k;
        lemma_cells_placed(cells, date, rows, j);
    }
    assert forall|k: (u32, u16)| #[trigger] r.dom().contains(k) implies w.dom().contains(k) by {
        let row = k.0 as int;
        let col = k.1 as int;
        let j = if row == 0 {
            0
        } else if row == 1 {
            1
        } else if row == 3 {
            2 + col
        } else {
            9 + 7 * (row - 4) + col
        };
        assert(0 <= j < cells.len());
        lemma_cells_placed(cells, date, rows, j);
        assert(cell_place(j) == (row, col)) by {
            if row >= 4 {
                assert((j - 9) / 7 == row - 4 && (j - 9) % 7 == col);
            }
        }
        assert(cell_key(cells[j]) == k);
        assert(cell_fits(cells[j]));
    }
    assert(w =~= r);
    assert forall|k: (u32, u16)| #[trigger] wl.dom().contains(k) implies rl.dom().contains(k)
        && wl[k] == rl[k] by {
        let j = choose|j: int|
            0 <= j < cells.len() && cell_fits(cells[j]) && cell_key(#[trigger] cells[j]) == k;
        lemma_cells_placed(cells, date, rows, j);
        assert(w.dom().contains(k));
    }
    assert forall|k: (u32, u16)| #[trigger] rl.dom().contains(k) implies wl.dom().contains(k) by {
        assert(r.dom().contains(k));
        assert(w.dom().contains(k));
    }
    assert(wl =~= rl);
}

/// The widths of the report's seven columns, in characters.
pub open spec fn report_column_chars() -> Seq<u8> {
    seq![16u8, 25u8, 20u8, 20u8, 12u8, 25u8, 10u8]
}

/// The column widths of the exported worksheet, in pixels: each of the report's
/// seven columns at its width in characters, under the measures of a new
/// worksheet.
pub open spec fn report_column_widths() -> Map<u16, u32> {
    Map::new(
        |c: u16| c < 7,
        |c: u16| column_pixels(report_column_chars()[c as int], (7u32, 5u32, 1790u32)),
    )
}

/// Excel takes `NyxIP Scan` as the name of a worksheet.
proof fn lemma_report_sheet_name()
    ensures
        valid_sheet_name("NyxIP Scan"@),
{
    reveal_strlit("NyxIP Scan");
    let n = "NyxIP Scan"@;
    lemma_utf16_len_bound(n);
    assert(n =~= seq!['N', 'y', 'x', 'I', 'P', ' ', 'S', 'c', 'a', 'n']);
}

/// The workbook that exports `rows` at `date`: one worksheet, named
/// `NyxIP Scan`, that holds the report's texts, each cell in the format of its
/// style, with filter buttons over the headers and the results, and its columns
/// widened.
pub fn export_workbook(date: &str, rows: &Vec<ScanResult>) -> (book: Workbook)
    ensures
        workbook_sheets(book) == seq![report_texts(date@, rows@)],
        workbook_sheet_looks(book) == seq![report_looks(date@, rows@)],
        workbook_sheet_names(book) == seq!["NyxIP Scan"@],
        workbook_sheet_filters(book) == seq![report_filter(rows@.len())],
        workbook_sheet_widths(book) == seq![report_column_widths()],
{
    let cells = sheet_cells(date, rows);
    proof {
        lemma_report_written(cells@, date@, rows@);
        lemma_report_sheet_name();
    }
    let mut sheet = write_sheet(&cells);
    name_sheet(&mut sheet, "NyxIP Scan");
    let widths: Vec<u8> = vec![16, 25, 20, 20, 12, 25, 10];
    assert(widths@ =~= report_column_chars());
    let mut col: usize = 0;
    while col < widths.len()
        invariant
            col <= widths.len(),
            widths@ == report_column_chars(),
            sheet_width_measures(sheet) == (7u32, 5u32, 1790u32),
            sheet_column_widths(sheet) == Map::new(
                |c: u16| c < col,
                |c: u16| column_pixels(report_column_chars()[c as int], (7u32, 5u32, 1790u32)),
            ),
            sheet_texts(sheet) == report_texts(date@, rows@),
            sheet_looks(sheet) == report_looks(date@, rows@),
            sheet_name(sheet) == "NyxIP Scan"@,
            sheet_filter(sheet) is None,
        decreases widths.len() - col,
    {
        column_width(&mut sheet, col as u16, widths[col]);
        assert(sheet_column_widths(sheet) =~= Map::new(
            |c: u16| c < col + 1,
            |c: u16| column_pixels(report_column_chars()[c as int], (7u32, 5u32, 1790u32)),
        ));
        col = col + 1;
    }
    assert(sheet_column_widths(sheet) =~= report_column_widths());
    let n = rows.len();
    if n < ROW_LIMIT as usize - 3 {
        filter_range(&mut sheet, 3, 0, (n + 3) as u32, 6);
    }
    assert(sheet_filter(sheet) == report_filter(rows@.len()));
    let mut book = new_workbook();
    add_sheet(&mut book, sheet);
    assert(workbook_sheets(book) =~= seq![report_texts(date@, rows@)]);
    assert(workbook_sheet_looks(book) =~= seq![report_looks(date@, rows@)]);
    assert(workbook_sheet_names(book) =~= seq!["NyxIP Scan"@]);
    assert(workbook_sheet_filters(book) =~= seq![report_filter(rows@.len())]);
    assert(workbook_sheet_widths(book) =~= seq![report_column_widths()]);
    book
}

} // verus!
