//! What the screens show and where: texts, columns, colours and the areas
//! they take.

use vstd::prelude::*;

use ratatui::layout::{Constraint, Layout, Rect};

use crate::paths::{display_path, EntryPath};
use crate::scan::ScanProgressSnapshot;
#[allow(unused_imports)]
use crate::scan::Progress;
use crate::size::human_size;
use crate::state::App;
#[allow(unused_imports)]
use crate::state::{Item, State};
use crate::text::{append_decimal, shorten_end, shorten_middle};
use crate::tree::EntryKind;

verus! {

/// The space between the columns of the table.
pub const TABLE_COLUMN_SPACING: u16 = 1;

/// A part of the screen, in cells.
#[derive(Clone, Copy, Debug, PartialEq, Eq, Structural)]
pub struct Area {
    pub x: u16,
    pub y: u16,
    pub width: u16,
    pub height: u16,
}

/// How high one of several rows of an area is to be.
#[derive(Clone, Copy, Debug, PartialEq, Eq, Structural)]
pub enum RowHeight {
    Length(u16),
    Min(u16),
    Percentage(u16),
}

/// The smaller of two numbers.
pub open spec fn smaller(a: int, b: int) -> int {
    if a < b {
        a
    } else {
        b
    }
}

/// The lines of an area, as far as lines can be counted.
pub open spec fn line_count(area: Area) -> int {
    smaller(area.y + area.height, u16::MAX as int) - area.y
}

/// Whether rows are asked for in one of two ways: rows of fixed height above
/// and below one that takes the rest, or a share of the area above a row of
/// fixed height and one that takes the rest.
pub open spec fn one_takes_the_rest(heights: Seq<RowHeight>) -> bool {
    heights.len() == 3 && match (heights[0], heights[1], heights[2]) {
        (RowHeight::Length(_), RowHeight::Min(least), RowHeight::Length(_)) => least <= i16::MAX,
        (RowHeight::Percentage(_), RowHeight::Length(_), RowHeight::Min(least)) => least
            <= i16::MAX,
        _ => false,
    }
}

/// Whether rows are those of an area, from its top to its bottom, each as wide
/// as the area.
pub open spec fn fills(area: Area, rows: Seq<Area>) -> bool {
    &&& rows.len() == 3
    &&& forall|i: int|
        0 <= i < rows.len() ==> (#[trigger] rows[i]).x == area.x && rows[i].width == area.width
    &&& rows[0].y == area.y
    &&& rows[1].y == rows[0].y + rows[0].height
    &&& rows[2].y == rows[1].y + rows[1].height
    &&& rows[2].y + rows[2].height == area.y + line_count(area)
}

/// Whether rows have the heights that were asked for. Where there are not
/// lines enough, the row that takes the rest has its least height first, then
/// come rows of fixed height, then shares, which are rounded to whole lines.
/// How two rows of fixed height divide too few lines is left open.
pub open spec fn high_as_asked(lines: int, heights: Seq<RowHeight>, rows: Seq<Area>) -> bool {
    match (heights[0], heights[1], heights[2]) {
        (RowHeight::Length(above), RowHeight::Min(least), RowHeight::Length(below)) => {
            &&& rows[0].height <= above
            &&& rows[2].height <= below
            &&& above + least + below <= lines ==> rows[0].height == above && rows[2].height
                == below
            &&& above + least + below > lines ==> rows[1].height == smaller(least as int, lines)
        },
        (RowHeight::Percentage(share), RowHeight::Length(fixed), RowHeight::Min(least)) => {
            let last = smaller(least as int, lines);
            let middle = smaller(fixed as int, lines - last);
            let free = lines - last - middle;
            &&& rows[1].height == middle
            &&& rows[0].height == if share * lines <= 100 * free {
                (share * lines + 50) / 100
            } else {
                free
            }
        },
        _ => true,
    }
}

/// `Layout::vertical` and `Layout::split` cut an area into one row for each
/// height. A solver places the rows by constraints of different strengths:
/// that all lie in the area in their order is required, that they leave no gap
/// and do not overlap outweighs all heights, and of these a least height
/// outweighs a fixed one, a fixed one a share, and a share the growth into
/// what is left. The weights settle every height in requests of the given
/// kind, with one exception: two rows of fixed height that lack lines tie, the
/// solver walks through hash maps, and which of the two gets how much is left
/// unsaid. The crate takes a least height above `i16::MAX` for a negative one,
/// so such heights are left out.
#[verifier::external_body]
fn split_rows(area: Area, heights: &Vec<RowHeight>) -> (res: Vec<Area>)
    requires
        one_takes_the_rest(heights@),
    ensures
        fills(area, res@),
        high_as_asked(line_count(area), heights@, res@),
{
    let rect = Rect { x: area.x, y: area.y, width: area.width, height: area.height };
    let constraints = heights.iter().map(|height| match height {
        RowHeight::Length(n) => Constraint::Length(*n),
        RowHeight::Min(n) => Constraint::Min(*n),
        RowHeight::Percentage(n) => Constraint::Percentage(*n),
    });
    let rows = Layout::vertical(constraints).split(rect);
    rows.iter().map(|r| Area { x: r.x, y: r.y, width: r.width, height: r.height }).collect()
}

/// The parts of the browser's screen.
#[derive(Clone, Copy, Debug)]
pub struct ScreenAreas {
    pub header: Area,
    pub body: Area,
    pub footer: Area,
}

/// The heights of the browser's rows: three lines for the header and the
/// footer each, and at least five for the body between them.
pub fn screen_heights() -> (res: Vec<RowHeight>)
    ensures
        res@ == seq![RowHeight::Length(3), RowHeight::Min(5), RowHeight::Length(3)],
{
    let mut heights: Vec<RowHeight> = Vec::new();
    heights.push(RowHeight::Length(3));
    heights.push(RowHeight::Min(5));
    heights.push(RowHeight::Length(3));
    assert(heights@ =~= seq![RowHeight::Length(3), RowHeight::Min(5), RowHeight::Length(3)]);
    heights
}

/// The parts of the browser's screen, given its rows from the top.
pub fn screen_parts(rows: &Vec<Area>) -> (res: ScreenAreas)
    requires
        rows@.len() == 3,
    ensures
        res.header == rows@[0],
        res.body == rows@[1],
        res.footer == rows@[2],
{
    ScreenAreas { header: rows[0], body: rows[1], footer: rows[2] }
}

/// Divides the screen of the browser: the header stands at the top, the body
/// below it and the footer at the bottom, all as wide as the screen. Header and
/// footer have three lines each where the body has five beside them; where it
/// has not, it has its five lines first, as far as there are lines.
pub fn screen_areas(area: Area) -> (res: ScreenAreas)
    ensures
        res.header.x == area.x && res.header.width == area.width,
        res.body.x == area.x && res.body.width == area.width,
        res.footer.x == area.x && res.footer.width == area.width,
        res.header.y == area.y,
        res.body.y == res.header.y + res.header.height,
        res.footer.y == res.body.y + res.body.height,
        res.footer.y + res.footer.height == area.y + line_count(area),
        res.footer.y + res.footer.height <= area.y + area.height,
        res.header.height <= 3,
        res.footer.height <= 3,
        line_count(area) >= 11 ==> res.header.height == 3 && res.footer.height == 3,
        line_count(area) < 11 ==> res.body.height == smaller(5, line_count(area)),
{
    let heights = screen_heights();
    let rows = split_rows(area, &heights);
    screen_parts(&rows)
}

/// A number brought into a range.
pub open spec fn clamped(n: int, lo: int, hi: int) -> int {
    if n < lo {
        lo
    } else if n > hi {
        hi
    } else {
        n
    }
}

/// The difference of two numbers, or zero where it would be negative.
pub open spec fn minus(a: int, b: int) -> int {
    if a < b {
        0
    } else {
        a - b
    }
}

fn clamp(n: u16, lo: u16, hi: u16) -> (res: u16)
    ensures
        res == clamped(n as int, lo as int, hi as int),
{
    if n < lo {
        lo
    } else if n > hi {
        hi
    } else {
        n
    }
}

/// Where something of the given length begins, in the middle of a stretch.
pub open spec fn centered(start: u16, length: u16, inner: int) -> int {
    start + minus(length as int, inner) / 2
}

/// The width of the progress panel.
pub open spec fn panel_width(area: Area) -> int {
    clamped(minus(area.width as int, 8), 32, 96)
}

/// The panel that shows the progress of a scan, given the rows of the screen
/// above it and for it.
pub fn progress_panel(area: Area, top: Area, body: Area) -> (res: Area)
    requires
        centered(area.x, area.width, panel_width(area)) <= u16::MAX,
        top.y + top.height <= u16::MAX,
    ensures
        res.x == centered(area.x, area.width, panel_width(area)),
        res.y == top.y + top.height,
        res.width == panel_width(area),
        res.height == if body.height < area.height {
            body.height
        } else {
            area.height
        },
{
    let width = clamp(area.width.saturating_sub(8), 32, 96);
    Area {
        x: area.x + area.width.saturating_sub(width) / 2,
        y: top.y + top.height,
        width,
        height: if body.height < area.height {
            body.height
        } else {
            area.height
        },
    }
}

/// The heights of the rows on the screen of the first scan: about a third of
/// it above the panel, nine lines for the panel, and what is left.
pub fn progress_heights() -> (res: Vec<RowHeight>)
    ensures
        res@ == seq![RowHeight::Percentage(35), RowHeight::Length(9), RowHeight::Min(0)],
{
    let mut heights: Vec<RowHeight> = Vec::new();
    heights.push(RowHeight::Percentage(35));
    heights.push(RowHeight::Length(9));
    heights.push(RowHeight::Min(0));
    assert(heights@ =~= seq![
        RowHeight::Percentage(35),
        RowHeight::Length(9),
        RowHeight::Min(0),
    ]);
    heights
}

/// The first line of the progress panel: below about a third of the screen,
/// but with all of its own lines on it.
pub open spec fn panel_top(area: Area) -> int {
    let lines = line_count(area);
    if lines < 9 {
        area.y as int
    } else {
        area.y + smaller((35 * lines + 50) / 100, lines - 9)
    }
}

/// Divides the screen of the first scan and gives the panel that shows its
/// progress: nine lines, or all that there are. There is one unless it would
/// begin to the right of all that a screen can hold.
pub fn progress_area(area: Area) -> (res: Option<Area>)
    ensures
        match res {
            Some(panel) => {
                &&& panel.x == centered(area.x, area.width, panel_width(area))
                &&& panel.y == panel_top(area)
                &&& panel.width == panel_width(area)
                &&& panel.height == smaller(9, line_count(area))
                &&& area.y <= panel.y
                &&& panel.y + panel.height <= area.y + area.height
                &&& panel.height <= 9
            },
            None => centered(area.x, area.width, panel_width(area)) > u16::MAX,
        },
{
    let heights = progress_heights();
    let rows = split_rows(area, &heights);
    let (top, body) = (rows[0], rows[1]);
    let width = clamp(area.width.saturating_sub(8), 32, 96);
    let gap: u16 = area.width.saturating_sub(width) / 2;
    if area.x <= u16::MAX - gap {
        Some(progress_panel(area, top, body))
    } else {
        None
    }
}

/// An area in the middle of another one, and not larger.
pub fn centered_rect(width: u16, height: u16, area: Area) -> (res: Area)
    requires
        centered(area.x, area.width, smaller(width as int, area.width as int)) <= u16::MAX,
        centered(area.y, area.height, smaller(height as int, area.height as int)) <= u16::MAX,
    ensures
        res.width == smaller(width as int, area.width as int),
        res.height == smaller(height as int, area.height as int),
        res.x == centered(area.x, area.width, smaller(width as int, area.width as int)),
        res.y == centered(area.y, area.height, smaller(height as int, area.height as int)),
{
    let width: u16 = if width < area.width {
        width
    } else {
        area.width
    };
    let height: u16 = if height < area.height {
        height
    } else {
        area.height
    };
    Area {
        x: area.x + (area.width - width) / 2,
        y: area.y + (area.height - height) / 2,
        width,
        height,
    }
}

/// The widths of the columns for names and for paths: together all that the
/// other columns leave.
pub open spec fn text_widths(table_width: u16) -> (int, int) {
    let left = minus(table_width as int, 1 + 9 + 5 + TABLE_COLUMN_SPACING * 4 + 2);
    let name = if left <= 16 {
        left / 2
    } else {
        clamped(left / 3, 8, 28)
    };
    (name, left - name)
}

/// The widths of the columns for names and for paths.
pub fn table_text_widths(table_width: u16) -> (res: (u16, u16))
    ensures
        res.0 == text_widths(table_width).0,
        res.1 == text_widths(table_width).1,
{
    let fixed: u16 = 1 + 9 + 5 + TABLE_COLUMN_SPACING * 4 + 2;
    let left = table_width.saturating_sub(fixed);
    let name: u16 = if left <= 16 {
        left / 2
    } else {
        clamp(left / 3, 8, 28)
    };
    (name, left - name)
}

/// The columns of a table fill it and do not reach beyond it, where it is wide
/// enough for those of fixed width; the column for paths is at least as wide
/// as that for names.
pub proof fn lemma_text_widths(table_width: u16)
    ensures
        ({
            let (name, path) = text_widths(table_width);
            &&& 0 <= name <= path
            &&& table_width >= 21 ==> 1 + 9 + 5 + TABLE_COLUMN_SPACING * 4 + 2 + name + path
                == table_width
        }),
{
}

/// An area in the middle of another one lies within it.
pub proof fn lemma_centered(start: u16, length: u16, inner: int)
    requires
        0 <= inner,
    ensures
        start <= centered(start, length, inner),
        inner <= length ==> centered(start, length, inner) + inner <= start + length,
        inner <= length ==> {
            let before = centered(start, length, inner) - start;
            let after = start + length - (centered(start, length, inner) + inner);
            before <= after <= before + 1
        },
{
}

/// The short word for a kind.
pub open spec fn label_of(kind: EntryKind) -> Seq<char> {
    match kind {
        EntryKind::Directory => "dir"@,
        EntryKind::File => "file"@,
        EntryKind::Symlink => "link"@,
        EntryKind::Other => "other"@,
        EntryKind::Error => "error"@,
    }
}

/// The short word for a kind.
pub fn kind_label(kind: EntryKind) -> (res: &'static str)
    ensures
        res@ == label_of(kind),
{
    match kind {
        EntryKind::Directory => "dir",
        EntryKind::File => "file",
        EntryKind::Symlink => "link",
        EntryKind::Other => "other",
        EntryKind::Error => "error",
    }
}

/// A colour of text.
#[derive(Clone, Copy, Debug, PartialEq, Eq, Structural)]
pub enum Tint {
    Default,
    Blue,
    Red,
    Magenta,
    Yellow,
    Gray,
}

/// The colour of an entry in the table.
pub open spec fn tint_of(kind: EntryKind) -> Tint {
    match kind {
        EntryKind::Directory => Tint::Blue,
        EntryKind::Error => Tint::Red,
        EntryKind::Symlink => Tint::Magenta,
        _ => Tint::Default,
    }
}

/// A row of the table.
#[derive(Debug)]
pub struct TableRow {
    pub mark: &'static str,
    pub size: String,
    pub kind: &'static str,
    pub name: String,
    pub path: String,
    pub tint: Tint,
}

/// The contents of a row of the table.
pub struct RowModel {
    pub mark: Seq<char>,
    pub size: Seq<char>,
    pub kind: Seq<char>,
    pub name: Seq<char>,
    pub path: Seq<char>,
    pub tint: Tint,
}

impl View for TableRow {
    type V = RowModel;

    open spec fn view(&self) -> RowModel {
        RowModel {
            mark: self.mark@,
            size: self.size@,
            kind: self.kind@,
            name: self.name@,
            path: self.path@,
            tint: self.tint,
        }
    }
}

/// The contents of the rows of a table.
pub open spec fn row_models(v: Seq<TableRow>) -> Seq<RowModel> {
    v.map_values(|r: TableRow| r@)
}

/// The row of an entry of the list, in a table of the given width.
pub open spec fn table_row(s: State, item: Item, width: u16) -> RowModel {
    RowModel {
        mark: if s.marks.dom().contains(crate::paths::parts(item.path)) {
            "*"@
        } else {
            ""@
        },
        size: crate::size::human(item.size),
        kind: label_of(item.kind),
        name: crate::text::shortened_end(item.name, text_widths(width).0 as nat),
        path: crate::text::shortened_middle(
            crate::paths::displayed_path(s.current().path, item.path),
            text_widths(width).1 as nat,
        ),
        tint: tint_of(item.kind),
    }
}

/// The rows of the table.
pub open spec fn table_rows(s: State, width: u16) -> Seq<RowModel> {
    s.visible().map_values(|item: Item| table_row(s, item, width))
}

/// The row of the table that the cursor is on.
pub open spec fn highlighted(s: State) -> Option<int> {
    if s.visible().len() == 0 {
        None
    } else {
        Some(smaller(s.selected as int, s.visible().len() - 1))
    }
}

/// The path of the directory, as the header shows it.
pub open spec fn header_path(s: State, width: u16) -> Seq<char> {
    crate::text::shortened_middle(
        crate::paths::shown(s.current().path),
        minus(width as int, 7) as nat,
    )
}

/// The second line of the header.
pub open spec fn header_stats(s: State) -> Seq<char> {
    let node = s.current();
    let counts = crate::size::human(node.size) + " total  "@ + crate::text::decimal(
        node.file_count as nat,
    ) + " files  "@ + crate::text::decimal(crate::listing::without_one(node.dir_count) as nat)
        + " dirs"@;
    let order = counts + "  sort: "@ + s.sort.word() + " "@ + (if s.reversed {
        "reversed"@
    } else {
        "normal"@
    }) + "  filter: "@ + (if s.filter.len() == 0 {
        "<none>"@
    } else {
        s.filter
    }) + "  selected: "@ + crate::text::decimal(s.marks.dom().len());
    match s.search_results {
        Some(results) => order + "  search: "@ + results.query + " ("@ + crate::text::decimal(
            results.entries.len(),
        ) + "/"@ + crate::text::decimal(results.total_matched as nat) + ")"@,
        None => order,
    }
}

/// The counts of a scan's progress.
pub open spec fn progress_counts(p: Progress) -> Seq<char> {
    crate::text::decimal(p.scanned as nat) + " scanned  "@ + crate::text::decimal(p.files as nat)
        + " files  "@ + crate::text::decimal(p.dirs as nat) + " dirs  "@ + crate::text::decimal(
        p.errors as nat,
    ) + " errors"@
}

/// The first line of the footer: what is asked, typed or under way, or else
/// which keys there are. The progress of a new scan is given where one runs.
pub open spec fn footer_prompt(s: State, progress: Option<Progress>) -> Seq<char> {
    if let Some(list) = s.pending_delete {
        if list.len() == 1 {
            "Move "@ + crate::paths::shown(list[0].path) + " to trash? y confirm  n/esc cancel"@
        } else {
            "Move "@ + crate::text::decimal(list.len())
                + " selected items to trash? y confirm  n/esc cancel"@
        }
    } else if s.searching {
        "?"@ + s.search_query
    } else if s.filtering {
        "/"@ + s.filter
    } else if s.active_refresh {
        match progress {
            Some(p) => "Refreshing... "@ + progress_counts(p) + "  esc cancel"@,
            None => "Refreshing... esc cancel"@,
        }
    } else if s.active_search {
        "Searching descendants..."@
    } else {
        "space mark  a mark visible  u unmark all  d trash  o reveal  p path  R refresh  ? search  / filter  c clear  q quit"@
    }
}

/// The colour of the footer.
pub open spec fn footer_tint(s: State) -> Tint {
    if s.pending_delete is Some {
        Tint::Red
    } else if s.active_delete || s.active_refresh || s.searching || s.active_search
        || s.filtering {
        Tint::Yellow
    } else {
        Tint::Gray
    }
}

/// The path that is shown in full: that of the entry under the cursor, or
/// else of the directory.
pub open spec fn full_path(s: State) -> Seq<char> {
    match s.selected_item() {
        Some(item) => crate::paths::shown(item.path),
        None => crate::paths::shown(s.current().path),
    }
}

/// The width of the panel for a full path.
pub open spec fn popup_width(area: Area) -> int {
    clamped(minus(area.width as int, 8), 24, 100)
}

/// The height of the panel for a full path of the given length. Lengths are
/// taken without what does not fit in sixteen bits.
pub open spec fn popup_height(area: Area, length: nat) -> int {
    let wanted = smaller(
        (length % 0x1_0000) as int / popup_width(area) + 4,
        minus(area.height as int, 2),
    );
    if wanted < 5 {
        5
    } else {
        wanted
    }
}

/// The panel for a full path of the given length.
pub fn full_path_popup(area: Area, length: usize) -> (res: Area)
    requires
        centered(area.x, area.width, smaller(popup_width(area), area.width as int)) <= u16::MAX,
        centered(
            area.y,
            area.height,
            smaller(popup_height(area, length as nat), area.height as int),
        ) <= u16::MAX,
    ensures
        res.width == smaller(popup_width(area), area.width as int),
        res.height == smaller(popup_height(area, length as nat), area.height as int),
        res.x == centered(area.x, area.width, smaller(popup_width(area), area.width as int)),
        res.y == centered(
            area.y,
            area.height,
            smaller(popup_height(area, length as nat), area.height as int),
        ),
{
    let width = clamp(area.width.saturating_sub(8), 24, 100);
    let cells: u16 = (length % 0x1_0000) as u16;
    proof {
        vstd::arithmetic::div_mod::lemma_div_is_ordered_by_denominator(
            cells as int,
            24,
            width as int,
        );
    }
    let lines: u16 = cells / width + 4;
    let room = area.height.saturating_sub(2);
    let wanted: u16 = if lines < room {
        lines
    } else {
        room
    };
    let height: u16 = if wanted < 5 {
        5
    } else {
        wanted
    };
    centered_rect(width, height, area)
}

fn append_progress(out: &mut String, progress: &ScanProgressSnapshot)
    ensures
        final(out)@ == old(out)@ + progress_counts(progress@),
{
    append_decimal(out, progress.scanned);
    out.append(" scanned  ");
    append_decimal(out, progress.files);
    out.append(" files  ");
    append_decimal(out, progress.dirs);
    out.append(" dirs  ");
    append_decimal(out, progress.errors);
    out.append(" errors");
    assert(out@ =~= old(out)@ + progress_counts(progress@));
}

impl App {
    /// The path of the directory, as the header shows it.
    pub fn header_path(&self, width: u16) -> (res: String)
        ensures
            res@ == header_path(self@, width),
    {
        shorten_middle(
            self.current_node().path.display().as_str(),
            width.saturating_sub(7) as usize,
        )
    }

    /// The second line of the header.
    pub fn header_stats(&self) -> (res: String)
        ensures
            res@ == header_stats(self@),
    {
        let node = self.current_node();
        let mut out = human_size(node.size);
        out.append(" total  ");
        append_decimal(&mut out, node.file_count);
        out.append(" files  ");
        append_decimal(&mut out, node.dir_count.saturating_sub(1));
        out.append(" dirs");
        out.append("  sort: ");
        out.append(self.sort.label());
        out.append(" ");
        if self.reversed {
            out.append("reversed");
        } else {
            out.append("normal");
        }
        out.append("  filter: ");
        if self.filter.as_str().is_empty() {
            out.append("<none>");
        } else {
            out.append(self.filter.as_str());
        }
        out.append("  selected: ");
        assert(self@.marks.dom() =~= self.selected_targets@.dom());
        append_decimal(&mut out, self.selected_targets.len() as u64);
        if let Some(results) = &self.search_results {
            assert(results@.entries.len() == results.entries@.len());
            out.append("  search: ");
            out.append(results.query.as_str());
            out.append(" (");
            append_decimal(&mut out, results.entries.len() as u64);
            out.append("/");
            append_decimal(&mut out, results.total_matched as u64);
            out.append(")");
        }
        out
    }

    /// The rows of the table, in a table of the given width.
    pub fn table_rows(&self, width: u16) -> (res: Vec<TableRow>)
        ensures
            row_models(res@) == table_rows(self@, width),
    {
        let list = self.visible_items();
        let base: &EntryPath = &self.current_node().path;
        let (name_width, path_width) = table_text_widths(width);
        let ghost all = crate::state::items(list@);
        let mut out: Vec<TableRow> = Vec::with_capacity(list.len());
        let mut i: usize = 0;
        while i < list.len()
            invariant
                all == crate::state::items(list@),
                base@ == self@.current().path,
                name_width == text_widths(width).0,
                path_width == text_widths(width).1,
                i <= list@.len(),
                out@.len() == i,
                forall|k: int|
                    0 <= k < i ==> (#[trigger] out@[k])@ == table_row(self@, all[k], width),
            decreases list@.len() - i,
        {
            let item = &list[i];
            assert(all[i as int] == item@);
            assert(self@.marks.dom() =~= self.selected_targets@.dom());
            let mark = if self.selected_targets.contains_key(&item.path) {
                "*"
            } else {
                ""
            };
            let tint = match item.kind {
                EntryKind::Directory => Tint::Blue,
                EntryKind::Error => Tint::Red,
                EntryKind::Symlink => Tint::Magenta,
                _ => Tint::Default,
            };
            out.push(
                TableRow {
                    mark,
                    size: human_size(item.size),
                    kind: kind_label(item.kind),
                    name: shorten_end(item.name.as_str(), name_width as usize),
                    path: shorten_middle(
                        display_path(base, &item.path).as_str(),
                        path_width as usize,
                    ),
                    tint,
                },
            );
            i = i + 1;
        }
        assert(row_models(out@) =~= table_rows(self@, width));
        out
    }

    /// The row of the table that the cursor is on.
    pub fn highlighted_row(&self) -> (res: Option<usize>)
        ensures
            match res {
                Some(row) => highlighted(self@) == Some(row as int),
                None => highlighted(self@) is None,
            },
    {
        let count = self.visible_count();
        if count == 0 {
            None
        } else if self.selected < count - 1 {
            Some(self.selected)
        } else {
            Some(count - 1)
        }
    }

    /// The first line of the footer.
    pub fn footer_prompt(&self, progress: Option<ScanProgressSnapshot>) -> (res: String)
        ensures
            res@ == footer_prompt(
                self@,
                match progress {
                    Some(p) => Some(p@),
                    None => None,
                },
            ),
    {
        if let Some(list) = &self.pending_delete {
            assert(crate::removal::targets(list@).len() == list@.len());
            let mut out = "Move ".to_owned();
            if list.len() == 1 {
                assert(crate::removal::targets(list@)[0] == list@[0]@);
                out.append(list[0].path.display().as_str());
                out.append(" to trash? y confirm  n/esc cancel");
            } else {
                append_decimal(&mut out, list.len() as u64);
                out.append(" selected items to trash? y confirm  n/esc cancel");
            }
            out
        } else if self.searching {
            let mut out = "?".to_owned();
            out.append(self.search_query.as_str());
            out
        } else if self.filtering {
            let mut out = "/".to_owned();
            out.append(self.filter.as_str());
            out
        } else if self.active_refresh {
            match &progress {
                Some(p) => {
                    let mut out = "Refreshing... ".to_owned();
                    append_progress(&mut out, p);
                    out.append("  esc cancel");
                    out
                },
                None => "Refreshing... esc cancel".to_owned(),
            }
        } else if self.active_search {
            "Searching descendants...".to_owned()
        } else {
            "space mark  a mark visible  u unmark all  d trash  o reveal  p path  R refresh  ? search  / filter  c clear  q quit".to_owned()
        }
    }

    /// The colour of the footer.
    pub fn footer_tint(&self) -> (res: Tint)
        ensures
            res == footer_tint(self@),
    {
        if self.pending_delete.is_some() {
            Tint::Red
        } else if self.active_delete || self.active_refresh || self.searching
            || self.active_search || self.filtering {
            Tint::Yellow
        } else {
            Tint::Gray
        }
    }

    /// The path that is shown in full.
    pub fn full_path(&self) -> (res: String)
        ensures
            res@ == full_path(self@),
    {
        match self.selected_item() {
            Some(item) => item.path.display(),
            None => self.current_node().path.display(),
        }
    }
}

/// The lines of the progress panel, and the colour of the last one.
#[derive(Debug)]
pub struct ProgressText {
    pub root: String,
    pub counts: String,
    pub current: String,
    pub status: &'static str,
    pub status_tint: Tint,
}

/// The text about the state of a scan.
pub open spec fn scan_status(cancel_requested: bool, canceled: bool) -> Seq<char> {
    if canceled {
        "Scan canceled  r retry  q quit"@
    } else if cancel_requested {
        "Canceling..."@
    } else {
        "Esc cancel  q quit"@
    }
}

/// The texts of the progress panel, which is `width` cells wide. Where nothing
/// was visited yet, the root stands for the entry that is.
pub fn progress_text(
    root_path: &EntryPath,
    progress: &ScanProgressSnapshot,
    cancel_requested: bool,
    canceled: bool,
    width: u16,
) -> (res: ProgressText)
    ensures
        ({
            let room = minus(width as int, 4) as nat;
            let current = if progress@.current_path.len() == 0 {
                root_path@
            } else {
                progress@.current_path
            };
            &&& res.root@ == crate::text::shortened_middle(crate::paths::shown(root_path@), room)
            &&& res.counts@ == progress_counts(progress@)
            &&& res.current@ == crate::text::shortened_middle(crate::paths::shown(current), room)
            &&& res.status@ == scan_status(cancel_requested, canceled)
            &&& res.status_tint == if canceled || cancel_requested {
                Tint::Yellow
            } else {
                Tint::Gray
            }
        }),
{
    let room = width.saturating_sub(4) as usize;
    let current = if progress.current_path.as_bytes().len() == 0 {
        root_path.display()
    } else {
        progress.current_path.display()
    };
    let mut counts = String::new();
    append_progress(&mut counts, progress);
    assert(counts@ =~= progress_counts(progress@));
    ProgressText {
        root: shorten_middle(root_path.display().as_str(), room),
        counts,
        current: shorten_middle(current.as_str(), room),
        status: if canceled {
            "Scan canceled  r retry  q quit"
        } else if cancel_requested {
            "Canceling..."
        } else {
            "Esc cancel  q quit"
        },
        status_tint: if canceled || cancel_requested {
            Tint::Yellow
        } else {
            Tint::Gray
        },
    }
}

} // verus!
