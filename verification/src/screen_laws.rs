//! What the screens show of the state, and where.

use vstd::prelude::*;

#[allow(unused_imports)]
use crate::children::SortKey;
#[allow(unused_imports)]
use crate::scan::Progress;
#[allow(unused_imports)]
use crate::screen::{Area, RowModel, Tint};
#[allow(unused_imports)]
use crate::state::{Item, State};
#[allow(unused_imports)]
use crate::tree::EntryKind;

verus! {

/// The table has one row for each entry of the list, in its order: with the
/// entry's size, the word and the colour for its kind, its name and its path as
/// far as the columns hold them, and a star exactly where its path is marked.
pub proof fn lemma_table(s: State, width: u16, i: int)
    requires
        0 <= i < s.visible().len(),
    ensures
        crate::screen::table_rows(s, width).len() == s.visible().len(),
        ({
            let row = crate::screen::table_rows(s, width)[i];
            let item = s.visible()[i];
            let (name, path) = crate::screen::text_widths(width);
            &&& row.size == crate::size::human(item.size)
            &&& s.marks.dom().contains(crate::paths::parts(item.path)) ==> row.mark == "*"@
            &&& !s.marks.dom().contains(crate::paths::parts(item.path)) ==> row.mark == ""@
            &&& item.kind == EntryKind::Directory ==> row.kind == "dir"@ && row.tint == Tint::Blue
            &&& item.kind == EntryKind::File ==> row.kind == "file"@ && row.tint == Tint::Default
            &&& item.kind == EntryKind::Symlink ==> row.kind == "link"@ && row.tint
                == Tint::Magenta
            &&& item.kind == EntryKind::Other ==> row.kind == "other"@ && row.tint == Tint::Default
            &&& item.kind == EntryKind::Error ==> row.kind == "error"@ && row.tint == Tint::Red
            &&& row.name.len() <= name && (3 < name && item.name.len() <= name ==> row.name
                == item.name)
            &&& row.path.len() <= path && (3 < path && crate::paths::displayed_path(
                s.current().path,
                item.path,
            ).len() <= path ==> row.path == crate::paths::displayed_path(
                s.current().path,
                item.path,
            ))
        }),
{
    let item = s.visible()[i];
    let (name, path) = crate::screen::text_widths(width);
    let shown = crate::paths::displayed_path(s.current().path, item.path);
    if 3 < name {
        crate::text::lemma_shortened(item.name, name as nat);
    } else {
        crate::text_laws::lemma_shortened_to_dots(item.name, name as nat);
    }
    if 3 < path {
        crate::text::lemma_shortened(shown, path as nat);
    } else {
        crate::text_laws::lemma_shortened_to_dots(shown, path as nat);
    }
    if item.name.len() > name && 3 < name {
        assert(crate::text::shortened_end(item.name, name as nat).len() == name);
    }
}

/// The columns for names and paths have all cells that the others leave: a mark,
/// nine for the size, five for the kind, four between the columns and two.
pub proof fn lemma_columns(width: u16)
    ensures
        ({
            let (name, path) = crate::screen::text_widths(width);
            let left = if width < 21 {
                0
            } else {
                width - 21
            };
            &&& name + path == left
            &&& 0 <= name <= path <= name + left
            &&& name <= 28
            &&& left > 16 ==> 8 <= name && (24 <= left <= 84 ==> 3 * name <= left < 3 * name + 3)
            &&& left > 84 ==> name == 28
            &&& left <= 16 ==> name <= path <= name + 1
        }),
{
}

/// The row with the cursor is that of the entry under it, and there is one where
/// there is an entry.
pub proof fn lemma_highlighted(s: State)
    ensures
        s.visible().len() == 0 <==> crate::screen::highlighted(s) is None,
        s.selected < s.visible().len() ==> crate::screen::highlighted(s) == Some(s.selected as int),
        s.visible().len() > 0 && s.selected >= s.visible().len() ==> crate::screen::highlighted(s)
            == Some(s.visible().len() - 1),
{
}

/// The header begins with the totals of the directory that is shown: its size,
/// its files, and the directories in it without itself.
pub proof fn lemma_header(s: State)
    ensures
        ({
            let node = s.current();
            let below = if node.dir_count == 0 {
                0
            } else {
                node.dir_count - 1
            };
            (crate::size::human(node.size) + " total  "@ + crate::text::decimal(
                node.file_count as nat,
            ) + " files  "@ + crate::text::decimal(below as nat) + " dirs"@).is_prefix_of(
                crate::screen::header_stats(s),
            )
        }),
        crate::text::has_infix(
            crate::screen::header_stats(s),
            "  selected: "@ + crate::text::decimal(s.marks.dom().len()),
        ),
        s.search_results matches Some(results) ==> ("  search: "@ + results.query + " ("@
            + crate::text::decimal(results.entries.len()) + "/"@ + crate::text::decimal(
            results.total_matched as nat,
        ) + ")"@).is_suffix_of(crate::screen::header_stats(s)),
{
    let node = s.current();
    let below = if node.dir_count == 0 {
        0
    } else {
        node.dir_count - 1
    };
    let all = crate::screen::header_stats(s);
    let counts = crate::size::human(node.size) + " total  "@ + crate::text::decimal(
        node.file_count as nat,
    ) + " files  "@ + crate::text::decimal(below as nat) + " dirs"@;
    assert(counts =~= all.subrange(0, counts.len() as int));
    let marked = "  selected: "@ + crate::text::decimal(s.marks.dom().len());
    let before = counts + "  sort: "@ + s.sort.word() + " "@ + (if s.reversed {
        "reversed"@
    } else {
        "normal"@
    }) + "  filter: "@ + (if s.filter.len() == 0 {
        "<none>"@
    } else {
        s.filter
    });
    let i = before.len() as int;
    assert(all.subrange(i, i + marked.len()) =~= marked);
    if let Some(results) = s.search_results {
        let found = "  search: "@ + results.query + " ("@ + crate::text::decimal(
            results.entries.len(),
        ) + "/"@ + crate::text::decimal(results.total_matched as nat) + ")"@;
        assert(found =~= all.subrange(all.len() - found.len(), all.len() as int));
    }
}

/// How the header tells the order of the list and the filter.
pub open spec fn order_told(s: State) -> Seq<char> {
    "  sort: "@ + s.sort.word() + " "@ + (if s.reversed {
        "reversed"@
    } else {
        "normal"@
    }) + "  filter: "@ + (if s.filter.len() == 0 {
        "<none>"@
    } else {
        s.filter
    })
}

/// The header tells the order of the list and the filter behind the totals.
pub proof fn lemma_header_order(s: State)
    ensures
        crate::text::has_infix(crate::screen::header_stats(s), order_told(s)),
        s.sort == SortKey::Size ==> s.sort.word() == "size"@,
        s.sort == SortKey::Name ==> s.sort.word() == "name"@,
        s.sort == SortKey::Kind ==> s.sort.word() == "kind"@,
{
    let node = s.current();
    let all = crate::screen::header_stats(s);
    let order = order_told(s);
    let counts = crate::size::human(node.size) + " total  "@ + crate::text::decimal(
        node.file_count as nat,
    ) + " files  "@ + crate::text::decimal(crate::listing::without_one(node.dir_count) as nat)
        + " dirs"@;
    let k = counts.len() as int;
    let rest = all.skip(k + order.len());
    assert(all =~= counts + order + rest);
    crate::text_laws::lemma_infix(counts, order, rest, all);
}

/// The footer says what matters most: a question about a deletion before what is
/// typed, this before a new scan, and this before a search. The question names
/// the path of a single entry and else how many there are; what is typed is
/// shown as it is.
pub proof fn lemma_footer(s: State, progress: Option<Progress>)
    ensures
        ({
            let text = crate::screen::footer_prompt(s, progress);
            &&& s.pending_delete matches Some(list) ==> (list.len() == 1 ==> text == "Move "@
                + crate::paths::shown(list[0].path) + " to trash? y confirm  n/esc cancel"@) && (
            list.len() != 1 ==> text == "Move "@ + crate::text::decimal(list.len())
                + " selected items to trash? y confirm  n/esc cancel"@)
            &&& s.pending_delete is None && s.searching ==> text == "?"@ + s.search_query
            &&& s.pending_delete is None && !s.searching && s.filtering ==> text == "/"@ + s.filter
            &&& s.pending_delete is None && !s.searching && !s.filtering && s.active_refresh ==> (
            progress matches Some(p) ==> crate::text::has_infix(
                text,
                crate::screen::progress_counts(p),
            ))
            &&& s.pending_delete is None && !s.searching && !s.filtering && !s.active_refresh
                && s.active_search ==> text == "Searching descendants..."@
        }),
        s.pending_delete is Some <==> crate::screen::footer_tint(s) == Tint::Red,
        s.pending_delete is None && !s.active_delete && !s.active_refresh && !s.searching
            && !s.active_search && !s.filtering <==> crate::screen::footer_tint(s) == Tint::Gray,
{
    if let Some(p) = progress {
        let counts = crate::screen::progress_counts(p);
        let text = "Refreshing... "@ + counts + "  esc cancel"@;
        let i = "Refreshing... "@.len() as int;
        assert(text.subrange(i, i + counts.len()) =~= counts);
    }
}

/// The counts of a scan are told in the order of all entries, files, directories
/// and errors.
pub proof fn lemma_progress_counts(p: Progress)
    ensures
        crate::screen::progress_counts(p) == crate::text::decimal(p.scanned as nat)
            + " scanned  "@ + crate::text::decimal(p.files as nat) + " files  "@
            + crate::text::decimal(p.dirs as nat) + " dirs  "@ + crate::text::decimal(
            p.errors as nat,
        ) + " errors"@,
{
}

/// The full path that is shown is that of the entry under the cursor, or of the
/// directory where there is none; the panel for it lies within the screen.
pub proof fn lemma_full_path(s: State, area: Area, length: nat)
    ensures
        s.selected < s.visible().len() ==> crate::screen::full_path(s) == crate::paths::shown(
            s.visible()[s.selected as int].path,
        ),
        s.selected >= s.visible().len() ==> crate::screen::full_path(s) == crate::paths::shown(
            s.current().path,
        ),
        24 <= crate::screen::popup_width(area) <= 100,
        area.width >= 32 ==> crate::screen::popup_width(area) <= area.width - 8,
        5 <= crate::screen::popup_height(area, length),
        area.height >= 7 ==> crate::screen::popup_height(area, length) <= area.height - 2,
        length < 0x1_0000 && crate::screen::popup_height(area, length) < area.height - 2
            ==> crate::screen::popup_height(area, length) * crate::screen::popup_width(area)
            >= length,
{
    let w = crate::screen::popup_width(area);
    let h = crate::screen::popup_height(area, length);
    if length < 0x1_0000 && h < area.height - 2 {
        let n = length as int;
        vstd::arithmetic::div_mod::lemma_fundamental_div_mod(n, w);
        assert(n % w < w);
        assert(h >= n / w + 4);
        assert(h * w >= (n / w + 4) * w) by (nonlinear_arith)
            requires
                h >= n / w + 4,
                w > 0,
        ;
        assert((n / w + 4) * w == w * (n / w) + 4 * w) by (nonlinear_arith);
    }
}

/// The path in the header is that of the directory that is shown, as far as it
/// fits beside seven cells.
pub proof fn lemma_header_path(s: State, width: u16)
    ensures
        ({
            let path = crate::paths::shown(s.current().path);
            let shown = crate::screen::header_path(s, width);
            &&& width >= 7 ==> shown.len() <= width - 7
            &&& width > 10 && path.len() <= width - 7 ==> shown == path
        }),
{
    let path = crate::paths::shown(s.current().path);
    let room = crate::screen::minus(width as int, 7) as nat;
    if room > 3 {
        crate::text::lemma_shortened(path, room);
    } else {
        crate::text_laws::lemma_shortened_to_dots(path, room);
    }
}

/// What is said of a scan: that it was canceled, that it is about to stop, or how
/// to stop it.
pub proof fn lemma_scan_status(cancel_requested: bool, canceled: bool)
    ensures
        canceled ==> crate::screen::scan_status(cancel_requested, canceled)
            == "Scan canceled  r retry  q quit"@,
        !canceled && cancel_requested ==> crate::screen::scan_status(cancel_requested, canceled)
            == "Canceling..."@,
        !canceled && !cancel_requested ==> crate::screen::scan_status(cancel_requested, canceled)
            == "Esc cancel  q quit"@,
{
}

/// The progress panel is 32 to 96 cells wide, eight less than the screen where
/// that is in between, and begins within half a line of 35 parts in a hundred of
/// the screen, or so that it ends with the screen.
pub proof fn lemma_progress_panel(area: Area)
    ensures
        32 <= crate::screen::panel_width(area) <= 96,
        40 <= area.width <= 104 ==> crate::screen::panel_width(area) == area.width - 8,
        area.width > 104 ==> crate::screen::panel_width(area) == 96,
        ({
            let lines = if area.y + area.height < u16::MAX {
                area.height as int
            } else {
                u16::MAX - area.y
            };
            let above = crate::screen::panel_top(area) - area.y;
            &&& 0 <= above
            &&& lines >= 9 ==> above + 9 <= lines
            &&& lines < 9 ==> above == 0
            &&& lines >= 9 && above + 9 < lines ==> 100 * above <= 35 * lines + 50 && 35 * lines
                < 100 * above + 50
        }),
{
}

/// Of a name that is too long for its column the start is shown, and of a path
/// its start and its end, with dots for the rest.
pub proof fn lemma_table_shortens(s: State, width: u16, i: int)
    requires
        0 <= i < s.visible().len(),
    ensures
        ({
            let row = crate::screen::table_rows(s, width)[i];
            let name = s.visible()[i].name;
            let path = crate::paths::displayed_path(s.current().path, s.visible()[i].path);
            let (n, p) = crate::screen::text_widths(width);
            &&& 3 < n < name.len() ==> row.name.len() == n && row.name.take(n - 3) == name.take(
                n - 3,
            ) && row.name.skip(n - 3) == crate::text::repeated('.', 3)
            &&& 3 < p < path.len() ==> {
                let left = (p - 3) / 2;
                &&& row.path.len() == p
                &&& row.path.take(left) == path.take(left)
                &&& row.path.subrange(left, left + 3) == crate::text::repeated('.', 3)
                &&& row.path.skip(left + 3) == path.skip(path.len() - (p - 3 - left))
            }
        }),
{
    let name = s.visible()[i].name;
    let path = crate::paths::displayed_path(s.current().path, s.visible()[i].path);
    let (n, p) = crate::screen::text_widths(width);
    if 3 < n {
        crate::text::lemma_shortened(name, n as nat);
    }
    if 3 < p {
        crate::text::lemma_shortened(path, p as nat);
    }
}

/// Of a path that is too long for the header its start and its end are shown.
pub proof fn lemma_header_shortens(s: State, width: u16)
    requires
        width > 10,
    ensures
        ({
            let path = crate::paths::shown(s.current().path);
            let shown = crate::screen::header_path(s, width);
            let p = width - 7;
            let left = (p - 3) / 2;
            p < path.len() ==> shown.len() == p && shown.take(left) == path.take(left)
                && shown.skip(left + 3) == path.skip(path.len() - (p - 3 - left))
        }),
{
    crate::text::lemma_shortened(crate::paths::shown(s.current().path), (width - 7) as nat);
}

} // verus!
