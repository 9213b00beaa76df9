use dux::paths::{display_path, EntryPath};
use dux::removal::DeleteTarget;
use dux::scan::{
    scan_observed, EntryKind, EntryMetadata, EntryNode, FileType, Observation, ObservedEntry,
    ScanControl, SizeMode,
};
use dux::screen::{
    centered_rect, full_path_popup, kind_label, progress_area, progress_panel, progress_text,
    screen_areas, table_text_widths, Area, Tint, TABLE_COLUMN_SPACING,
};
use dux::state::{App, SearchEntry, SearchView};
use dux::text::{shorten_end, shorten_middle};

fn entry(path: &str, file_type: FileType, len: u64) -> ObservedEntry {
    let metadata = EntryMetadata { file_type, len, blocks: None };
    ObservedEntry {
        path: EntryPath::from_text(path),
        observation: Observation::Entry(metadata),
    }
}

fn directory(path: &str, entries: Vec<ObservedEntry>) -> ObservedEntry {
    let metadata = EntryMetadata { file_type: FileType::Directory, len: 0, blocks: None };
    ObservedEntry {
        path: EntryPath::from_text(path),
        observation: Observation::Directory(metadata, 0, entries),
    }
}

fn scan(entry: ObservedEntry) -> EntryNode {
    scan_observed(&entry, SizeMode::Logical).unwrap().root.unwrap()
}

fn sample() -> App {
    App::new(scan(directory(
        "/some/dir",
        vec![
            directory("/some/dir/sub", vec![entry("/some/dir/sub/x", FileType::File, 2048)]),
            entry("/some/dir/link", FileType::Symlink, 5),
            entry("/some/dir/a name that is rather long.txt", FileType::File, 3),
        ],
    )))
}

fn area(x: u16, y: u16, width: u16, height: u16) -> Area {
    Area { x, y, width, height }
}

#[test]
fn table_paths_are_relative_and_middle_truncated() {
    let base = EntryPath::from_text("/Users/tommy");
    let path =
        EntryPath::from_text("/Users/tommy/projects/example/node_modules/pkg/file.txt");

    assert_eq!(display_path(&base, &path), "projects/example/node_modules/pkg/file.txt");
    assert_eq!(shorten_middle("projects/example/node_modules", 15), "projec...odules");
}

#[test]
fn table_widths_fit_available_space() {
    let table_width = 80;
    let (name_width, path_width) = table_text_widths(table_width);
    let used = 1 + 9 + 5 + (TABLE_COLUMN_SPACING * 4) + 2 + name_width + path_width;

    assert!(used <= table_width);
    assert!(path_width > name_width);
}

#[test]
fn table_widths_fill_any_table() {
    assert_eq!(table_text_widths(80), (19, 40));
    assert_eq!(table_text_widths(200), (28, 151));
    assert_eq!(table_text_widths(37), (8, 8));
    assert_eq!(table_text_widths(38), (8, 9));
    assert_eq!(table_text_widths(24), (1, 2));
    assert_eq!(table_text_widths(10), (0, 0));
    for width in 21..=u16::MAX {
        let (name, path) = table_text_widths(width);
        assert_eq!(21 + u32::from(name) + u32::from(path), u32::from(width));
        assert!(name <= path);
    }
}

#[test]
fn texts_are_shortened_with_dots() {
    assert_eq!(shorten_end("abcdefgh", 8), "abcdefgh");
    assert_eq!(shorten_end("abcdefgh", 7), "abcd...");
    assert_eq!(shorten_end("abcdefgh", 3), "...");
    assert_eq!(shorten_end("a", 2), "..");
    assert_eq!(shorten_end("äöüßäöü", 5), "äö...");
    assert_eq!(shorten_middle("abcdefgh", 8), "abcdefgh");
    assert_eq!(shorten_middle("abcdefgh", 6), "a...gh");
    assert_eq!(shorten_middle("abcdefgh", 4), "...h");
    assert_eq!(shorten_middle("abcdefgh", 0), "");
}

#[test]
fn the_screen_is_divided() {
    let areas = screen_areas(area(0, 0, 80, 24));
    assert_eq!(areas.header, area(0, 0, 80, 3));
    assert_eq!(areas.body, area(0, 3, 80, 18));
    assert_eq!(areas.footer, area(0, 21, 80, 3));
}

#[test]
fn every_screen_is_filled() {
    for y in [0, 1, 7, 65000, 65524, 65530, 65535] {
        for height in (0..300).chain([511, 1000, 32767, 32779, 65535]) {
            let screen = area(3, y, 90, height);
            let lines = std::cmp::min(height, u16::MAX - y);
            let parts = screen_areas(screen);
            let rows = [parts.header, parts.body, parts.footer];
            for row in rows {
                assert_eq!((row.x, row.width), (3, 90));
            }
            assert_eq!(parts.header.y, y);
            assert_eq!(parts.body.y, y + parts.header.height);
            assert_eq!(parts.footer.y, parts.body.y + parts.body.height);
            assert_eq!(parts.footer.y + parts.footer.height, y + lines);
            assert!(parts.header.height <= 3 && parts.footer.height <= 3);
            if lines >= 11 {
                assert_eq!((parts.header.height, parts.footer.height), (3, 3));
            } else {
                assert_eq!(parts.body.height, std::cmp::min(5, lines));
            }
        }
    }
}

#[test]
fn every_progress_panel_is_on_the_screen() {
    for y in [0, 1, 7, 65000, 65524, 65530, 65535] {
        for height in (0..300).chain([511, 1000, 32767, 32779, 65535]) {
            let lines = std::cmp::min(height, u16::MAX - y) as u32;
            let panel = progress_area(area(3, y, 90, height)).unwrap();
            let top = if lines < 9 { 0 } else { std::cmp::min((35 * lines + 50) / 100, lines - 9) };
            assert_eq!(panel.y as u32, y as u32 + top);
            assert_eq!(panel.height as u32, std::cmp::min(9, lines));
        }
    }
}

#[test]
fn the_progress_panel_is_placed() {
    let panel = progress_area(area(0, 0, 100, 40)).unwrap();
    assert_eq!(panel, area(4, 14, 92, 9));
    assert_eq!(progress_area(area(0, 0, 20, 40)).unwrap().width, 32);
    assert_eq!(progress_area(area(0, 0, 300, 40)).unwrap().x, 102);
    assert!(progress_area(area(u16::MAX, 0, 300, 40)).is_none());

    let panel = progress_panel(area(2, 1, 60, 5), area(2, 1, 60, 3), area(2, 4, 60, 9));
    assert_eq!(panel, area(6, 4, 52, 5));
}

#[test]
fn areas_are_centered() {
    assert_eq!(centered_rect(10, 4, area(5, 5, 21, 9)), area(10, 7, 10, 4));
    assert_eq!(centered_rect(50, 40, area(5, 5, 21, 9)), area(5, 5, 21, 9));
    assert_eq!(full_path_popup(area(0, 0, 80, 24), 20), area(4, 9, 72, 5));
    assert_eq!(full_path_popup(area(0, 0, 80, 24), 72 * 6), area(4, 7, 72, 10));
    assert_eq!(full_path_popup(area(0, 0, 80, 10), 72 * 60), area(4, 1, 72, 8));
    assert_eq!(full_path_popup(area(0, 0, 20, 4), 20), area(0, 0, 20, 4));
    assert_eq!(full_path_popup(area(0, 0, 80, 24), 65536 + 20).height, 5);
}

#[test]
fn kinds_have_short_labels() {
    assert_eq!(kind_label(EntryKind::Directory), "dir");
    assert_eq!(kind_label(EntryKind::File), "file");
    assert_eq!(kind_label(EntryKind::Symlink), "link");
    assert_eq!(kind_label(EntryKind::Other), "other");
    assert_eq!(kind_label(EntryKind::Error), "error");
}

#[test]
fn the_header_sums_up() {
    let mut app = sample();
    assert_eq!(app.header_path(80), "/some/dir");
    assert_eq!(app.header_path(13), "/...ir");
    assert_eq!(app.header_path(3), "");
    assert_eq!(
        app.header_stats(),
        "2.0 KB total  3 files  1 dirs  sort: size normal  filter: <none>  selected: 0"
    );
    app.reversed = true;
    app.filter = "x".to_string();
    app.select_visible();
    app.search_results = Some(SearchView {
        query: "q".to_string(),
        entries: vec![SearchEntry { indices: vec![1] }],
        total_matched: 12,
    });
    assert_eq!(
        app.header_stats(),
        "2.0 KB total  3 files  1 dirs  sort: size reversed  filter: x  selected: 1  search: q (1/12)"
    );
}

#[test]
fn the_table_shows_the_list() {
    let mut app = sample();
    app.selected = 1;
    app.toggle_selected();
    let rows = app.table_rows(60);
    let cells: Vec<[&str; 5]> = rows
        .iter()
        .map(|row| [row.mark, row.size.as_str(), row.kind, row.name.as_str(), row.path.as_str()])
        .collect();
    assert_eq!(
        cells,
        vec![
            ["", "2.0 KB", "dir", "sub", "sub"],
            ["*", "5 B", "link", "link", "link"],
            ["", "3 B", "file", "a name tha...", "a name that...her long.txt"],
        ]
    );
    let tints: Vec<Tint> = rows.iter().map(|row| row.tint).collect();
    assert_eq!(tints, vec![Tint::Blue, Tint::Magenta, Tint::Default]);
    assert_eq!(app.highlighted_row(), Some(1));
    app.selected = 9;
    assert_eq!(app.highlighted_row(), Some(2));
    app.filter = "nothing".to_string();
    assert_eq!(app.highlighted_row(), None);
}

#[test]
fn the_footer_says_what_goes_on() {
    let mut app = sample();
    assert_eq!(app.footer_tint(), Tint::Gray);
    assert_eq!(
        app.footer_prompt(None),
        "space mark  a mark visible  u unmark all  d trash  o reveal  p path  R refresh  ? search  / filter  c clear  q quit"
    );
    app.active_search = true;
    assert_eq!(app.footer_prompt(None), "Searching descendants...");
    assert_eq!(app.footer_tint(), Tint::Yellow);
    app.active_refresh = true;
    assert_eq!(app.footer_prompt(None), "Refreshing... esc cancel");
    let mut control = ScanControl::new();
    control.record_visit(&EntryPath::from_text("/x"), EntryKind::File);
    control.record_errors(2);
    assert_eq!(
        app.footer_prompt(Some(control.snapshot())),
        "Refreshing... 1 scanned  1 files  0 dirs  2 errors  esc cancel"
    );
    app.filtering = true;
    app.filter = "f".to_string();
    assert_eq!(app.footer_prompt(None), "/f");
    app.searching = true;
    app.search_query = "q".to_string();
    assert_eq!(app.footer_prompt(None), "?q");
    let target = |path: &str| DeleteTarget {
        path: EntryPath::from_text(path),
        indices: vec![0],
        size: 0,
        file_count: 0,
        dir_count: 0,
        error_count: 0,
    };
    app.pending_delete = Some(vec![target("/some/dir/sub")]);
    assert_eq!(
        app.footer_prompt(None),
        "Move /some/dir/sub to trash? y confirm  n/esc cancel"
    );
    app.pending_delete = Some(vec![target("/a"), target("/b")]);
    assert_eq!(
        app.footer_prompt(None),
        "Move 2 selected items to trash? y confirm  n/esc cancel"
    );
    assert_eq!(app.footer_tint(), Tint::Red);
}

#[test]
fn full_paths_are_those_under_the_cursor() {
    let mut app = sample();
    assert_eq!(app.full_path(), "/some/dir/sub");
    app.filter = "nothing".to_string();
    assert_eq!(app.full_path(), "/some/dir");
}

#[test]
fn progress_is_told() {
    let root = EntryPath::from_text("/a/root/with/a/path");
    let mut control = ScanControl::new();
    let text = progress_text(&root, &control.snapshot(), false, false, 20);
    assert_eq!(text.root, "/a/roo.../a/path");
    assert_eq!(text.current, text.root);
    assert_eq!(text.counts, "0 scanned  0 files  0 dirs  0 errors");
    assert_eq!(text.status, "Esc cancel  q quit");
    assert_eq!(text.status_tint, Tint::Gray);
    control.record_visit(&EntryPath::from_text("/b"), EntryKind::Directory);
    let text = progress_text(&root, &control.snapshot(), true, false, 20);
    assert_eq!(text.current, "/b");
    assert_eq!(text.counts, "1 scanned  0 files  1 dirs  0 errors");
    assert_eq!(text.status, "Canceling...");
    assert_eq!(text.status_tint, Tint::Yellow);
    let text = progress_text(&root, &control.snapshot(), false, true, 20);
    assert_eq!(text.status, "Scan canceled  r retry  q quit");
}
