use dux::listing::{entry_row, heading_lines, kind_word, list_rows, search_rows, ListRequest};
use dux::paths::EntryPath;
use dux::scan::{
    scan_observed, EntryKind, EntryMetadata, EntryNode, FileType, Observation, ObservedEntry,
    SizeMode, SortKey,
};
use dux::search::SearchHit;

fn entry(path: &str, file_type: FileType, len: u64) -> ObservedEntry {
    let metadata = EntryMetadata { file_type, len, blocks: None };
    ObservedEntry {
        path: EntryPath::from_text(path),
        observation: Observation::Entry(metadata),
    }
}

fn directory(path: &str, entries: Vec<ObservedEntry>) -> ObservedEntry {
    let metadata = EntryMetadata { file_type: FileType::Directory, len: 0, blocks: None };
    ObservedEntry {
        path: EntryPath::from_text(path),
        observation: Observation::Directory(metadata, 0, entries),
    }
}

fn sample() -> EntryNode {
    let seen = directory(
        "/r",
        vec![
            directory(
                "/r/Docs",
                vec![entry("/r/Docs/b.txt", FileType::File, 20), entry("/r/Docs/A.iso", FileType::File, 20)],
            ),
            entry("/r/link", FileType::Symlink, 7),
            entry("/r/c.txt", FileType::File, 2048),
            ObservedEntry {
                path: EntryPath::from_text("/r/gone"),
                observation: Observation::NoMetadata("no".to_string()),
            },
            entry("/r/fifo", FileType::Other, 0),
        ],
    );
    scan_observed(&seen, SizeMode::Logical).unwrap().root.unwrap()
}

fn request(sort: SortKey) -> ListRequest {
    ListRequest { sort, reversed: false, filter: None, limit: 40, all: false }
}

fn paths(root: &EntryNode, request: &ListRequest) -> Vec<String> {
    list_rows(root, request).iter().map(|row| row[21..].to_string()).collect()
}

#[test]
fn the_heading_sums_up() {
    assert_eq!(
        heading_lines(&sample()),
        vec![
            "2.0 KB  4 files  1 dirs  1 errors",
            "/r",
            "",
            "      Size  Kind     Path",
        ]
    );
}

#[test]
fn rows_have_columns() {
    let root = sample();
    assert_eq!(
        list_rows(&root, &request(SortKey::Size)),
        vec![
            "    2.0 KB  file     /r/c.txt",
            "      40 B  directory  /r/Docs",
            "       7 B  symlink  /r/link",
            "       0 B  other    /r/fifo",
            "       0 B  error    /r/gone",
        ]
    );
    assert_eq!(entry_row(&root.children[0]), "    2.0 KB  file     /r/c.txt");
    assert_eq!(kind_word(EntryKind::Directory), "directory");
}

#[test]
fn children_are_listed_as_asked_for() {
    let root = sample();
    let mut wanted = request(SortKey::Name);
    wanted.limit = 2;
    wanted.reversed = true;
    assert_eq!(
        list_rows(&root, &wanted),
        vec!["       7 B  symlink  /r/link", "       0 B  error    /r/gone"]
    );
    wanted.filter = Some(" DOCS ".to_string());
    assert_eq!(list_rows(&root, &wanted), vec!["      40 B  directory  /r/Docs"]);
    wanted.limit = 0;
    assert_eq!(list_rows(&root, &wanted).len(), 0);
}

#[test]
fn all_descendants_are_listed_as_asked_for() {
    let root = sample();
    let mut wanted = request(SortKey::Size);
    wanted.all = true;
    assert_eq!(
        list_rows(&root, &wanted),
        vec![
            "    2.0 KB  file     /r/c.txt",
            "      40 B  directory  /r/Docs",
            "      20 B  file     /r/Docs/A.iso",
            "      20 B  file     /r/Docs/b.txt",
            "       7 B  symlink  /r/link",
            "       0 B  other    /r/fifo",
            "       0 B  error    /r/gone",
        ]
    );
    wanted.sort = SortKey::Kind;
    let rows = list_rows(&root, &wanted);
    let kinds: Vec<&str> = rows.iter().map(|row| row[12..].split(' ').next().unwrap()).collect();
    assert_eq!(kinds, vec!["directory", "error", "file", "file", "file", "other", "symlink"]);
    wanted.sort = SortKey::Name;
    wanted.filter = Some(".".to_string());
    assert_eq!(paths(&root, &wanted), vec!["/r/Docs/A.iso", "/r/Docs/b.txt", "/r/c.txt"]);
    wanted.reversed = true;
    wanted.limit = 2;
    assert_eq!(paths(&root, &wanted), vec!["/r/c.txt", "/r/Docs/b.txt"]);
    wanted.filter = Some(" ".to_string());
    assert_eq!(paths(&root, &wanted).len(), 0);
}

#[test]
fn search_hits_are_listed_where_they_are_in_the_tree() {
    let root = sample();
    let hit = |path: &str| SearchHit { path: EntryPath::from_text(path) };
    let hits = vec![hit("/r/link"), hit("/r/nowhere"), hit("/r//Docs/b.txt")];
    assert_eq!(
        search_rows(&root, &hits, &None),
        vec!["       7 B  symlink  /r/link", "      20 B  file     /r/Docs/b.txt"]
    );
}

#[test]
fn search_hits_are_filtered() {
    let root = sample();
    let hit = |path: &str| SearchHit { path: EntryPath::from_text(path) };
    let hits = vec![hit("/r/link"), hit("/r/Docs"), hit("/r/Docs/b.txt")];
    let rows = |filter: &str| search_rows(&root, &hits, &Some(filter.to_string()));
    assert_eq!(
        rows("DOCS"),
        vec!["      40 B  directory  /r/Docs", "      20 B  file     /r/Docs/b.txt"]
    );
    assert_eq!(rows("B.TXT"), vec!["      20 B  file     /r/Docs/b.txt"]);
    assert_eq!(rows("").len(), 3);
    assert_eq!(rows("nothing").len(), 0);
}
