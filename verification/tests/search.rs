use dux::paths::EntryPath;
use dux::scan::{
    scan_observed, EntryMetadata, EntryNode, FileType, Observation, ObservedEntry, SizeMode,
};
use dux::search::{index_hits, search_paths, search_tokens, SearchHits};
use dux::text::is_white_space;

fn metadata(file_type: FileType, len: u64) -> EntryMetadata {
    EntryMetadata { file_type, len, blocks: None }
}

fn file(path: &str, text: &[u8]) -> ObservedEntry {
    ObservedEntry {
        path: EntryPath::from_text(path),
        observation: Observation::Entry(metadata(FileType::File, text.len() as u64)),
    }
}

fn directory(path: &str, entries: Vec<ObservedEntry>) -> ObservedEntry {
    ObservedEntry {
        path: EntryPath::from_text(path),
        observation: Observation::Directory(metadata(FileType::Directory, 0), 0, entries),
    }
}

fn scan(entry: ObservedEntry) -> EntryNode {
    scan_observed(&entry, SizeMode::Logical).unwrap().root.unwrap()
}

fn shown(hits: &SearchHits) -> Vec<String> {
    hits.hits.iter().map(|hit| hit.path.display()).collect()
}

#[test]
fn searches_files_under_base_path() {
    let tree = scan(directory(
        "/base",
        vec![
            directory("/base/nested", vec![file("/base/nested/video-cache.txt", b"cache")]),
            file("/base/notes.txt", b"notes"),
        ],
    ));
    let hits = search_paths(&tree, "video", 10).unwrap();

    assert!(shown(&hits).iter().any(|path| path.ends_with("/video-cache.txt")));
}

#[test]
fn includes_disk_files_fff_skips_as_binary() {
    let tree = scan(directory("/base", vec![file("/base/movie.iso", b"image")]));
    let hits = search_paths(&tree, "movie", 10).unwrap();

    assert!(shown(&hits).iter().any(|path| path.ends_with("/movie.iso")));
}

fn project() -> EntryNode {
    scan(directory(
        "/base",
        vec![directory(
            "/base/project",
            vec![directory(
                "/base/project/node_modules",
                vec![file("/base/project/node_modules/package.json", b"{}")],
            )],
        )],
    ))
}

#[test]
fn prioritizes_scanned_tree_matches_before_fuzzy_results() {
    let tree = scan(directory(
        "/base",
        vec![
            directory(
                "/base/project",
                vec![directory("/base/project/node_modules", Vec::new())],
            ),
            file("/base/node_mdx.txt", b"fuzzy"),
        ],
    ));
    let hits = search_paths(&tree, "node_modules", 1).unwrap();

    assert_eq!(hits.hits.len(), 1);
    assert!(shown(&hits)[0].ends_with("/project/node_modules"));
}

#[test]
fn plain_search_matches_names_not_every_descendant_path() {
    let hits = search_paths(&project(), "node_modules", 10).unwrap();

    assert_eq!(hits.total_matched, 1);
    assert_eq!(hits.hits.len(), 1);
    assert!(shown(&hits)[0].ends_with("/project/node_modules"));
}

#[test]
fn path_like_search_can_match_descendant_paths() {
    let hits = search_paths(&project(), "node_modules/package", 10).unwrap();

    assert_eq!(hits.total_matched, 1);
    assert!(shown(&hits)[0].ends_with("/node_modules/package.json"));
}

#[test]
fn all_words_are_wanted_whatever_their_case() {
    let tree = scan(directory(
        "/base",
        vec![
            file("/base/Big Movie.ISO", b"1"),
            file("/base/big.txt", b"2"),
            file("/base/movie.txt", b"3"),
        ],
    ));
    let hits = search_paths(&tree, " movie\u{3000}BIG ", 10).unwrap();
    assert_eq!(shown(&hits), vec!["/base/Big Movie.ISO"]);
    assert!(search_paths(&tree, "small", 10).is_none());
    assert!(search_paths(&tree, " \t ", 10).is_none());
    assert!(search_paths(&tree, "base", 10).is_none());
    assert_eq!(search_paths(&tree, "/base", 10).unwrap().total_matched, 3);
    assert!(search_paths(&tree, "base\\big", 10).is_none());
}

#[test]
fn hits_are_limited_but_counted() {
    let entries = (0..7).map(|n| file(&format!("/base/file{n}"), b"x")).collect();
    let tree = scan(directory("/base", entries));
    let hits = search_paths(&tree, "file", 3).unwrap();
    assert_eq!(shown(&hits), vec!["/base/file0", "/base/file1", "/base/file2"]);
    assert_eq!(hits.total_matched, 7);
    let none = search_paths(&tree, "file", 0).unwrap();
    assert_eq!(none.hits.len(), 0);
    assert_eq!(none.total_matched, 7);
}

#[test]
fn one_path_is_found_once() {
    let tree = scan(directory(
        "/base",
        vec![
            file("/base/a-file", b"x"),
            file("/base//b-file", b"x"),
            file("/base/./a-file", b"x"),
            file("/base/b-file", b"x"),
        ],
    ));
    let hits = search_paths(&tree, "file", 10).unwrap();
    assert_eq!(hits.total_matched, 2);
    assert_eq!(shown(&hits), vec!["/base/a-file", "/base//b-file"]);
}

#[test]
fn answers_of_an_index_are_taken_once_and_limited() {
    let paths: Vec<EntryPath> =
        ["/b", "/a", "/b/", "/c", "/a", "/d"].iter().map(|text| EntryPath::from_text(text)).collect();
    let hits = index_hits(&paths, 40, 3);
    assert_eq!(shown(&hits), vec!["/b", "/a", "/c"]);
    assert_eq!(hits.total_matched, 40);
    assert_eq!(shown(&index_hits(&paths, 6, 10)), vec!["/b", "/a", "/c", "/d"]);
}

#[test]
fn queries_are_split_at_white_space() {
    assert_eq!(search_tokens("  Node_Modules\tÄPFEL \n"), vec!["node_modules", "äpfel"]);
    assert_eq!(search_tokens(""), Vec::<String>::new());
    for code in 0..=0x10_ffffu32 {
        if let Some(c) = char::from_u32(code) {
            let tokens = search_tokens(&format!("a{c}b")).len();
            assert_eq!(tokens, if c.is_whitespace() { 2 } else { 1 }, "{code:x}");
        }
    }
}

#[test]
fn white_space_is_that_of_unicode() {
    for c in '\0'..=char::MAX {
        assert_eq!(is_white_space(c), c.is_whitespace(), "{:?}", c);
    }
}
