use dux::paths::EntryPath;
use dux::scan::{
    complete_scan, flatten, observed_kind, scan_observed, sorted_children, ControlledScan, EntryKind,
    EntryMetadata, EntryNode, FileType, Observation, ObservedEntry, ScanCanceled, ScanControl,
    ScanReport, SizeMode, SortKey,
};

fn metadata(file_type: FileType, len: u64) -> EntryMetadata {
    EntryMetadata { file_type, len, blocks: Some(len.div_ceil(512)) }
}

fn seen(path: &str, observation: Observation) -> ObservedEntry {
    ObservedEntry { path: EntryPath::from_text(path), observation }
}

fn file(path: &str, len: u64) -> ObservedEntry {
    seen(path, Observation::Entry(metadata(FileType::File, len)))
}

fn directory(path: &str, entries: Vec<ObservedEntry>) -> ObservedEntry {
    seen(path, Observation::Directory(metadata(FileType::Directory, 4096), 0, entries))
}

fn partial(entry: &ObservedEntry) -> ControlledScan {
    scan_observed(entry, SizeMode::Logical).unwrap()
}

fn scan(entry: &ObservedEntry) -> EntryNode {
    partial(entry).root.unwrap()
}

fn watch(entry: &ObservedEntry, control: &mut ScanControl) {
    let path = &entry.path;
    match &entry.observation {
        Observation::Canceled => {}
        Observation::NoMetadata(message) => {
            control.record_visit(path, observed_kind(&Err(message.clone())));
        }
        Observation::Entry(metadata) => {
            control.record_visit(path, observed_kind(&Ok(*metadata)));
        }
        Observation::Unreadable(metadata, _) => {
            control.record_visit(path, observed_kind(&Ok(*metadata)));
            control.record_errors(1);
        }
        Observation::Directory(metadata, read_errors, entries) => {
            control.record_visit(path, observed_kind(&Ok(*metadata)));
            control.record_errors(*read_errors);
            for entry in entries {
                watch(entry, control);
            }
        }
    }
}

fn mixed() -> ObservedEntry {
    let mut root = directory(
        "/r",
        vec![
            file("/r/b", 10),
            directory("/r/d", vec![file("/r/d/x", 700), file("/r/d/Y", 700)]),
            seen("/r/link", Observation::Entry(metadata(FileType::Symlink, 3))),
            seen("/r/fifo", Observation::Entry(metadata(FileType::Other, 0))),
            seen("/r/gone", Observation::NoMetadata("no such file".to_string())),
            seen(
                "/r/locked",
                Observation::Unreadable(metadata(FileType::Directory, 64), "denied".to_string()),
            ),
        ],
    );
    if let Observation::Directory(_, read_errors, _) = &mut root.observation {
        *read_errors = 2;
    }
    root
}

fn adds_up(node: &EntryNode) -> bool {
    let files = u64::from(node.kind == EntryKind::File || node.kind == EntryKind::Symlink);
    let dirs = u64::from(node.kind == EntryKind::Directory);
    node.size == node.direct_size + node.children.iter().map(|c| c.size).sum::<u64>()
        && node.file_count == files + node.children.iter().map(|c| c.file_count).sum::<u64>()
        && node.dir_count == dirs + node.children.iter().map(|c| c.dir_count).sum::<u64>()
        && node.error_count >= node.children.iter().map(|c| c.error_count).sum::<u64>()
        && node.children.iter().all(adds_up)
}

#[test]
fn scans_and_sorts_children_by_size() {
    let root = scan(&directory(
        "/dir",
        vec![file("/dir/small.txt", b"small".len() as u64), file("/dir/large.txt", 4096)],
    ));
    let names = root.children.iter().map(|child| child.name.as_str()).collect::<Vec<_>>();

    assert_eq!(names, vec!["large.txt", "small.txt"]);
    assert_eq!(root.file_count, 2);
}

#[test]
fn filters_sorted_children_by_name_or_path() {
    let root = scan(&directory(
        "/dir",
        vec![file("/dir/movie.iso", 100), file("/dir/notes.txt", 200)],
    ));
    let filtered = sorted_children(&root, SortKey::Size, true, "movie");

    assert_eq!(filtered.len(), 1);
    assert_eq!(filtered[0].name, "movie.iso");
}

#[test]
fn controlled_scan_reports_progress() {
    let seen = directory("/dir", vec![file("/dir/one.txt", b"one".len() as u64)]);
    let mut control = ScanControl::new();
    watch(&seen, &mut control);
    complete_scan(partial(&seen)).unwrap();
    let snapshot = control.snapshot();

    assert!(snapshot.scanned >= 2);
    assert_eq!(snapshot.files, 1);
    assert!(snapshot.dirs >= 1);
}

#[test]
fn a_complete_scan_has_counted_its_tree() {
    for entry in [mixed(), file("/f", 3), directory("/d", Vec::new())] {
        let mut control = ScanControl::new();
        watch(&entry, &mut control);
        let root = complete_scan(partial(&entry)).unwrap();
        let mut all = Vec::new();
        flatten(&root, &mut all);
        let snapshot = control.snapshot();
        assert_eq!(snapshot.scanned, all.len() as u64);
        assert_eq!(snapshot.files, root.file_count);
        assert_eq!(snapshot.dirs, root.dir_count);
        assert_eq!(snapshot.errors, root.error_count);
    }
    let mut control = ScanControl::new();
    watch(&mixed(), &mut control);
    assert_eq!(control.snapshot().scanned, 9);
}

#[test]
fn controlled_scan_can_be_canceled_before_start() {
    let mut control = ScanControl::new();
    control.cancel();
    assert!(control.is_canceled());

    let result = complete_scan(partial(&seen("/dir", Observation::Canceled)));

    assert_eq!(result.unwrap_err(), ScanCanceled);
    assert_eq!(ScanCanceled.message(), "scan canceled");
}

#[test]
fn controlled_partial_scan_keeps_scanned_root_after_cancel() {
    let mut control = ScanControl::new();
    control.cancel();
    assert!(control.is_canceled());
    let result = partial(&seen("/dir", Observation::Canceled));

    assert!(result.canceled);
    assert!(result.root.is_none());

    let control = ScanControl::new();
    assert!(!control.is_canceled());
    let result = partial(&directory(
        "/dir",
        vec![
            file("/dir/one.txt", b"one".len() as u64),
            file("/dir/two.txt", b"two".len() as u64),
        ],
    ));

    assert!(!result.canceled);
    assert_eq!(result.root.unwrap().file_count, 2);
}

#[test]
fn a_scan_canceled_on_the_way_keeps_what_it_found() {
    let seen = directory(
        "/dir",
        vec![
            file("/dir/one.txt", 3),
            directory("/dir/sub", vec![seen("/dir/sub/two.txt", Observation::Canceled)]),
        ],
    );
    let scan = partial(&seen);
    assert!(scan.canceled);
    let root = scan.root.as_ref().unwrap();
    assert_eq!(root.file_count, 1);
    assert_eq!(root.dir_count, 2);
    assert_eq!(complete_scan(scan).unwrap_err(), ScanCanceled);
}

#[test]
fn totals_add_up_and_agree_with_the_progress() {
    let seen = mixed();
    let root = scan(&seen);
    assert!(adds_up(&root));
    assert_eq!(root.size, 4096 + 10 + (4096 + 1400) + 3 + 64);
    assert_eq!(root.file_count, 4);
    assert_eq!(root.dir_count, 3);
    assert_eq!(root.error_count, 4);
    assert_eq!(root.direct_size, 4096);

    let mut control = ScanControl::default();
    watch(&seen, &mut control);
    let progress = control.snapshot();
    assert_eq!(progress.files, root.file_count);
    assert_eq!(progress.dirs, root.dir_count);
    assert_eq!(progress.errors, root.error_count);
    assert_eq!(progress.scanned, 9);
    assert_eq!(progress.current_path.display(), "/r/locked");
}

#[test]
fn entries_are_taken_for_what_they_are() {
    let root = scan(&mixed());
    let find = |name: &str| root.children.iter().find(|child| child.name == name).unwrap();
    assert_eq!(find("link").kind, EntryKind::Symlink);
    assert_eq!(find("link").file_count, 1);
    assert_eq!(find("fifo").kind, EntryKind::Other);
    assert_eq!(find("fifo").file_count, 0);
    assert_eq!(find("gone").kind, EntryKind::Error);
    assert_eq!(find("gone").error.as_deref(), Some("no such file"));
    assert_eq!(find("gone").error_count, 1);
    assert_eq!(find("locked").kind, EntryKind::Directory);
    assert_eq!(find("locked").dir_count, 1);
    assert_eq!(find("locked").error.as_deref(), Some("denied"));
    assert_eq!(find("d").children[0].name, "x");
    assert_eq!(find("d").children[1].name, "Y");
    assert!(root.error.is_none());
}

#[test]
fn sizes_are_measured_in_blocks_or_bytes() {
    let seen = file("/f", 513);
    assert_eq!(scan_observed(&seen, SizeMode::Physical).unwrap().root.unwrap().size, 1024);
    assert_eq!(scan_observed(&seen, SizeMode::Logical).unwrap().root.unwrap().size, 513);
    assert_eq!(SizeMode::default(), SizeMode::Physical);

    let measure = |blocks: Option<u64>| {
        let metadata = EntryMetadata { file_type: FileType::File, len: 7, blocks };
        let seen = ObservedEntry {
            path: EntryPath::from_text("/f"),
            observation: Observation::Entry(metadata),
        };
        scan_observed(&seen, SizeMode::Physical).unwrap().root.unwrap().size
    };
    assert_eq!(measure(None), 7);
    assert_eq!(measure(Some(u64::MAX)), u64::MAX);
}

#[test]
fn totals_beyond_range_give_no_scan() {
    let huge = |name: &str| file(name, u64::MAX / 2 + 1);
    assert!(scan_observed(&directory("/d", vec![huge("/d/a")]), SizeMode::Logical).is_some());
    let both = directory("/d", vec![huge("/d/a"), huge("/d/b")]);
    assert!(scan_observed(&both, SizeMode::Logical).is_none());
    assert!(scan_observed(&directory("/", vec![both]), SizeMode::Logical).is_none());
}

#[test]
fn counters_start_over_at_the_end_of_their_range() {
    let mut control = ScanControl::new();
    control.record_errors(u64::MAX);
    control.record_errors(2);
    assert_eq!(control.snapshot().errors, 1);
}

#[test]
fn reports_name_the_measure() {
    let report = ScanReport::physical(scan(&file("/f", 1)));
    assert_eq!(report.size_mode, "physical");
    assert_eq!(report.root.name, "f");
}

#[test]
fn kinds_are_seen_from_the_metadata() {
    let kind = |file_type| observed_kind(&Ok(metadata(file_type, 1)));
    assert_eq!(kind(FileType::Directory), EntryKind::Directory);
    assert_eq!(kind(FileType::File), EntryKind::File);
    assert_eq!(kind(FileType::Symlink), EntryKind::Symlink);
    assert_eq!(kind(FileType::Other), EntryKind::Other);
    assert_eq!(observed_kind(&Err("no".to_string())), EntryKind::Error);
}
