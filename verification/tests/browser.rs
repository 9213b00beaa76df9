use dux::browser::{failure_message, list_command, search_outcome, trash_outcome};
use dux::paths::EntryPath;
use dux::removal::{remove_targets_from_tree, DeleteTarget};
use dux::scan::{
    scan_observed, EntryMetadata, EntryNode, FileType, Observation, ObservedEntry, ScanCanceled,
    SizeMode, SortKey,
};
use dux::search::{SearchHit, SearchHits};
use dux::state::{
    Action, App, Command, DeleteOutcome, KeyCode, KeyPress, MouseEventKind, Received,
    RefreshOutcome, SearchEntry, SearchOutcome, SearchView,
};

fn metadata(file_type: FileType, len: u64) -> EntryMetadata {
    EntryMetadata { file_type, len, blocks: None }
}

fn file(path: &str, len: u64) -> ObservedEntry {
    ObservedEntry {
        path: EntryPath::from_text(path),
        observation: Observation::Entry(metadata(FileType::File, len)),
    }
}

fn directory(path: &str, entries: Vec<ObservedEntry>) -> ObservedEntry {
    ObservedEntry {
        path: EntryPath::from_text(path),
        observation: Observation::Directory(metadata(FileType::Directory, 0), 0, entries),
    }
}

fn scan(entry: ObservedEntry) -> EntryNode {
    scan_observed(&entry, SizeMode::Logical).unwrap().root.unwrap()
}

fn one_file() -> EntryNode {
    scan(directory("/dir", vec![file("/dir/one.txt", b"one".len() as u64)]))
}

fn press(app: &mut App, code: KeyCode) -> Action {
    app.handle_key(KeyPress { code, control: false })
}

fn press_char(app: &mut App, c: char) -> Action {
    press(app, KeyCode::Char(c))
}

fn names(app: &App) -> Vec<String> {
    app.visible_items().into_iter().map(|item| item.name).collect()
}

fn sample() -> App {
    App::new(scan(directory(
        "/dir",
        vec![
            directory("/dir/a", vec![file("/dir/a/x", 50), file("/dir/a/y", 40)]),
            directory("/dir/b", vec![file("/dir/b/z", 30)]),
            file("/dir/c", 20),
            file("/dir/d", 10),
        ],
    )))
}

fn target(node: &EntryNode, indices: Vec<usize>) -> DeleteTarget {
    DeleteTarget {
        path: node.path.clone(),
        indices,
        size: node.size,
        file_count: node.file_count,
        dir_count: node.dir_count,
        error_count: node.error_count,
    }
}

#[test]
fn restores_parent_cursor_after_opening_child() {
    let root = scan(directory(
        "/dir",
        vec![directory("/dir/alpha", Vec::new()), directory("/dir/beta", Vec::new())],
    ));
    let mut app = App::new(root);
    app.sort = SortKey::Name;
    app.selected = 1;

    app.open_selected();
    assert_eq!(app.current_node().name, "beta");

    app.open_parent();
    assert_eq!(app.current_node().path.display(), "/dir");
    assert_eq!(app.selected, 1);
}

#[test]
fn toggle_selected_marks_paths() {
    let mut app = App::new(one_file());

    app.toggle_selected();
    assert_eq!(app.selected_targets.len(), 1);
    assert_eq!(app.status.as_deref(), Some("Marked /dir/one.txt"));

    app.toggle_selected();
    assert!(app.selected_targets.is_empty());
    assert_eq!(app.status.as_deref(), Some("Unmarked /dir/one.txt"));
}

#[test]
fn removing_paths_updates_tree_without_rescan() {
    let mut root = scan(directory(
        "/dir",
        vec![file("/dir/one.txt", 10), file("/dir/two.txt", 20)],
    ));
    let original_size = root.size;
    let removed_path = EntryPath::from_text("/dir/one.txt");
    let (index, removed) = root
        .children
        .iter()
        .enumerate()
        .find(|(_, child)| child.path.same_path(&removed_path))
        .unwrap();
    let removed_target = target(removed, vec![index]);

    remove_targets_from_tree(&mut root, std::slice::from_ref(&removed_target));

    assert_eq!(root.file_count, 1);
    assert_eq!(root.size, original_size - removed_target.size);
    assert!(!root.children.iter().any(|child| child.path.same_path(&removed_path)));
}

#[test]
fn deleting_from_search_results_clears_search_view() {
    let root = scan(directory("/dir", vec![file("/dir/one.txt", 10)]));
    let removed = target(&root.children[0], vec![0]);
    let mut app = App::new(root);
    app.search_results = Some(SearchView {
        query: "one".to_string(),
        entries: vec![SearchEntry { indices: vec![0] }],
        total_matched: 1,
    });

    app.apply_delete_outcome(DeleteOutcome {
        total: 1,
        removed: 1,
        removed_targets: vec![removed],
        errors: Vec::new(),
    });

    assert!(app.search_results.is_none());
    assert!(app.root.children.is_empty());
}

#[test]
fn refresh_replaces_scanned_tree() {
    let mut app = App::new(one_file());
    let refreshed = scan(directory(
        "/dir",
        vec![
            file("/dir/one.txt", b"one".len() as u64),
            file("/dir/two.txt", b"two".len() as u64),
        ],
    ));

    app.apply_refresh_outcome(RefreshOutcome { indices: Vec::new(), result: Ok(refreshed) });

    assert_eq!(app.root.file_count, 2);
    assert!(app.root.children.iter().any(|child| child.name == "two.txt"));
    assert_eq!(app.status.as_deref(), Some("Refreshed current directory"));
}

#[test]
fn canceled_refresh_keeps_existing_tree() {
    let mut app = App::new(one_file());

    app.apply_refresh_outcome(RefreshOutcome { indices: Vec::new(), result: Err(ScanCanceled) });

    assert_eq!(app.root.file_count, 1);
    assert_eq!(app.status.as_deref(), Some("Refresh canceled"));
}

#[test]
fn path_key_toggles_full_path_overlay() {
    let mut app = App::new(one_file());

    assert!(!app.showing_full_path);
    press_char(&mut app, 'p');
    assert!(app.showing_full_path);
    press(&mut app, KeyCode::Esc);
    assert!(!app.showing_full_path);
}

#[test]
fn mouse_scroll_moves_selection() {
    let root = scan(directory(
        "/dir",
        vec![
            file("/dir/one.txt", b"one".len() as u64),
            file("/dir/two.txt", b"two".len() as u64),
        ],
    ));
    let mut app = App::new(root);
    app.sort = SortKey::Name;

    app.handle_mouse(MouseEventKind::ScrollDown);
    assert_eq!(app.selected, 1);

    app.handle_mouse(MouseEventKind::ScrollUp);
    assert_eq!(app.selected, 0);
}

#[test]
fn clear_key_clears_filter_and_search() {
    let mut app = App::new(one_file());
    app.filter = "one".to_string();
    app.filtering = true;
    app.search_query = "two".to_string();
    app.searching = true;
    app.search_results = Some(SearchView {
        query: "two".to_string(),
        entries: Vec::new(),
        total_matched: 0,
    });
    app.selected = 1;

    app.clear_constraints();

    assert!(app.filter.is_empty());
    assert!(!app.filtering);
    assert!(app.search_query.is_empty());
    assert!(!app.searching);
    assert!(app.search_results.is_none());
    assert_eq!(app.selected, 0);
    assert_eq!(app.status.as_deref(), Some("Cleared filter and search"));
}

#[test]
fn clearing_tells_what_there_was() {
    let clear = |filter: &str, searched: bool| {
        let mut app = sample();
        app.filter = filter.to_string();
        if searched {
            app.search_results =
                Some(SearchView { query: "q".to_string(), entries: Vec::new(), total_matched: 0 });
        }
        press_char(&mut app, 'c');
        app.status.unwrap()
    };
    assert_eq!(clear("x", false), "Cleared filter");
    assert_eq!(clear("", true), "Cleared search");
    assert_eq!(clear("", false), "No filter or search to clear");
}

#[test]
fn the_list_is_sorted_filtered_and_reversed() {
    let mut app = sample();
    assert_eq!(names(&app), vec!["a", "b", "c", "d"]);
    assert_eq!(app.visible_items()[3].indices, vec![3]);
    press_char(&mut app, 'r');
    assert_eq!(names(&app), vec!["d", "c", "b", "a"]);
    press_char(&mut app, 't');
    assert_eq!(names(&app), vec!["d", "c", "b", "a"]);
    press_char(&mut app, 'n');
    press_char(&mut app, 'r');
    assert_eq!(names(&app), vec!["a", "b", "c", "d"]);
    press_char(&mut app, '/');
    assert!(app.filtering);
    for c in "/dir/B".chars() {
        press_char(&mut app, c);
    }
    assert_eq!(app.filter, "/dir/B");
    assert_eq!(names(&app), vec!["b"]);
    press(&mut app, KeyCode::Backspace);
    assert_eq!(app.filter, "/dir/");
    app.handle_key(KeyPress { code: KeyCode::Char('u'), control: true });
    assert_eq!(app.filter, "");
    press_char(&mut app, 'u');
    assert_eq!(app.filter, "u");
    press(&mut app, KeyCode::Enter);
    assert!(!app.filtering);
    assert_eq!(app.filter, "u");
    press_char(&mut app, 's');
    assert_eq!(app.sort, SortKey::Size);
}

#[test]
fn the_cursor_stays_in_the_list() {
    let mut app = sample();
    app.move_selection(2);
    assert_eq!(app.selected, 2);
    app.move_selection(isize::MAX);
    assert_eq!(app.selected, 3);
    app.move_selection(-1);
    assert_eq!(app.selected, 2);
    app.move_selection(isize::MIN);
    assert_eq!(app.selected, 0);
    app.selected = usize::MAX;
    app.move_selection(1);
    assert_eq!(app.selected, 3);
    app.selected = usize::MAX;
    app.move_selection(-1);
    assert_eq!(app.selected, 3);
    app.filter = "nothing".to_string();
    app.move_selection(1);
    assert_eq!(app.selected, 0);
    press(&mut app, KeyCode::Down);
    press(&mut app, KeyCode::Up);
    assert_eq!(app.selected, 0);
}

#[test]
fn opening_goes_down_and_up() {
    let mut app = sample();
    press_char(&mut app, 'j');
    app.filter = "b".to_string();
    app.selected = 0;
    press_char(&mut app, 'l');
    assert_eq!(app.path, vec![1]);
    assert_eq!(app.filter, "");
    assert_eq!(names(&app), vec!["z"]);
    press(&mut app, KeyCode::Enter);
    assert_eq!(app.path, vec![1]);
    press_char(&mut app, 'h');
    assert_eq!(app.path, Vec::<usize>::new());
    assert_eq!(app.selected, 0);
    press(&mut app, KeyCode::Left);
    assert_eq!(app.path, Vec::<usize>::new());
    app.filter = "nothing".to_string();
    press(&mut app, KeyCode::Right);
    assert_eq!(app.filter, "nothing");
}

#[test]
fn keys_ask_for_commands() {
    assert_eq!(list_command(KeyCode::Esc), Command::Quit);
    assert_eq!(list_command(KeyCode::Char('q')), Command::Quit);
    assert_eq!(list_command(KeyCode::Char('k')), Command::CursorUp);
    assert_eq!(list_command(KeyCode::Char('?')), Command::TypeQuery);
    assert_eq!(list_command(KeyCode::Char('t')), Command::SortBy(SortKey::Kind));
    assert_eq!(list_command(KeyCode::Char('x')), Command::Nothing);
    assert_eq!(list_command(KeyCode::Other), Command::Nothing);
    assert!(matches!(press_char(&mut sample(), 'q'), Action::Quit));
    assert!(matches!(press(&mut sample(), KeyCode::Esc), Action::Quit));
    assert!(matches!(press_char(&mut sample(), 'x'), Action::Nothing));
}

#[test]
fn marks_are_made_and_taken_away() {
    let mut app = sample();
    press_char(&mut app, 'a');
    assert_eq!(app.selected_targets.len(), 4);
    assert_eq!(app.status.as_deref(), Some("Marked 4 visible item(s)"));
    press_char(&mut app, 'u');
    assert!(app.selected_targets.is_empty());
    assert_eq!(app.status.as_deref(), Some("Cleared selection"));
    app.filter = "nothing".to_string();
    press_char(&mut app, ' ');
    assert_eq!(app.status.as_deref(), Some("Nothing selected"));
    press_char(&mut app, 'd');
    assert_eq!(app.status.as_deref(), Some("Nothing selected"));
    assert!(matches!(press_char(&mut app, 'o'), Action::Nothing));
}

#[test]
fn operations_work_on_the_topmost_marks() {
    let mut app = sample();
    press_char(&mut app, ' ');
    press_char(&mut app, 'l');
    press_char(&mut app, ' ');
    press_char(&mut app, 'h');
    app.selected = 3;
    press_char(&mut app, ' ');
    assert_eq!(app.selected_targets.len(), 3);
    let paths: Vec<String> =
        app.operation_targets().iter().map(|target| target.path.display()).collect();
    assert_eq!(paths, vec!["/dir/a", "/dir/d"]);
    match press_char(&mut app, 'o') {
        Action::Reveal(targets) => assert_eq!(targets.len(), 2),
        _ => panic!("no wish"),
    }
}

#[test]
fn deletions_are_confirmed_and_carried_out() {
    let mut app = sample();
    app.selected = 2;
    press_char(&mut app, 'd');
    assert_eq!(app.pending_delete.as_ref().map(Vec::len), Some(1));
    assert!(matches!(press_char(&mut app, 'x'), Action::Nothing));
    app.handle_mouse(MouseEventKind::ScrollDown);
    assert_eq!(app.selected, 2);
    press_char(&mut app, 'n');
    assert!(app.pending_delete.is_none());
    assert_eq!(app.status.as_deref(), Some("Delete canceled"));

    press_char(&mut app, 'd');
    let targets = match press_char(&mut app, 'y') {
        Action::MoveToTrash(targets) => targets,
        _ => panic!("no wish"),
    };
    assert!(app.active_delete);
    assert_eq!(app.status.as_deref(), Some("Moving 1 item(s) to trash..."));
    press_char(&mut app, 'd');
    assert_eq!(app.status.as_deref(), Some("A trash operation is already running"));
    press_char(&mut app, 'R');
    assert_eq!(app.status.as_deref(), Some("A trash operation is already running"));

    app.poll_delete(Received::Nothing);
    assert!(app.active_delete);
    let outcome = trash_outcome(targets.into_iter().map(|target| (target, None)).collect());
    assert_eq!(outcome.total, 1);
    assert_eq!(outcome.removed, 1);
    app.poll_delete(Received::Outcome(outcome));
    assert!(!app.active_delete);
    assert_eq!(names(&app), vec!["a", "b", "d"]);
    assert_eq!(app.root.size, 130);
    assert_eq!(app.status.as_deref(), Some("Moved 1 item(s) to trash"));
}

#[test]
fn failed_deletions_are_told_about() {
    let mut app = sample();
    press_char(&mut app, 'a');
    press_char(&mut app, 'd');
    let targets = match press(&mut app, KeyCode::Enter) {
        Action::MoveToTrash(targets) => targets,
        _ => panic!("no wish"),
    };
    let attempts = targets
        .into_iter()
        .enumerate()
        .map(|(n, target)| (target, if n % 2 == 0 { None } else { Some(format!("error {n}")) }))
        .collect();
    let outcome = trash_outcome(attempts);
    assert_eq!(outcome.errors, vec!["/dir/b: error 1", "/dir/d: error 3"]);
    app.poll_delete(Received::Outcome(outcome));
    assert_eq!(app.status.as_deref(), Some("Moved 2/4; first error: /dir/b: error 1"));
    assert_eq!(names(&app), vec!["b", "d"]);
    assert_eq!(app.selected_targets.len(), 2);
    assert_eq!(failure_message(&EntryPath::from_text("/x"), "why"), "/x: why");
}

#[test]
fn lost_workers_are_told_about() {
    let mut app = sample();
    app.active_delete = true;
    app.poll_delete(Received::Disconnected);
    assert_eq!(app.status.as_deref(), Some("Trash operation ended unexpectedly"));
    app.active_search = true;
    app.poll_search(Received::Disconnected);
    assert_eq!(app.status.as_deref(), Some("Search ended unexpectedly"));
    app.active_refresh = true;
    app.poll_refresh(Received::Disconnected);
    assert_eq!(app.status.as_deref(), Some("Refresh ended unexpectedly"));
    assert!(!app.active_delete && !app.active_search && !app.active_refresh);
    app.status = None;
    app.poll_delete(Received::Disconnected);
    app.poll_search(Received::Disconnected);
    app.poll_refresh(Received::Disconnected);
    assert_eq!(app.status, None);
}

#[test]
fn deleting_leads_out_of_what_is_gone() {
    let mut app = sample();
    let gone = target(&app.root.children[0], vec![0]);
    let deep = target(&app.root.children[1].children[0], vec![1, 0]);
    app.path = vec![0];
    app.selected = 1;
    press_char(&mut app, ' ');
    assert_eq!(app.selected_targets.len(), 1);
    app.apply_delete_outcome(DeleteOutcome {
        total: 1,
        removed: 1,
        removed_targets: vec![gone],
        errors: Vec::new(),
    });
    assert_eq!(app.path, Vec::<usize>::new());
    assert!(app.selected_targets.is_empty());

    let mut app = sample();
    app.path = vec![1];
    let gone = target(&app.root.children[0], vec![0]);
    app.apply_delete_outcome(DeleteOutcome {
        total: 2,
        removed: 2,
        removed_targets: vec![deep, gone],
        errors: Vec::new(),
    });
    assert_eq!(app.current_node().name, "b");
    assert_eq!(app.path, vec![0]);
    assert_eq!(app.root.size, 30);
    assert_eq!(app.root.children[0].size, 0);
}

#[test]
fn refreshes_are_asked_for_and_canceled() {
    let mut app = sample();
    app.path = vec![1];
    match press_char(&mut app, 'R') {
        Action::Refresh(indices, path) => {
            assert_eq!(indices, vec![1]);
            assert_eq!(path.display(), "/dir/b");
        }
        _ => panic!("no wish"),
    }
    assert!(app.active_refresh);
    assert_eq!(app.status.as_deref(), Some("Refreshing current directory..."));
    assert!(matches!(press_char(&mut app, 'j'), Action::Nothing));
    assert!(matches!(press_char(&mut app, 'q'), Action::CancelRefresh));
    assert_eq!(app.status.as_deref(), Some("Canceling refresh..."));
    app.stage_delete();
    assert_eq!(app.status.as_deref(), Some("A refresh is already running"));
    assert!(matches!(app.start_refresh(), Action::Nothing));
    assert_eq!(app.status.as_deref(), Some("A refresh is already running"));

    app.selected_targets.insert(
        EntryPath::from_text("/dir/b/z"),
        target(&app.root.children[1].children[0], vec![1, 0]),
    );
    app.selected_targets
        .insert(EntryPath::from_text("/dir/c"), target(&app.root.children[2], vec![2]));
    let refreshed = scan(directory("/dir/b", vec![file("/dir/b/new", 5)]));
    app.poll_refresh(Received::Outcome(RefreshOutcome {
        indices: vec![1],
        result: Ok(refreshed),
    }));
    assert!(!app.active_refresh);
    assert_eq!(names(&app), vec!["new"]);
    assert_eq!(app.root.size, 150);
    assert_eq!(app.selected_targets.len(), 1);

    app.apply_refresh_outcome(RefreshOutcome { indices: vec![9], result: Ok(one_file()) });
    assert_eq!(app.status.as_deref(), Some("Refresh target no longer exists"));
    app.active_search = true;
    assert!(matches!(app.start_refresh(), Action::Nothing));
    assert_eq!(app.status.as_deref(), Some("A search is already running"));
}

#[test]
fn searches_are_typed_run_and_shown() {
    let mut app = sample();
    press_char(&mut app, '?');
    for c in " zz".chars() {
        press_char(&mut app, c);
    }
    press(&mut app, KeyCode::Backspace);
    assert_eq!(app.search_query, " z");
    match press(&mut app, KeyCode::Enter) {
        Action::Search(path, tree, query) => {
            assert_eq!(path.display(), "/dir");
            assert_eq!(tree.file_count, 5);
            assert_eq!(query, "z");
        }
        _ => panic!("no wish"),
    }
    assert!(app.active_search && !app.searching);
    assert_eq!(app.status.as_deref(), Some("Searching descendants for z..."));
    press_char(&mut app, '?');
    press_char(&mut app, 'y');
    assert!(matches!(press(&mut app, KeyCode::Enter), Action::Nothing));
    assert_eq!(app.status.as_deref(), Some("Search is already running"));
    press(&mut app, KeyCode::Esc);
    assert!(!app.searching);

    let hits = SearchHits {
        hits: vec![
            SearchHit { path: EntryPath::from_text("/dir/b/z") },
            SearchHit { path: EntryPath::from_text("/dir/nowhere") },
            SearchHit { path: EntryPath::from_text("/dir/a") },
        ],
        total_matched: 3,
    };
    app.poll_search(Received::Outcome(search_outcome("z".to_string(), Ok(hits))));
    assert_eq!(names(&app), vec!["z", "a"]);
    assert_eq!(app.visible_items()[0].indices, vec![1, 0]);
    assert_eq!(app.status.as_deref(), Some("Search matched 3 item(s), showing first 2"));
    assert_eq!(app.search_results.as_ref().unwrap().query, "z");
    app.selected = 1;
    press(&mut app, KeyCode::Enter);
    assert_eq!(app.path, vec![0]);
    assert!(app.search_results.is_none());

    app.apply_search_outcome(search_outcome("q".to_string(), Err("no index".to_string())));
    assert_eq!(app.status.as_deref(), Some("Search failed: no index"));
    app.apply_search_outcome(SearchOutcome {
        query: "x".to_string(),
        paths: vec![EntryPath::from_text("/dir/a/x")],
        total_matched: 1,
        error: None,
    });
    assert_eq!(app.status.as_deref(), Some("Search matched 1 item(s), showing 1"));
    press_char(&mut app, '?');
    press_char(&mut app, ' ');
    press(&mut app, KeyCode::Enter);
    assert!(app.search_results.is_none() && !app.searching);
    assert_eq!(app.status.as_deref(), Some("Cleared search"));
}

#[test]
fn shown_entries_are_reported() {
    let mut app = sample();
    let attempt = |app: &App, n: usize, failure: Option<&str>| {
        (target(&app.root.children[n], vec![n]), failure.map(str::to_string))
    };
    let good = vec![attempt(&app, 0, None), attempt(&app, 1, None)];
    app.report_revealed(good);
    assert_eq!(app.status.as_deref(), Some("Opened 2 item(s) in file manager"));
    let mixed =
        vec![attempt(&app, 2, Some("no")), attempt(&app, 1, None), attempt(&app, 3, Some("na"))];
    app.report_revealed(mixed);
    assert_eq!(app.status.as_deref(), Some("Opened 1/3; first error: /dir/c: no"));
}

#[test]
fn full_paths_keep_other_keys_away() {
    let mut app = sample();
    press_char(&mut app, 'p');
    assert!(matches!(press_char(&mut app, 'j'), Action::Nothing));
    assert_eq!(app.selected, 0);
    assert!(matches!(press_char(&mut app, 'q'), Action::Nothing));
    assert!(!app.showing_full_path);
}
