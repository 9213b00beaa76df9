//! The state of the interactive browser, and what each event makes of it.

use vstd::prelude::*;

use crate::children::SortKey;
use crate::path_map::PathMap;
use crate::paths::EntryPath;
use crate::removal::DeleteTarget;
#[allow(unused_imports)]
use crate::removal::Target;
use crate::scan::ScanCanceled;
#[allow(unused_imports)]
use crate::search::SearchHits;
use crate::tree::{EntryKind, EntryNode};
#[allow(unused_imports)]
use crate::tree::Tree;

verus! {

/// How many entries a search shows at most.
pub const SEARCH_RESULT_LIMIT: usize = 2_000;

/// A key, as far as the browser tells keys apart.
#[derive(Clone, Copy, Debug, PartialEq, Eq, Structural)]
pub enum KeyCode {
    Esc,
    Enter,
    Backspace,
    Up,
    Down,
    Left,
    Right,
    Char(char),
    Other,
}

/// A key that was pressed, and whether the control key was held.
#[derive(Clone, Copy, Debug, PartialEq, Eq, Structural)]
pub struct KeyPress {
    pub code: KeyCode,
    pub control: bool,
}

/// What a key asks for in the list.
#[derive(Clone, Copy, Debug, PartialEq, Eq, Structural)]
pub enum Command {
    Nothing,
    Quit,
    CursorDown,
    CursorUp,
    Open,
    OpenParent,
    TypeFilter,
    TypeQuery,
    ClearConstraints,
    Delete,
    Reveal,
    Refresh,
    ShowFullPath,
    ToggleMark,
    MarkVisible,
    UnmarkAll,
    SortBy(SortKey),
    Reverse,
}

/// What the mouse did, as far as the browser tells it apart.
#[derive(Clone, Copy, Debug, PartialEq, Eq, Structural)]
pub enum MouseEventKind {
    ScrollDown,
    ScrollUp,
    Other,
}

/// An entry that a search found.
#[derive(Debug)]
pub struct SearchEntry {
    pub indices: Vec<usize>,
}

/// What a search found, as it is shown.
#[derive(Debug)]
pub struct SearchView {
    pub query: String,
    pub entries: Vec<SearchEntry>,
    pub total_matched: usize,
}

/// What became of a search.
#[derive(Debug)]
pub struct SearchOutcome {
    pub query: String,
    pub paths: Vec<EntryPath>,
    pub total_matched: usize,
    pub error: Option<String>,
}

/// An entry of the list that is shown.
#[derive(Debug)]
pub struct VisibleItem {
    pub path: EntryPath,
    pub indices: Vec<usize>,
    pub name: String,
    pub kind: EntryKind,
    pub size: u64,
    pub file_count: u64,
    pub dir_count: u64,
    pub error_count: u64,
}

/// What became of moving entries to the trash.
#[derive(Debug)]
pub struct DeleteOutcome {
    pub total: usize,
    pub removed: usize,
    pub removed_targets: Vec<DeleteTarget>,
    pub errors: Vec<String>,
}

/// What became of scanning a directory again.
#[derive(Debug)]
pub struct RefreshOutcome {
    pub indices: Vec<usize>,
    pub result: Result<EntryNode, ScanCanceled>,
}

/// What was heard of work that runs beside the browser.
#[derive(Debug)]
pub enum Received<T> {
    /// It is done, with this outcome.
    Outcome(T),
    /// It still runs.
    Nothing,
    /// It ended without an outcome.
    Disconnected,
}

/// What the browser wants done.
#[derive(Debug)]
pub enum Action {
    Nothing,
    /// To end.
    Quit,
    /// Entries are to be moved to the trash.
    MoveToTrash(Vec<DeleteTarget>),
    /// Entries are to be shown in the file manager.
    Reveal(Vec<DeleteTarget>),
    /// A tree, scanned from the given path, is to be searched.
    Search(EntryPath, EntryNode, String),
    /// The directory with the given child positions and path is to be scanned
    /// again.
    Refresh(Vec<usize>, EntryPath),
    /// The running scan is to stop.
    CancelRefresh,
}

/// The state of the browser.
#[derive(Debug)]
pub struct App {
    pub root: EntryNode,
    pub path: Vec<usize>,
    pub selected: usize,
    pub sort: SortKey,
    pub reversed: bool,
    pub filter: String,
    pub filtering: bool,
    pub search_query: String,
    pub searching: bool,
    pub search_results: Option<SearchView>,
    pub active_search: bool,
    pub selected_targets: PathMap<DeleteTarget>,
    pub cursor_by_path: PathMap<usize>,
    pub pending_delete: Option<Vec<DeleteTarget>>,
    pub active_delete: bool,
    pub active_refresh: bool,
    pub showing_full_path: bool,
    pub status: Option<String>,
}

/// The contents of what a search found.
#[verifier::ext_equal]
pub struct Results {
    pub query: Seq<char>,
    pub entries: Seq<Seq<usize>>,
    pub total_matched: usize,
}

/// The positions of entries that a search found.
pub open spec fn entry_indices(v: Seq<SearchEntry>) -> Seq<Seq<usize>> {
    v.map_values(|e: SearchEntry| e.indices@)
}

impl View for SearchView {
    type V = Results;

    open spec fn view(&self) -> Results {
        Results {
            query: self.query@,
            entries: entry_indices(self.entries@),
            total_matched: self.total_matched,
        }
    }
}

/// The contents of what became of a search.
pub struct SearchReport {
    pub query: Seq<char>,
    pub paths: Seq<Seq<u8>>,
    pub total_matched: usize,
    pub error: Option<Seq<char>>,
}

impl View for SearchOutcome {
    type V = SearchReport;

    open spec fn view(&self) -> SearchReport {
        SearchReport {
            query: self.query@,
            paths: crate::ops::path_views(self.paths@),
            total_matched: self.total_matched,
            error: crate::tree::optional_text(self.error),
        }
    }
}

/// The contents of an entry of the list that is shown.
#[verifier::ext_equal]
pub struct Item {
    pub path: Seq<u8>,
    pub indices: Seq<usize>,
    pub name: Seq<char>,
    pub kind: EntryKind,
    pub size: u64,
    pub file_count: u64,
    pub dir_count: u64,
    pub error_count: u64,
}

impl View for VisibleItem {
    type V = Item;

    open spec fn view(&self) -> Item {
        Item {
            path: self.path@,
            indices: self.indices@,
            name: self.name@,
            kind: self.kind,
            size: self.size,
            file_count: self.file_count,
            dir_count: self.dir_count,
            error_count: self.error_count,
        }
    }
}

/// The contents of several entries of the list.
pub open spec fn items(v: Seq<VisibleItem>) -> Seq<Item> {
    v.map_values(|i: VisibleItem| i@)
}

/// The contents of what became of moving entries to the trash.
pub struct TrashReport {
    pub total: usize,
    pub removed: usize,
    pub gone: Seq<Target>,
    pub errors: Seq<Seq<char>>,
}

impl View for DeleteOutcome {
    type V = TrashReport;

    open spec fn view(&self) -> TrashReport {
        TrashReport {
            total: self.total,
            removed: self.removed,
            gone: crate::removal::targets(self.removed_targets@),
            errors: crate::text::texts(self.errors@),
        }
    }
}

/// The contents of what became of scanning a directory again.
pub struct Rescan {
    pub indices: Seq<usize>,
    pub found: Option<Tree>,
}

impl View for RefreshOutcome {
    type V = Rescan;

    open spec fn view(&self) -> Rescan {
        Rescan {
            indices: self.indices@,
            found: match self.result {
                Ok(node) => Some(node@),
                Err(_) => None,
            },
        }
    }
}

/// The contents of what the browser wants done.
pub enum Wish {
    Nothing,
    Quit,
    MoveToTrash(Seq<Target>),
    Reveal(Seq<Target>),
    Search(Seq<u8>, Tree, Seq<char>),
    Refresh(Seq<usize>, Seq<u8>),
    CancelRefresh,
}

impl View for Action {
    type V = Wish;

    open spec fn view(&self) -> Wish {
        match *self {
            Action::Nothing => Wish::Nothing,
            Action::Quit => Wish::Quit,
            Action::MoveToTrash(list) => Wish::MoveToTrash(crate::removal::targets(list@)),
            Action::Reveal(list) => Wish::Reveal(crate::removal::targets(list@)),
            Action::Search(path, tree, query) => Wish::Search(path@, tree@, query@),
            Action::Refresh(indices, path) => Wish::Refresh(indices@, path@),
            Action::CancelRefresh => Wish::CancelRefresh,
        }
    }
}

/// The contents of the browser's state.
#[verifier::ext_equal]
pub struct State {
    pub root: Tree,
    pub path: Seq<usize>,
    pub selected: usize,
    pub sort: SortKey,
    pub reversed: bool,
    pub filter: Seq<char>,
    pub filtering: bool,
    pub search_query: Seq<char>,
    pub searching: bool,
    pub search_results: Option<Results>,
    pub active_search: bool,
    pub marks: Map<Seq<Seq<u8>>, Target>,
    pub cursors: Map<Seq<Seq<u8>>, usize>,
    pub pending_delete: Option<Seq<Target>>,
    pub active_delete: bool,
    pub active_refresh: bool,
    pub showing_full_path: bool,
    pub status: Option<Seq<char>>,
}

/// The contents of marks.
pub open spec fn marks_of(m: Map<Seq<Seq<u8>>, DeleteTarget>) -> Map<Seq<Seq<u8>>, Target> {
    m.map_values(|t: DeleteTarget| t@)
}

impl View for App {
    type V = State;

    open spec fn view(&self) -> State {
        State {
            root: self.root@,
            path: self.path@,
            selected: self.selected,
            sort: self.sort,
            reversed: self.reversed,
            filter: self.filter@,
            filtering: self.filtering,
            search_query: self.search_query@,
            searching: self.searching,
            search_results: match self.search_results {
                Some(results) => Some(results@),
                None => None,
            },
            active_search: self.active_search,
            marks: marks_of(self.selected_targets@),
            cursors: self.cursor_by_path@,
            pending_delete: match self.pending_delete {
                Some(list) => Some(crate::removal::targets(list@)),
                None => None,
            },
            active_delete: self.active_delete,
            active_refresh: self.active_refresh,
            showing_full_path: self.showing_full_path,
            status: crate::tree::optional_text(self.status),
        }
    }
}

/// The state in which the browser starts with a tree.
pub open spec fn started(root: Tree) -> State {
    State {
        root,
        path: Seq::empty(),
        selected: 0,
        sort: SortKey::Size,
        reversed: false,
        filter: Seq::empty(),
        filtering: false,
        search_query: Seq::empty(),
        searching: false,
        search_results: None,
        active_search: false,
        marks: Map::empty(),
        cursors: Map::empty(),
        pending_delete: None,
        active_delete: false,
        active_refresh: false,
        showing_full_path: false,
        status: None,
    }
}

/// An entry as it is shown in the list.
pub open spec fn item_of(t: Tree, indices: Seq<usize>) -> Item {
    Item {
        path: t.path,
        indices,
        name: t.name,
        kind: t.kind,
        size: t.size,
        file_count: t.file_count,
        dir_count: t.dir_count,
        error_count: t.error_count,
    }
}

/// What an entry of the list is to be deleted as.
pub open spec fn target_of(item: Item) -> Target {
    Target {
        path: item.path,
        indices: item.indices,
        size: item.size,
        file_count: item.file_count,
        dir_count: item.dir_count,
        error_count: item.error_count,
    }
}

/// The place of the first of several entries that has the given path; behind
/// the last where none has.
pub open spec fn child_index(ts: Seq<Tree>, path: Seq<u8>) -> nat
    decreases ts.len(),
{
    if ts.len() == 0 || crate::paths::parts(ts[0].path) == crate::paths::parts(path) {
        0
    } else {
        1 + child_index(ts.drop_first(), path)
    }
}

/// The list of what a search found, without what is no longer there.
pub open spec fn result_items(root: Tree, entries: Seq<Seq<usize>>) -> Seq<Item>
    decreases entries.len(),
{
    if entries.len() == 0 {
        Seq::empty()
    } else {
        let earlier = result_items(root, entries.drop_last());
        match crate::tree::node_at(root, entries.last()) {
            Some(t) => earlier.push(item_of(t, entries.last())),
            None => earlier,
        }
    }
}

/// What marks and remembered cursors are kept under: the parts of a path.
pub open spec fn key_of(path: Seq<u8>) -> Seq<Seq<u8>> {
    crate::paths::parts(path)
}

impl State {
    /// The directory that is shown.
    pub open spec fn current(self) -> Tree {
        crate::tree::followed(self.root, self.path)
    }

    /// The list that is shown: what a search found, or the children of the
    /// directory.
    pub open spec fn visible(self) -> Seq<Item> {
        match self.search_results {
            Some(results) => result_items(self.root, results.entries),
            None => crate::children::listed_children(
                self.current(),
                self.sort,
                self.reversed,
                self.filter,
            ).map_values(
                |t: Tree|
                    item_of(
                        t,
                        self.path.push(child_index(self.current().children, t.path) as usize),
                    ),
            ),
        }
    }

    /// The entry of the list under the cursor.
    pub open spec fn selected_item(self) -> Option<Item> {
        if self.selected < self.visible().len() {
            Some(self.visible()[self.selected as int])
        } else {
            None
        }
    }

    /// The state with a status message.
    pub open spec fn saying(self, text: Seq<char>) -> State {
        State { status: Some(text), ..self }
    }

    /// The state with the cursor remembered for the directory.
    pub open spec fn remembering(self) -> State {
        State { cursors: self.cursors.insert(key_of(self.current().path), self.selected), ..self }
    }

    /// The state with the cursor where it was when the directory was left, or
    /// as near to that as the list allows.
    pub open spec fn returning(self) -> State {
        let key = key_of(self.current().path);
        let wanted = if self.cursors.dom().contains(key) {
            self.cursors[key]
        } else {
            0
        };
        let count = self.visible().len();
        State {
            selected: if count == 0 {
                0
            } else if wanted < count {
                wanted
            } else {
                (count - 1) as usize
            },
            ..self
        }
    }

    /// The state with the cursor moved, but not out of the list.
    pub open spec fn moved(self, delta: int) -> State {
        let count = self.visible().len();
        if count == 0 {
            State { selected: 0, ..self }
        } else {
            let at = self.selected + delta;
            let to = if at < 0 {
                0
            } else if at < count {
                at
            } else {
                count - 1
            };
            State { selected: to as usize, ..self }.remembering()
        }
    }

    /// The state without filter and search.
    pub open spec fn unconstrained(self) -> State {
        State {
            filter: Seq::empty(),
            filtering: false,
            search_query: Seq::empty(),
            searching: false,
            search_results: None,
            selected: 0,
            ..self
        }.saying(
            if self.filter.len() > 0 && self.search_results is Some {
                "Cleared filter and search"@
            } else if self.filter.len() > 0 {
                "Cleared filter"@
            } else if self.search_results is Some {
                "Cleared search"@
            } else {
                "No filter or search to clear"@
            },
        )
    }

    /// The state after the entry under the cursor was opened. Only a
    /// directory opens.
    pub open spec fn opened(self) -> State {
        match self.selected_item() {
            None => self,
            Some(item) => {
                let kept = self.remembering();
                if item.kind == EntryKind::Directory {
                    State {
                        path: item.indices,
                        filter: Seq::empty(),
                        search_results: None,
                        ..kept
                    }.returning()
                } else {
                    kept
                }
            },
        }
    }

    /// The state after the parent directory was opened, if there is one.
    pub open spec fn parent_opened(self) -> State {
        let kept = self.remembering();
        if self.path.len() > 0 {
            State { path: self.path.drop_last(), filter: Seq::empty(), ..kept }.returning()
        } else {
            kept
        }
    }

    /// The marked entries, in the order of their paths.
    pub open spec fn marked(self) -> Seq<Target> {
        crate::path_map::ordered_keys(self.marks.dom()).map_values(
            |k: Seq<Seq<u8>>| self.marks[k],
        )
    }

    /// What an operation works on: the marked entries, without those below
    /// other marked ones, or else the entry under the cursor.
    pub open spec fn operation_targets(self) -> Seq<Target> {
        if self.marks == Map::<Seq<Seq<u8>>, Target>::empty() {
            match self.selected_item() {
                Some(item) => seq![target_of(item)],
                None => Seq::empty(),
            }
        } else {
            topmost(self.marked())
        }
    }

    /// The state with the mark of the entry under the cursor set, or taken
    /// away where it was set.
    pub open spec fn toggled(self) -> State {
        match self.selected_item() {
            None => self.saying("Nothing selected"@),
            Some(item) => {
                let key = key_of(item.path);
                if self.marks.dom().contains(key) {
                    State { marks: self.marks.remove(key), ..self }.saying(
                        "Unmarked "@ + crate::paths::shown(item.path),
                    )
                } else {
                    State { marks: self.marks.insert(key, target_of(item)), ..self }.saying(
                        "Marked "@ + crate::paths::shown(item.path),
                    )
                }
            },
        }
    }

    /// The state with every entry of the list marked.
    pub open spec fn all_marked(self) -> State {
        State { marks: with_marks(self.marks, self.visible()), ..self }.saying(
            "Marked "@ + crate::text::decimal(self.visible().len()) + " visible item(s)"@,
        )
    }

    /// The state with a request to delete before the user.
    pub open spec fn delete_staged(self) -> State {
        if self.active_delete {
            self.saying("A trash operation is already running"@)
        } else if self.active_refresh {
            self.saying("A refresh is already running"@)
        } else if self.operation_targets().len() == 0 {
            self.saying("Nothing selected"@)
        } else {
            State { pending_delete: Some(self.operation_targets()), ..self }
        }
    }

    /// What follows when the user asks to see entries in the file manager.
    pub open spec fn reveal_wanted(self) -> (State, Wish) {
        if self.operation_targets().len() == 0 {
            (self.saying("Nothing selected"@), Wish::Nothing)
        } else {
            (self, Wish::Reveal(self.operation_targets()))
        }
    }

    /// What follows when the user agrees to delete.
    pub open spec fn delete_confirmed(self) -> (State, Wish) {
        match self.pending_delete {
            None => (self, Wish::Nothing),
            Some(list) => (
                State { pending_delete: None, active_delete: true, ..self }.saying(
                    "Moving "@ + crate::text::decimal(list.len()) + " item(s) to trash..."@,
                ),
                Wish::MoveToTrash(list),
            ),
        }
    }

    /// What follows when the user asks for a new scan of the directory.
    pub open spec fn refresh_wanted(self) -> (State, Wish) {
        if self.active_refresh {
            (self.saying("A refresh is already running"@), Wish::Nothing)
        } else if self.active_delete {
            (self.saying("A trash operation is already running"@), Wish::Nothing)
        } else if self.active_search {
            (self.saying("A search is already running"@), Wish::Nothing)
        } else {
            (
                State { active_refresh: true, ..self }.saying("Refreshing current directory..."@),
                Wish::Refresh(self.path, self.current().path),
            )
        }
    }

    /// What follows when the user has typed a query.
    pub open spec fn search_wanted(self) -> (State, Wish) {
        let query = crate::text::trimmed(self.search_query);
        if query.len() == 0 {
            (
                State { search_results: None, searching: false, ..self }.saying(
                    "Cleared search"@,
                ),
                Wish::Nothing,
            )
        } else if self.active_search {
            (self.saying("Search is already running"@), Wish::Nothing)
        } else {
            (
                State {
                    active_search: true,
                    searching: false,
                    search_results: None,
                    selected: 0,
                    ..self
                }.saying("Searching descendants for "@ + query + "..."@),
                Wish::Search(self.current().path, self.current(), query),
            )
        }
    }

    /// The state after entries were moved to the trash.
    pub open spec fn trashed(self, report: TrashReport) -> State {
        let root = crate::removal::removed_all(self.root, report.gone);
        State {
            root,
            path: crate::tree::valid_prefix(
                root,
                crate::removal::adjusted_in_turn(self.path, report.gone),
            ),
            marks: self.marks.restrict(Set::new(outside_of(report.gone))),
            cursors: self.cursors.restrict(Set::new(outside_of(report.gone))),
            search_results: None,
            ..self
        }.returning().saying(
            if report.errors.len() == 0 {
                "Moved "@ + crate::text::decimal(report.removed as nat) + " item(s) to trash"@
            } else {
                "Moved "@ + crate::text::decimal(report.removed as nat) + "/"@
                    + crate::text::decimal(report.total as nat) + "; first error: "@
                    + report.errors[0]
            },
        )
    }

    /// The state after a directory was scanned again.
    pub open spec fn refreshed(self, rescan: Rescan) -> State {
        match rescan.found {
            None => self.saying("Refresh canceled"@),
            Some(tree) => match crate::tree::replaced_at(self.root, rescan.indices, tree) {
                None => self.saying("Refresh target no longer exists"@),
                Some(root) => State {
                    root,
                    path: crate::tree::valid_prefix(root, self.path),
                    marks: self.marks.restrict(Set::new(found_in(root))),
                    cursors: self.cursors.restrict(Set::new(found_in(root))),
                    search_results: None,
                    ..self
                }.returning().saying("Refreshed current directory"@),
            },
        }
    }

    /// The state after a search.
    pub open spec fn searched(self, report: SearchReport) -> State {
        match report.error {
            Some(error) => self.saying("Search failed: "@ + error),
            None => {
                let entries = located_paths(self.root, report.paths);
                State {
                    search_results: Some(
                        Results {
                            query: report.query,
                            entries,
                            total_matched: report.total_matched,
                        },
                    ),
                    selected: 0,
                    ..self
                }.saying(
                    "Search matched "@ + crate::text::decimal(report.total_matched as nat)
                        + " item(s), "@ + (if entries.len() < report.total_matched {
                        "showing first "@
                    } else {
                        "showing "@
                    }) + crate::text::decimal(entries.len()),
                )
            },
        }
    }

    /// The state after attempts to show entries in the file manager.
    pub open spec fn revealed(self, attempts: Seq<(Target, Option<Seq<char>>)>) -> State {
        let done = crate::text::decimal(done_with(attempts).len());
        self.saying(
            if failures_of(attempts).len() == 0 {
                "Opened "@ + done + " item(s) in file manager"@
            } else {
                "Opened "@ + done + "/"@ + crate::text::decimal(attempts.len())
                    + "; first error: "@ + failures_of(attempts)[0]
            },
        )
    }

    /// The state after something was heard of entries on their way to the
    /// trash.
    pub open spec fn trash_polled(self, received: Received<DeleteOutcome>) -> State {
        match received {
            Received::Outcome(outcome) => State { active_delete: false, ..self }.trashed(outcome@),
            Received::Nothing => self,
            Received::Disconnected => State { active_delete: false, ..self }.saying(
                "Trash operation ended unexpectedly"@,
            ),
        }
    }

    /// The state after something was heard of a new scan.
    pub open spec fn refresh_polled(self, received: Received<RefreshOutcome>) -> State {
        match received {
            Received::Outcome(outcome) => State { active_refresh: false, ..self }.refreshed(
                outcome@,
            ),
            Received::Nothing => self,
            Received::Disconnected => State { active_refresh: false, ..self }.saying(
                "Refresh ended unexpectedly"@,
            ),
        }
    }

    /// The state after something was heard of a search.
    pub open spec fn search_polled(self, received: Received<SearchOutcome>) -> State {
        match received {
            Received::Outcome(outcome) => State { active_search: false, ..self }.searched(
                outcome@,
            ),
            Received::Nothing => self,
            Received::Disconnected => State { active_search: false, ..self }.saying(
                "Search ended unexpectedly"@,
            ),
        }
    }

    /// What a key does while a full path is shown.
    pub open spec fn key_on_full_path(self, key: KeyPress) -> (State, Wish) {
        let ends = key.code == KeyCode::Esc || key.code == KeyCode::Enter || key.code
            == KeyCode::Char('p') || key.code == KeyCode::Char('q');
        (State { showing_full_path: !ends, ..self }, Wish::Nothing)
    }

    /// What a key does while the user is asked about a deletion.
    pub open spec fn key_on_delete(self, key: KeyPress) -> (State, Wish) {
        match key.code {
            KeyCode::Enter | KeyCode::Char('y') => self.delete_confirmed(),
            KeyCode::Esc | KeyCode::Char('n') => (
                State { pending_delete: None, ..self }.saying("Delete canceled"@),
                Wish::Nothing,
            ),
            _ => (self, Wish::Nothing),
        }
    }

    /// What a key does while a directory is scanned again.
    pub open spec fn key_on_refresh(self, key: KeyPress) -> (State, Wish) {
        match key.code {
            KeyCode::Esc | KeyCode::Char('q') => (
                self.saying("Canceling refresh..."@),
                Wish::CancelRefresh,
            ),
            _ => (self, Wish::Nothing),
        }
    }

    /// What a key does while a query is typed.
    pub open spec fn key_on_search(self, key: KeyPress) -> (State, Wish) {
        match key.code {
            KeyCode::Esc => (State { searching: false, ..self }, Wish::Nothing),
            KeyCode::Enter => self.search_wanted(),
            _ => (
                State { search_query: typed(self.search_query, key), ..self },
                Wish::Nothing,
            ),
        }
    }

    /// What a key does while a filter is typed.
    pub open spec fn key_on_filter(self, key: KeyPress) -> (State, Wish) {
        let next = match key.code {
            KeyCode::Esc | KeyCode::Enter => State { filtering: false, ..self },
            KeyCode::Backspace | KeyCode::Char(_) => State {
                filter: typed(self.filter, key),
                selected: 0,
                ..self
            },
            _ => self,
        };
        (next, Wish::Nothing)
    }

    /// The state with another order of the list.
    pub open spec fn sorted_by(self, sort: SortKey, reversed: bool) -> State {
        State { sort, reversed, selected: 0, ..self }.remembering()
    }

    /// What a command does.
    pub open spec fn commanded(self, command: Command) -> (State, Wish) {
        match command {
            Command::Nothing => (self, Wish::Nothing),
            Command::Quit => (self, Wish::Quit),
            Command::CursorDown => (self.moved(1), Wish::Nothing),
            Command::CursorUp => (self.moved(-1), Wish::Nothing),
            Command::Open => (self.opened(), Wish::Nothing),
            Command::OpenParent => (self.parent_opened(), Wish::Nothing),
            Command::TypeFilter => (State { filtering: true, ..self }, Wish::Nothing),
            Command::TypeQuery => (
                State { searching: true, search_query: Seq::empty(), ..self },
                Wish::Nothing,
            ),
            Command::ClearConstraints => (self.unconstrained(), Wish::Nothing),
            Command::Delete => (self.delete_staged(), Wish::Nothing),
            Command::Reveal => self.reveal_wanted(),
            Command::Refresh => self.refresh_wanted(),
            Command::ShowFullPath => (State { showing_full_path: true, ..self }, Wish::Nothing),
            Command::ToggleMark => (self.toggled(), Wish::Nothing),
            Command::MarkVisible => (self.all_marked(), Wish::Nothing),
            Command::UnmarkAll => (
                State { marks: Map::empty(), ..self }.saying("Cleared selection"@),
                Wish::Nothing,
            ),
            Command::SortBy(sort) => (self.sorted_by(sort, self.reversed), Wish::Nothing),
            Command::Reverse => (self.sorted_by(self.sort, !self.reversed), Wish::Nothing),
        }
    }

    /// What a key does.
    pub open spec fn pressed(self, key: KeyPress) -> (State, Wish) {
        if self.showing_full_path {
            self.key_on_full_path(key)
        } else if self.pending_delete is Some {
            self.key_on_delete(key)
        } else if self.active_refresh {
            self.key_on_refresh(key)
        } else if self.searching {
            self.key_on_search(key)
        } else if self.filtering {
            self.key_on_filter(key)
        } else {
            self.commanded(command_of(key.code))
        }
    }

    /// What the mouse does. It does nothing while the user is asked something
    /// or types.
    pub open spec fn scrolled(self, kind: MouseEventKind) -> State {
        if self.pending_delete is Some || self.searching || self.filtering {
            self
        } else {
            match kind {
                MouseEventKind::ScrollDown => self.moved(1),
                MouseEventKind::ScrollUp => self.moved(-1),
                MouseEventKind::Other => self,
            }
        }
    }
}

/// What a key asks for in the list.
pub open spec fn command_of(code: KeyCode) -> Command {
    match code {
        KeyCode::Esc => Command::Quit,
        KeyCode::Enter | KeyCode::Right => Command::Open,
        KeyCode::Backspace | KeyCode::Left => Command::OpenParent,
        KeyCode::Up => Command::CursorUp,
        KeyCode::Down => Command::CursorDown,
        KeyCode::Char('q') => Command::Quit,
        KeyCode::Char('j') => Command::CursorDown,
        KeyCode::Char('k') => Command::CursorUp,
        KeyCode::Char('l') => Command::Open,
        KeyCode::Char('h') => Command::OpenParent,
        KeyCode::Char('/') => Command::TypeFilter,
        KeyCode::Char('?') => Command::TypeQuery,
        KeyCode::Char('c') => Command::ClearConstraints,
        KeyCode::Char('d') => Command::Delete,
        KeyCode::Char('o') => Command::Reveal,
        KeyCode::Char('R') => Command::Refresh,
        KeyCode::Char('p') => Command::ShowFullPath,
        KeyCode::Char(' ') => Command::ToggleMark,
        KeyCode::Char('a') => Command::MarkVisible,
        KeyCode::Char('u') => Command::UnmarkAll,
        KeyCode::Char('s') => Command::SortBy(SortKey::Size),
        KeyCode::Char('n') => Command::SortBy(SortKey::Name),
        KeyCode::Char('t') => Command::SortBy(SortKey::Kind),
        KeyCode::Char('r') => Command::Reverse,
        _ => Command::Nothing,
    }
}

/// A text after a key was typed into it: a character is added, or the text
/// loses its last one, or all of it.
pub open spec fn typed(text: Seq<char>, key: KeyPress) -> Seq<char> {
    match key.code {
        KeyCode::Backspace => if text.len() > 0 {
            text.drop_last()
        } else {
            text
        },
        KeyCode::Char(c) => if c == 'u' && key.control {
            Seq::empty()
        } else {
            text.push(c)
        },
        _ => text,
    }
}

/// The entries to delete that do not lie below others of them.
pub open spec fn topmost(list: Seq<Target>) -> Seq<Target> {
    let roots = crate::ops::roots_of(target_paths(list));
    list.filter(|t: Target| path_among(t.path, roots))
}

/// The paths of entries to delete.
pub open spec fn target_paths(list: Seq<Target>) -> Seq<Seq<u8>> {
    list.map_values(|t: Target| t.path)
}

/// Whether a path is one of several.
pub open spec fn path_among(path: Seq<u8>, list: Seq<Seq<u8>>) -> bool {
    exists|i: int|
        0 <= i < list.len() && crate::paths::parts(#[trigger] list[i]) == crate::paths::parts(path)
}

/// Marks with those of list entries added, one after the other.
pub open spec fn with_marks(marks: Map<Seq<Seq<u8>>, Target>, list: Seq<Item>) -> Map<
    Seq<Seq<u8>>,
    Target,
>
    decreases list.len(),
{
    if list.len() == 0 {
        marks
    } else {
        with_marks(marks, list.drop_last()).insert(
            key_of(list.last().path),
            target_of(list.last()),
        )
    }
}

/// Whether a path lies at or below a deleted entry.
pub open spec fn within_gone(key: Seq<Seq<u8>>, gone: Seq<Target>) -> bool {
    exists|i: int| 0 <= i < gone.len() && key_of((#[trigger] gone[i]).path).is_prefix_of(key)
}

/// The paths that deleted entries leave.
pub open spec fn outside_of(gone: Seq<Target>) -> spec_fn(Seq<Seq<u8>>) -> bool {
    |key: Seq<Seq<u8>>| !within_gone(key, gone)
}

/// Whether a tree has an entry with the given path.
pub open spec fn has_path(root: Tree, key: Seq<Seq<u8>>) -> bool {
    exists|i: int|
        0 <= i < crate::tree::preorder(root).len() && key_of(
            (#[trigger] crate::tree::preorder(root)[i]).path,
        ) == key
}

/// The paths that a tree has.
pub open spec fn found_in(root: Tree) -> spec_fn(Seq<Seq<u8>>) -> bool {
    |key: Seq<Seq<u8>>| has_path(root, key)
}

/// The positions of those of several paths that a tree has.
pub open spec fn located_paths(root: Tree, paths: Seq<Seq<u8>>) -> Seq<Seq<usize>>
    decreases paths.len(),
{
    if paths.len() == 0 {
        Seq::empty()
    } else {
        let earlier = located_paths(root, paths.drop_last());
        match crate::tree::located(root, paths.last()) {
            Some(indices) => earlier.push(indices),
            None => earlier,
        }
    }
}

/// What to say of a failure with an entry.
pub open spec fn failure_text(path: Seq<u8>, error: Seq<char>) -> Seq<char> {
    crate::paths::shown(path) + ": "@ + error
}

/// The contents of attempts to do something with entries. Each one that failed
/// has a message.
pub open spec fn attempts_of(v: Seq<(DeleteTarget, Option<String>)>) -> Seq<
    (Target, Option<Seq<char>>),
> {
    v.map_values(|a: (DeleteTarget, Option<String>)| (a.0@, crate::tree::optional_text(a.1)))
}

/// The entries with which attempts did not fail.
pub open spec fn done_with(attempts: Seq<(Target, Option<Seq<char>>)>) -> Seq<Target> {
    attempts.filter(|a: (Target, Option<Seq<char>>)| a.1 is None).map_values(
        |a: (Target, Option<Seq<char>>)| a.0,
    )
}

/// What to say of the attempts that failed.
pub open spec fn failures_of(attempts: Seq<(Target, Option<Seq<char>>)>) -> Seq<Seq<char>> {
    attempts.filter(|a: (Target, Option<Seq<char>>)| a.1 is Some).map_values(
        |a: (Target, Option<Seq<char>>)| failure_text(a.0.path, a.1->0),
    )
}

/// What became of attempts to move entries to the trash.
pub open spec fn trash_report(attempts: Seq<(Target, Option<Seq<char>>)>) -> TrashReport {
    TrashReport {
        total: attempts.len() as usize,
        removed: done_with(attempts).len() as usize,
        gone: done_with(attempts),
        errors: failures_of(attempts),
    }
}

/// What became of a search for `query`: what it found, or why it failed.
pub open spec fn search_report(query: Seq<char>, found: Result<SearchHits, String>) -> SearchReport {
    match found {
        Ok(hits) => SearchReport {
            query,
            paths: crate::search::hit_paths(hits.hits@),
            total_matched: hits.total_matched,
            error: None,
        },
        Err(error) => SearchReport {
            query,
            paths: Seq::empty(),
            total_matched: 0,
            error: Some(error@),
        },
    }
}

} // verus!
