//! The interactive browser: how its state answers keys, the mouse and the
//! work that runs beside it.

use vstd::prelude::*;

use crate::children::{sorted_children, SortKey};
use crate::ops::root_paths;
use crate::path_map::PathMap;
use crate::paths::EntryPath;
use crate::removal::{adjust_indices_after_removals, remove_targets_from_tree, DeleteTarget};
#[allow(unused_imports)]
use crate::removal::Target;
use crate::search::SearchHits;
use crate::state::{
    Action, App, Command, DeleteOutcome, KeyCode, KeyPress, MouseEventKind, Received, RefreshOutcome,
    SearchEntry, SearchOutcome, SearchView, VisibleItem,
};
#[allow(unused_imports)]
use crate::state::{Item, State};
use crate::text::{append_decimal, trim};
use crate::tree::{
    find_by_path, find_indices_by_path, follow_indices, node_at_indices, replace_node_at_indices,
    sanitize_indices, EntryKind, EntryNode,
};
#[allow(unused_imports)]
use crate::tree::Tree;

verus! {

/// An entry as it is shown in the list.
fn visible_item_from_node(node: &EntryNode, indices: Vec<usize>) -> (res: VisibleItem)
    ensures
        res@ == crate::state::item_of(node@, indices@),
{
    VisibleItem {
        path: node.path.clone(),
        indices,
        name: node.name.clone(),
        kind: node.kind,
        size: node.size,
        file_count: node.file_count,
        dir_count: node.dir_count,
        error_count: node.error_count,
    }
}

/// What an entry of the list is to be deleted as.
fn delete_target_for_visible_item(item: &VisibleItem) -> (res: DeleteTarget)
    ensures
        res@ == crate::state::target_of(item@),
{
    DeleteTarget {
        path: item.path.clone(),
        indices: vstd::slice::slice_to_vec(item.indices.as_slice()),
        size: item.size,
        file_count: item.file_count,
        dir_count: item.dir_count,
        error_count: item.error_count,
    }
}

/// The place of the first child that has the given path.
fn child_position(node: &EntryNode, path: &EntryPath) -> (res: usize)
    ensures
        res == crate::state::child_index(node@.children, path@),
{
    broadcast use crate::tree::lemma_children;

    let ghost all = node@.children;
    let mut i: usize = 0;
    assert(all.skip(0) =~= all);
    while i < node.children.len()
        invariant
            all == node@.children,
            all.len() == node.children@.len(),
            i <= all.len(),
            crate::state::child_index(all, path@) == i + crate::state::child_index(
                all.skip(i as int),
                path@,
            ),
        decreases all.len() - i,
    {
        proof {
            assert(all.skip(i as int)[0] == node.children@[i as int]@);
            assert(all.skip(i as int).drop_first() =~= all.skip(i + 1));
        }
        if node.children[i].path.same_path(path) {
            return i;
        }
        i = i + 1;
    }
    i
}

/// A text with a number in its middle.
fn counting_text(before: &str, n: usize, after: &str) -> (res: String)
    ensures
        res@ == before@ + crate::text::decimal(n as nat) + after@,
{
    let mut out = before.to_owned();
    append_decimal(&mut out, n as u64);
    out.append(after);
    out
}

/// What to say of a failure with an entry.
pub fn failure_message(path: &EntryPath, error: &str) -> (res: String)
    ensures
        res@ == crate::state::failure_text(path@, error@),
{
    let mut out = path.display();
    out.append(": ");
    out.append(error);
    out
}

fn clone_targets(list: &Vec<&DeleteTarget>) -> (res: Vec<DeleteTarget>)
    ensures
        res@.len() == list@.len(),
        forall|i: int| 0 <= i < res@.len() ==> (#[trigger] res@[i])@ == list@[i]@,
{
    let mut out: Vec<DeleteTarget> = Vec::with_capacity(list.len());
    let mut i: usize = 0;
    while i < list.len()
        invariant
            i <= list@.len(),
            out@.len() == i,
            forall|k: int| 0 <= k < i ==> (#[trigger] out@[k])@ == list@[k]@,
        decreases list@.len() - i,
    {
        out.push(list[i].clone());
        i = i + 1;
    }
    out
}

/// Whether a path is one of several.
fn path_in(path: &EntryPath, list: &Vec<EntryPath>) -> (res: bool)
    ensures
        res == crate::state::path_among(path@, crate::ops::path_views(list@)),
{
    let ghost views = crate::ops::path_views(list@);
    let mut i: usize = 0;
    while i < list.len()
        invariant
            views == crate::ops::path_views(list@),
            i <= list@.len(),
            forall|k: int|
                0 <= k < i ==> crate::paths::parts(#[trigger] views[k]) != crate::paths::parts(
                    path@,
                ),
        decreases list@.len() - i,
    {
        assert(views[i as int] == list@[i as int]@);
        if list[i].same_path(path) {
            return true;
        }
        i = i + 1;
    }
    false
}

/// The entries to delete that do not lie below others of them.
fn topmost_targets(list: Vec<DeleteTarget>) -> (res: Vec<DeleteTarget>)
    ensures
        crate::removal::targets(res@) == crate::state::topmost(crate::removal::targets(list@)),
{
    let ghost all = crate::removal::targets(list@);
    let mut paths: Vec<EntryPath> = Vec::with_capacity(list.len());
    let mut i: usize = 0;
    while i < list.len()
        invariant
            i <= list@.len(),
            paths@.len() == i,
            forall|k: int| 0 <= k < i ==> (#[trigger] paths@[k])@ == list@[k].path@,
        decreases list@.len() - i,
    {
        paths.push(list[i].path.clone());
        i = i + 1;
    }
    assert(crate::ops::path_views(paths@) =~= crate::state::target_paths(all));
    let roots = root_paths(paths);
    let ghost f = |t: Target|
        crate::state::path_among(t.path, crate::ops::path_views(roots@));
    let mut out: Vec<DeleteTarget> = Vec::new();
    let mut n: usize = 0;
    proof {
        reveal(Seq::filter);
        assert(all.take(0).filter(f) =~= Seq::<Target>::empty());
        assert(crate::removal::targets(out@) =~= Seq::<Target>::empty());
    }
    while n < list.len()
        invariant
            all == crate::removal::targets(list@),
            f == (|t: Target|
                crate::state::path_among(t.path, crate::ops::path_views(roots@))),
            n <= list@.len(),
            crate::removal::targets(out@) == all.take(n as int).filter(f),
        decreases list@.len() - n,
    {
        proof {
            reveal(Seq::filter);
            assert(all.take(n + 1).drop_last() =~= all.take(n as int));
            assert(all.take(n + 1).last() == list@[n as int]@);
        }
        if path_in(&list[n].path, &roots) {
            let ghost before = out@;
            out.push(list[n].clone());
            assert(crate::removal::targets(out@) =~= crate::removal::targets(before).push(
                list@[n as int]@,
            ));
        }
        n = n + 1;
    }
    assert(all.take(n as int) =~= all);
    out
}

/// Whether a path lies at or below a deleted entry.
fn path_gone(path: &EntryPath, removed: &Vec<DeleteTarget>) -> (res: bool)
    ensures
        res == crate::state::within_gone(
            crate::paths::parts(path@),
            crate::removal::targets(removed@),
        ),
{
    let ghost gone = crate::removal::targets(removed@);
    let mut i: usize = 0;
    while i < removed.len()
        invariant
            gone == crate::removal::targets(removed@),
            i <= removed@.len(),
            forall|k: int|
                0 <= k < i ==> !crate::state::key_of((#[trigger] gone[k]).path).is_prefix_of(
                    crate::paths::parts(path@),
                ),
        decreases removed@.len() - i,
    {
        assert(gone[i as int] == removed@[i as int]@);
        if path.starts_with(&removed[i].path) {
            return true;
        }
        i = i + 1;
    }
    false
}

/// The first entry with a path is there where any is.
proof fn lemma_first_at(ts: Seq<Tree>, path: Seq<u8>)
    ensures
        crate::tree::first_at(ts, path) is Some <==> exists|i: int|
            0 <= i < ts.len() && crate::state::key_of((#[trigger] ts[i]).path)
                == crate::paths::parts(path),
    decreases ts.len(),
{
    if ts.len() > 0 && crate::paths::parts(ts[0].path) != crate::paths::parts(path) {
        let rest = ts.drop_first();
        lemma_first_at(rest, path);
        if exists|i: int|
            0 <= i < ts.len() && crate::state::key_of((#[trigger] ts[i]).path)
                == crate::paths::parts(path) {
            let i = choose|i: int|
                0 <= i < ts.len() && crate::state::key_of((#[trigger] ts[i]).path)
                    == crate::paths::parts(path);
            assert(rest[i - 1] == ts[i]);
        }
        if exists|i: int|
            0 <= i < rest.len() && crate::state::key_of((#[trigger] rest[i]).path)
                == crate::paths::parts(path) {
            let i = choose|i: int|
                0 <= i < rest.len() && crate::state::key_of((#[trigger] rest[i]).path)
                    == crate::paths::parts(path);
            assert(rest[i] == ts[i + 1]);
        }
    } else if ts.len() > 0 {
        assert(crate::state::key_of(ts[0].path) == crate::paths::parts(path));
    }
}

/// Whether a tree has an entry with the given path.
fn path_found(root: &EntryNode, path: &EntryPath) -> (res: bool)
    ensures
        res == crate::state::has_path(root@, crate::paths::parts(path@)),
{
    proof {
        lemma_first_at(crate::tree::preorder(root@), path@);
    }
    find_by_path(root, path).is_some()
}

impl App {
    /// The browser at the root of a tree.
    pub fn new(root: EntryNode) -> (res: App)
        ensures
            res@ == crate::state::started(root@),
    {
        let res = App {
            root,
            path: Vec::new(),
            selected: 0,
            sort: SortKey::Size,
            reversed: false,
            filter: String::new(),
            filtering: false,
            search_query: String::new(),
            searching: false,
            search_results: None,
            active_search: false,
            selected_targets: PathMap::new(),
            cursor_by_path: PathMap::new(),
            pending_delete: None,
            active_delete: false,
            active_refresh: false,
            showing_full_path: false,
            status: None,
        };
        assert(res@ =~= crate::state::started(root@));
        res
    }

    /// The directory that is shown.
    pub fn current_node(&self) -> (res: &EntryNode)
        ensures
            res@ == self@.current(),
    {
        follow_indices(&self.root, self.path.as_slice())
    }

    /// The list that is shown.
    pub fn visible_items(&self) -> (res: Vec<VisibleItem>)
        ensures
            crate::state::items(res@) == self@.visible(),
    {
        match &self.search_results {
            Some(results) => self.result_items(results),
            None => self.child_items(),
        }
    }

    fn result_items(&self, results: &SearchView) -> (res: Vec<VisibleItem>)
        ensures
            crate::state::items(res@) == crate::state::result_items(self.root@, results@.entries),
    {
        let ghost entries = results@.entries;
        let mut out: Vec<VisibleItem> = Vec::new();
        let mut i: usize = 0;
        proof {
            assert(entries.take(0) =~= Seq::<Seq<usize>>::empty());
            assert(crate::state::items(out@) =~= Seq::<Item>::empty());
        }
        while i < results.entries.len()
            invariant
                entries == results@.entries,
                entries.len() == results.entries@.len(),
                i <= entries.len(),
                crate::state::items(out@) == crate::state::result_items(
                    self.root@,
                    entries.take(i as int),
                ),
            decreases entries.len() - i,
        {
            let indices = &results.entries[i].indices;
            proof {
                assert(entries[i as int] == indices@);
                assert(entries.take(i + 1).drop_last() =~= entries.take(i as int));
                assert(entries.take(i + 1).last() == indices@);
            }
            if let Some(node) = node_at_indices(&self.root, indices.as_slice()) {
                let ghost before = out@;
                out.push(
                    visible_item_from_node(node, vstd::slice::slice_to_vec(indices.as_slice())),
                );
                assert(crate::state::items(out@) =~= crate::state::items(before).push(
                    crate::state::item_of(node@, indices@),
                ));
            }
            i = i + 1;
        }
        assert(entries.take(i as int) =~= entries);
        out
    }

    fn child_items(&self) -> (res: Vec<VisibleItem>)
        requires
            self.search_results is None,
        ensures
            crate::state::items(res@) == self@.visible(),
    {
        broadcast use crate::tree::lemma_children;

        let node = self.current_node();
        let children = sorted_children(node, self.sort, self.reversed, self.filter.as_str());
        let ghost listed = crate::children::listed_children(
            node@,
            self.sort,
            self.reversed,
            self.filter@,
        );
        let ghost shown = self@.visible();
        proof {
            crate::children::lemma_listed_children(
                node@,
                self.sort,
                self.reversed,
                self.filter@,
            );
            assert(crate::tree::borrowed(children@).len() == children@.len());
            assert forall|k: int| 0 <= k < listed.len() implies node@.children.contains(
                #[trigger] listed[k],
            ) by {
                assert(listed.contains(listed[k]));
            }
        }
        let mut out: Vec<VisibleItem> = Vec::with_capacity(children.len());
        let mut i: usize = 0;
        while i < children.len()
            invariant
                node@ == self@.current(),
                crate::tree::borrowed(children@) == listed,
                listed.len() == children@.len(),
                forall|k: int|
                    0 <= k < listed.len() ==> node@.children.contains(#[trigger] listed[k]),
                shown.len() == listed.len(),
                forall|k: int|
                    0 <= k < listed.len() ==> #[trigger] shown[k] == crate::state::item_of(
                        listed[k],
                        self.path@.push(
                            crate::state::child_index(node@.children, listed[k].path) as usize,
                        ),
                    ),
                i <= children@.len(),
                out@.len() == i,
                forall|k: int| 0 <= k < i ==> (#[trigger] out@[k])@ == shown[k],
            decreases children@.len() - i,
        {
            let child = children[i];
            assert(crate::tree::borrowed(children@)[i as int] == child@);
            let at = child_position(node, &child.path);
            let mut indices = vstd::slice::slice_to_vec(self.path.as_slice());
            indices.push(at);
            out.push(visible_item_from_node(child, indices));
            i = i + 1;
        }
        assert(crate::state::items(out@) =~= shown);
        out
    }

    /// The number of entries in the list.
    pub fn visible_count(&self) -> (res: usize)
        ensures
            res == self@.visible().len(),
    {
        let list = self.visible_items();
        assert(crate::state::items(list@).len() == list@.len());
        list.len()
    }

    /// The entry of the list under the cursor.
    pub fn selected_item(&self) -> (res: Option<VisibleItem>)
        ensures
            match res {
                Some(item) => self@.selected_item() == Some(item@),
                None => self@.selected_item() is None,
            },
    {
        let mut list = self.visible_items();
        let ghost all = list@;
        assert(crate::state::items(all).len() == all.len());
        if self.selected < list.len() {
            assert(crate::state::items(all)[self.selected as int] == all[self.selected as int]@);
            Some(list.swap_remove(self.selected))
        } else {
            None
        }
    }

    /// What the entry under the cursor is to be deleted as.
    pub fn selected_target(&self) -> (res: Option<DeleteTarget>)
        ensures
            match (res, self@.selected_item()) {
                (Some(target), Some(item)) => target@ == crate::state::target_of(item),
                (None, None) => true,
                _ => false,
            },
    {
        match self.selected_item() {
            Some(item) => Some(delete_target_for_visible_item(&item)),
            None => None,
        }
    }

    fn save_current_cursor(&mut self)
        ensures
            final(self)@ == old(self)@.remembering(),
    {
        let path = self.current_node().path.clone();
        self.cursor_by_path.insert(path, self.selected);
        assert(self@ =~= old(self)@.remembering());
    }

    fn restore_current_cursor(&mut self)
        ensures
            final(self)@ == old(self)@.returning(),
    {
        let wanted: usize = match self.cursor_by_path.get(&self.current_node().path) {
            Some(at) => *at,
            None => 0,
        };
        let count = self.visible_count();
        self.selected = if count == 0 {
            0
        } else if wanted < count {
            wanted
        } else {
            count - 1
        };
        assert(self@ =~= old(self)@.returning());
    }

    /// Moves the cursor, but not out of the list.
    pub fn move_selection(&mut self, delta: isize)
        ensures
            final(self)@ == old(self)@.moved(delta as int),
    {
        let count = self.visible_count();
        if count == 0 {
            self.selected = 0;
            assert(self@ =~= old(self)@.moved(delta as int));
            return;
        }
        self.selected = if delta >= 0 {
            let by = delta as usize;
            if self.selected >= count || count - self.selected <= by {
                count - 1
            } else {
                self.selected + by
            }
        } else {
            let by: usize = (-(delta + 1)) as usize;
            if self.selected <= by {
                0
            } else if self.selected - by - 1 < count {
                self.selected - by - 1
            } else {
                count - 1
            }
        };
        let ghost to = self@;
        self.save_current_cursor();
        proof {
            let at = old(self)@.selected + delta;
            let wanted = State {
                selected: (if at < 0 {
                    0
                } else if at < count {
                    at
                } else {
                    count - 1
                }) as usize,
                ..old(self)@
            };
            assert(to =~= wanted);
        }
    }

    /// Takes filter and search away.
    pub fn clear_constraints(&mut self)
        ensures
            final(self)@ == old(self)@.unconstrained(),
    {
        let had_filter = !self.filter.as_str().is_empty();
        let had_search = self.search_results.is_some();
        self.filter = String::new();
        self.filtering = false;
        self.search_query = String::new();
        self.searching = false;
        self.search_results = None;
        self.selected = 0;
        let text = if had_filter && had_search {
            "Cleared filter and search"
        } else if had_filter {
            "Cleared filter"
        } else if had_search {
            "Cleared search"
        } else {
            "No filter or search to clear"
        };
        self.status = Some(text.to_owned());
        assert(self@ =~= old(self)@.unconstrained());
    }

    /// Opens the directory under the cursor.
    pub fn open_selected(&mut self)
        ensures
            final(self)@ == old(self)@.opened(),
    {
        let item = match self.selected_item() {
            Some(item) => item,
            None => {
                return;
            },
        };
        self.save_current_cursor();
        if item.kind == EntryKind::Directory {
            self.path = item.indices;
            self.filter = String::new();
            self.search_results = None;
            let ghost there = self@;
            self.restore_current_cursor();
            proof {
                let kept = old(self)@.remembering();
                assert(there =~= State {
                    path: item@.indices,
                    filter: Seq::empty(),
                    search_results: None,
                    ..kept
                });
            }
        }
    }

    /// Opens the parent of the directory that is shown.
    pub fn open_parent(&mut self)
        ensures
            final(self)@ == old(self)@.parent_opened(),
    {
        self.save_current_cursor();
        if self.path.len() > 0 {
            let _ = self.path.pop();
            self.filter = String::new();
            let ghost there = self@;
            self.restore_current_cursor();
            proof {
                let kept = old(self)@.remembering();
                assert(there =~= State {
                    path: old(self)@.path.drop_last(),
                    filter: Seq::empty(),
                    ..kept
                });
            }
        }
    }

    /// What an operation works on: the marked entries, without those below
    /// other marked ones, or else the entry under the cursor.
    pub fn operation_targets(&self) -> (res: Vec<DeleteTarget>)
        ensures
            crate::removal::targets(res@) == self@.operation_targets(),
    {
        proof {
            lemma_marks_empty(self.selected_targets@);
        }
        if self.selected_targets.is_empty() {
            let mut out: Vec<DeleteTarget> = Vec::new();
            if let Some(target) = self.selected_target() {
                out.push(target);
            }
            assert(crate::removal::targets(out@) =~= self@.operation_targets());
            return out;
        }
        let values = self.selected_targets.values();
        let list = clone_targets(&values);
        proof {
            assert(self@.marks.dom() =~= self.selected_targets@.dom());
            let keys = crate::path_map::ordered_keys(self.selected_targets@.dom());
            assert forall|i: int| 0 <= i < list@.len() implies crate::removal::targets(list@)[i]
                == self@.marked()[i] by {
                assert(keys.to_set().contains(keys[i]));
            }
            assert(crate::removal::targets(list@) =~= self@.marked());
        }
        topmost_targets(list)
    }

    /// Sets the mark of the entry under the cursor, or takes it away.
    pub fn toggle_selected(&mut self)
        ensures
            final(self)@ == old(self)@.toggled(),
    {
        let target = match self.selected_target() {
            Some(target) => target,
            None => {
                self.status = Some("Nothing selected".to_owned());
                assert(self@ =~= old(self)@.toggled());
                return;
            },
        };
        let ghost before = self.selected_targets@;
        let shown = target.path.display();
        if self.selected_targets.remove(&target.path) {
            let mut text = "Unmarked ".to_owned();
            text.append(shown.as_str());
            self.status = Some(text);
        } else {
            self.selected_targets.insert(target.path.clone(), target);
            let mut text = "Marked ".to_owned();
            text.append(shown.as_str());
            self.status = Some(text);
        }
        proof {
            assert(before.remove(crate::paths::parts(target@.path)).dom() =~= before.dom().remove(
                crate::paths::parts(target@.path),
            ));
            assert(self@.marks =~= old(self)@.toggled().marks);
            assert(self@ =~= old(self)@.toggled());
        }
    }

    /// Marks every entry of the list.
    pub fn select_visible(&mut self)
        ensures
            final(self)@ == old(self)@.all_marked(),
    {
        let list = self.visible_items();
        let ghost all = crate::state::items(list@);
        let ghost start = crate::state::marks_of(self.selected_targets@);
        let mut i: usize = 0;
        assert(all.take(0) =~= Seq::<Item>::empty());
        while i < list.len()
            invariant
                all == crate::state::items(list@),
                i <= list@.len(),
                self@ == (State {
                    marks: crate::state::with_marks(start, all.take(i as int)),
                    ..old(self)@
                }),
            decreases list@.len() - i,
        {
            let target = delete_target_for_visible_item(&list[i]);
            proof {
                assert(all.take(i + 1).drop_last() =~= all.take(i as int));
                assert(all.take(i + 1).last() == list@[i as int]@);
            }
            let ghost before = self@;
            self.selected_targets.insert(target.path.clone(), target);
            proof {
                assert(self@.marks =~= before.marks.insert(
                    crate::paths::parts(target@.path),
                    target@,
                ));
                assert(self@ =~= State {
                    marks: crate::state::with_marks(start, all.take(i + 1)),
                    ..old(self)@
                });
            }
            i = i + 1;
        }
        assert(all.take(i as int) =~= all);
        self.status = Some(counting_text("Marked ", list.len(), " visible item(s)"));
        assert(self@ =~= old(self)@.all_marked());
    }

    /// Asks the user whether to delete.
    pub fn stage_delete(&mut self)
        ensures
            final(self)@ == old(self)@.delete_staged(),
    {
        if self.active_delete {
            self.status = Some("A trash operation is already running".to_owned());
        } else if self.active_refresh {
            self.status = Some("A refresh is already running".to_owned());
        } else {
            let list = self.operation_targets();
            assert(crate::removal::targets(list@).len() == list@.len());
            if list.len() == 0 {
                self.status = Some("Nothing selected".to_owned());
            } else {
                self.pending_delete = Some(list);
            }
        }
        assert(self@ =~= old(self)@.delete_staged());
    }

    /// Asks for entries to be shown in the file manager.
    pub fn open_targets_in_file_manager(&mut self) -> (res: Action)
        ensures
            (final(self)@, res@) == old(self)@.reveal_wanted(),
    {
        let list = self.operation_targets();
        assert(crate::removal::targets(list@).len() == list@.len());
        if list.len() == 0 {
            self.status = Some("Nothing selected".to_owned());
            assert(self@ =~= old(self)@.reveal_wanted().0);
            Action::Nothing
        } else {
            Action::Reveal(list)
        }
    }

    /// Has the entries deleted that the user was asked about.
    pub fn confirm_delete(&mut self) -> (res: Action)
        ensures
            (final(self)@, res@) == old(self)@.delete_confirmed(),
    {
        match self.pending_delete.take() {
            None => {
                assert(self@ =~= old(self)@);
                Action::Nothing
            },
            Some(list) => {
                self.active_delete = true;
                self.status = Some(
                    counting_text("Moving ", list.len(), " item(s) to trash..."),
                );
                assert(crate::removal::targets(list@).len() == list@.len());
                assert(self@ =~= old(self)@.delete_confirmed().0);
                Action::MoveToTrash(list)
            },
        }
    }

    /// Asks for a new scan of the directory that is shown.
    pub fn start_refresh(&mut self) -> (res: Action)
        ensures
            (final(self)@, res@) == old(self)@.refresh_wanted(),
    {
        let mut action = Action::Nothing;
        if self.active_refresh {
            self.status = Some("A refresh is already running".to_owned());
        } else if self.active_delete {
            self.status = Some("A trash operation is already running".to_owned());
        } else if self.active_search {
            self.status = Some("A search is already running".to_owned());
        } else {
            let path = self.current_node().path.clone();
            action = Action::Refresh(vstd::slice::slice_to_vec(self.path.as_slice()), path);
            self.active_refresh = true;
            self.status = Some("Refreshing current directory...".to_owned());
        }
        assert(self@ =~= old(self)@.refresh_wanted().0);
        action
    }

    /// Asks for a search with the query that was typed.
    pub fn start_search(&mut self) -> (res: Action)
        ensures
            (final(self)@, res@) == old(self)@.search_wanted(),
    {
        let query = trim(self.search_query.as_str());
        let mut action = Action::Nothing;
        if query.as_str().is_empty() {
            self.search_results = None;
            self.searching = false;
            self.status = Some("Cleared search".to_owned());
        } else if self.active_search {
            self.status = Some("Search is already running".to_owned());
        } else {
            let mut text = "Searching descendants for ".to_owned();
            text.append(query.as_str());
            text.append("...");
            let node = self.current_node();
            action = Action::Search(node.path.clone(), node.clone(), query);
            self.active_search = true;
            self.searching = false;
            self.search_results = None;
            self.selected = 0;
            self.status = Some(text);
        }
        assert(self@ =~= old(self)@.search_wanted().0);
        action
    }

    /// Takes note that entries were moved to the trash.
    pub fn apply_delete_outcome(&mut self, outcome: DeleteOutcome)
        ensures
            final(self)@ == old(self)@.trashed(outcome@),
    {
        let ghost gone = crate::removal::targets(outcome.removed_targets@);
        let mut next_path = adjust_indices_after_removals(
            self.path.as_slice(),
            outcome.removed_targets.as_slice(),
        );
        remove_targets_from_tree(&mut self.root, outcome.removed_targets.as_slice());
        sanitize_indices(&self.root, &mut next_path);
        let removed = &outcome.removed_targets;
        let test = |path: &EntryPath| -> (res: bool)
            ensures
                res == !crate::state::within_gone(
                    crate::paths::parts(path@),
                    crate::removal::targets(removed@),
                ),
            { !path_gone(path, removed) };
        self.selected_targets.retain_paths(test, Ghost(crate::state::outside_of(gone)));
        let test = |path: &EntryPath| -> (res: bool)
            ensures
                res == !crate::state::within_gone(
                    crate::paths::parts(path@),
                    crate::removal::targets(removed@),
                ),
            { !path_gone(path, removed) };
        self.cursor_by_path.retain_paths(test, Ghost(crate::state::outside_of(gone)));
        self.path = next_path;
        self.search_results = None;
        let ghost there = self@;
        self.restore_current_cursor();
        let mut text = "Moved ".to_owned();
        append_decimal(&mut text, outcome.removed as u64);
        assert(crate::text::texts(outcome.errors@).len() == outcome.errors@.len());
        if outcome.errors.len() == 0 {
            text.append(" item(s) to trash");
        } else {
            assert(crate::text::texts(outcome.errors@)[0] == outcome.errors@[0]@);
            text.append("/");
            append_decimal(&mut text, outcome.total as u64);
            text.append("; first error: ");
            text.append(outcome.errors[0].as_str());
        }
        self.status = Some(text);
        proof {
            let root = crate::removal::removed_all(old(self)@.root, gone);
            assert(there =~= State {
                root,
                path: crate::tree::valid_prefix(
                    root,
                    crate::removal::adjusted_in_turn(old(self)@.path, gone),
                ),
                marks: old(self)@.marks.restrict(Set::new(crate::state::outside_of(gone))),
                cursors: old(self)@.cursors.restrict(Set::new(crate::state::outside_of(gone))),
                search_results: None,
                ..old(self)@
            });
            assert(self@ =~= old(self)@.trashed(outcome@));
        }
    }

    /// Takes note of a new scan of a directory.
    pub fn apply_refresh_outcome(&mut self, outcome: RefreshOutcome)
        ensures
            final(self)@ == old(self)@.refreshed(outcome@),
    {
        let refreshed = match outcome.result {
            Ok(refreshed) => refreshed,
            Err(_) => {
                self.status = Some("Refresh canceled".to_owned());
                assert(self@ =~= old(self)@.refreshed(outcome@));
                return;
            },
        };
        if !replace_node_at_indices(&mut self.root, outcome.indices.as_slice(), refreshed) {
            self.status = Some("Refresh target no longer exists".to_owned());
            assert(self@ =~= old(self)@.refreshed(outcome@));
            return;
        }
        sanitize_indices(&self.root, &mut self.path);
        let root = &self.root;
        let test = |path: &EntryPath| -> (res: bool)
            ensures
                res == crate::state::has_path(root@, crate::paths::parts(path@)),
            { path_found(root, path) };
        self.selected_targets.retain_paths(test, Ghost(crate::state::found_in(root@)));
        let test = |path: &EntryPath| -> (res: bool)
            ensures
                res == crate::state::has_path(root@, crate::paths::parts(path@)),
            { path_found(root, path) };
        self.cursor_by_path.retain_paths(test, Ghost(crate::state::found_in(root@)));
        self.search_results = None;
        let ghost there = self@;
        self.restore_current_cursor();
        self.status = Some("Refreshed current directory".to_owned());
        proof {
            let new = there.root;
            assert(there =~= State {
                root: new,
                path: crate::tree::valid_prefix(new, old(self)@.path),
                marks: old(self)@.marks.restrict(Set::new(crate::state::found_in(new))),
                cursors: old(self)@.cursors.restrict(Set::new(crate::state::found_in(new))),
                search_results: None,
                ..old(self)@
            });
            assert(self@ =~= old(self)@.refreshed(outcome@));
        }
    }

    /// Takes note of what a search found.
    pub fn apply_search_outcome(&mut self, outcome: SearchOutcome)
        ensures
            final(self)@ == old(self)@.searched(outcome@),
    {
        if let Some(error) = &outcome.error {
            let mut text = "Search failed: ".to_owned();
            text.append(error.as_str());
            self.status = Some(text);
            assert(self@ =~= old(self)@.searched(outcome@));
            return;
        }
        let entries = locate_paths(&self.root, &outcome.paths);
        let shown = entries.len();
        assert(crate::state::entry_indices(entries@).len() == entries@.len());
        let mut text = "Search matched ".to_owned();
        append_decimal(&mut text, outcome.total_matched as u64);
        text.append(" item(s), ");
        if shown < outcome.total_matched {
            text.append("showing first ");
        } else {
            text.append("showing ");
        }
        append_decimal(&mut text, shown as u64);
        self.search_results = Some(
            SearchView {
                query: outcome.query,
                entries,
                total_matched: outcome.total_matched,
            },
        );
        self.selected = 0;
        self.status = Some(text);
        assert(self@ =~= old(self)@.searched(outcome@));
    }

    /// Takes note of attempts to show entries in the file manager.
    pub fn report_revealed(&mut self, attempts: Vec<(DeleteTarget, Option<String>)>)
        ensures
            final(self)@ == old(self)@.revealed(crate::state::attempts_of(attempts@)),
    {
        let total = attempts.len();
        let ghost model = crate::state::attempts_of(attempts@);
        assert(model.len() == total);
        let (done, errors) = tally(attempts);
        assert(crate::removal::targets(done@).len() == done@.len());
        assert(crate::text::texts(errors@).len() == errors@.len());
        let mut text = "Opened ".to_owned();
        append_decimal(&mut text, done.len() as u64);
        if errors.len() == 0 {
            text.append(" item(s) in file manager");
        } else {
            assert(crate::text::texts(errors@)[0] == errors@[0]@);
            text.append("/");
            append_decimal(&mut text, total as u64);
            text.append("; first error: ");
            text.append(errors[0].as_str());
        }
        self.status = Some(text);
        assert(self@ =~= old(self)@.revealed(model));
    }

    /// Takes note of what was heard of entries on their way to the trash, if
    /// any are.
    pub fn poll_delete(&mut self, received: Received<DeleteOutcome>)
        ensures
            final(self)@ == if old(self)@.active_delete {
                old(self)@.trash_polled(received)
            } else {
                old(self)@
            },
    {
        if self.active_delete {
            match received {
                Received::Outcome(outcome) => {
                    self.active_delete = false;
                    assert(self@ =~= State { active_delete: false, ..old(self)@ });
                    self.apply_delete_outcome(outcome);
                },
                Received::Nothing => {},
                Received::Disconnected => {
                    self.active_delete = false;
                    self.status = Some("Trash operation ended unexpectedly".to_owned());
                    assert(self@ =~= old(self)@.trash_polled(received));
                },
            }
        }
    }

    /// Takes note of what was heard of a new scan, if one runs.
    pub fn poll_refresh(&mut self, received: Received<RefreshOutcome>)
        ensures
            final(self)@ == if old(self)@.active_refresh {
                old(self)@.refresh_polled(received)
            } else {
                old(self)@
            },
    {
        if self.active_refresh {
            match received {
                Received::Outcome(outcome) => {
                    self.active_refresh = false;
                    assert(self@ =~= State { active_refresh: false, ..old(self)@ });
                    self.apply_refresh_outcome(outcome);
                },
                Received::Nothing => {},
                Received::Disconnected => {
                    self.active_refresh = false;
                    self.status = Some("Refresh ended unexpectedly".to_owned());
                    assert(self@ =~= old(self)@.refresh_polled(received));
                },
            }
        }
    }

    /// Takes note of what was heard of a search, if one runs.
    pub fn poll_search(&mut self, received: Received<SearchOutcome>)
        ensures
            final(self)@ == if old(self)@.active_search {
                old(self)@.search_polled(received)
            } else {
                old(self)@
            },
    {
        if self.active_search {
            match received {
                Received::Outcome(outcome) => {
                    self.active_search = false;
                    assert(self@ =~= State { active_search: false, ..old(self)@ });
                    self.apply_search_outcome(outcome);
                },
                Received::Nothing => {},
                Received::Disconnected => {
                    self.active_search = false;
                    self.status = Some("Search ended unexpectedly".to_owned());
                    assert(self@ =~= old(self)@.search_polled(received));
                },
            }
        }
    }

    fn key_on_search(&mut self, key: KeyPress) -> (res: Action)
        ensures
            (final(self)@, res@) == old(self)@.key_on_search(key),
    {
        match key.code {
            KeyCode::Esc => {
                self.searching = false;
                assert(self@ =~= old(self)@.key_on_search(key).0);
                Action::Nothing
            },
            KeyCode::Enter => self.start_search(),
            _ => {
                type_key(&mut self.search_query, key);
                assert(self@ =~= old(self)@.key_on_search(key).0);
                Action::Nothing
            },
        }
    }

    fn key_on_filter(&mut self, key: KeyPress)
        ensures
            final(self)@ == old(self)@.key_on_filter(key).0,
    {
        match key.code {
            KeyCode::Esc | KeyCode::Enter => {
                self.filtering = false;
            },
            KeyCode::Backspace | KeyCode::Char(_) => {
                type_key(&mut self.filter, key);
                self.selected = 0;
            },
            _ => {},
        }
        assert(self@ =~= old(self)@.key_on_filter(key).0);
    }

    fn sort_by(&mut self, sort: SortKey, reversed: bool)
        ensures
            final(self)@ == old(self)@.sorted_by(sort, reversed),
    {
        self.sort = sort;
        self.reversed = reversed;
        self.selected = 0;
        assert(self@ =~= State { sort, reversed, selected: 0, ..old(self)@ });
        self.save_current_cursor();
    }

    /// Carries a command out.
    pub fn run_command(&mut self, command: Command) -> (res: Action)
        ensures
            (final(self)@, res@) == old(self)@.commanded(command),
    {
        match command {
            Command::Nothing => Action::Nothing,
            Command::Quit => Action::Quit,
            Command::CursorDown => {
                self.move_selection(1);
                Action::Nothing
            },
            Command::CursorUp => {
                self.move_selection(-1);
                Action::Nothing
            },
            Command::Open => {
                self.open_selected();
                Action::Nothing
            },
            Command::OpenParent => {
                self.open_parent();
                Action::Nothing
            },
            Command::TypeFilter => {
                self.filtering = true;
                assert(self@ =~= State { filtering: true, ..old(self)@ });
                Action::Nothing
            },
            Command::TypeQuery => {
                self.searching = true;
                self.search_query = String::new();
                assert(self@ =~= State {
                    searching: true,
                    search_query: Seq::empty(),
                    ..old(self)@
                });
                Action::Nothing
            },
            Command::ClearConstraints => {
                self.clear_constraints();
                Action::Nothing
            },
            Command::Delete => {
                self.stage_delete();
                Action::Nothing
            },
            Command::Reveal => self.open_targets_in_file_manager(),
            Command::Refresh => self.start_refresh(),
            Command::ShowFullPath => {
                self.showing_full_path = true;
                assert(self@ =~= State { showing_full_path: true, ..old(self)@ });
                Action::Nothing
            },
            Command::ToggleMark => {
                self.toggle_selected();
                Action::Nothing
            },
            Command::MarkVisible => {
                self.select_visible();
                Action::Nothing
            },
            Command::UnmarkAll => {
                self.clear_selection();
                Action::Nothing
            },
            Command::SortBy(sort) => {
                self.sort_by(sort, self.reversed);
                Action::Nothing
            },
            Command::Reverse => {
                self.sort_by(self.sort, !self.reversed);
                Action::Nothing
            },
        }
    }

    /// Takes all marks away.
    fn clear_selection(&mut self)
        ensures
            final(self)@ == (State { marks: Map::empty(), ..old(self)@ }).saying(
                "Cleared selection"@,
            ),
    {
        self.selected_targets.clear();
        self.status = Some("Cleared selection".to_owned());
        proof {
            lemma_marks_empty(self.selected_targets@);
            assert(self@ =~= State { marks: Map::empty(), ..old(self)@ }.saying(
                "Cleared selection"@,
            ));
        }
    }

    /// Answers a key, with what is to be done for it.
    pub fn handle_key(&mut self, key: KeyPress) -> (res: Action)
        ensures
            (final(self)@, res@) == old(self)@.pressed(key),
    {
        if self.showing_full_path {
            match key.code {
                KeyCode::Esc | KeyCode::Enter | KeyCode::Char('p') | KeyCode::Char('q') => {
                    self.showing_full_path = false;
                },
                _ => {},
            }
            assert(self@ =~= old(self)@.key_on_full_path(key).0);
            Action::Nothing
        } else if self.pending_delete.is_some() {
            match key.code {
                KeyCode::Enter | KeyCode::Char('y') => self.confirm_delete(),
                KeyCode::Esc | KeyCode::Char('n') => {
                    self.pending_delete = None;
                    self.status = Some("Delete canceled".to_owned());
                    assert(self@ =~= old(self)@.key_on_delete(key).0);
                    Action::Nothing
                },
                _ => Action::Nothing,
            }
        } else if self.active_refresh {
            match key.code {
                KeyCode::Esc | KeyCode::Char('q') => {
                    self.status = Some("Canceling refresh...".to_owned());
                    assert(self@ =~= old(self)@.key_on_refresh(key).0);
                    Action::CancelRefresh
                },
                _ => Action::Nothing,
            }
        } else if self.searching {
            self.key_on_search(key)
        } else if self.filtering {
            self.key_on_filter(key);
            Action::Nothing
        } else {
            self.run_command(list_command(key.code))
        }
    }

    /// Answers the mouse.
    pub fn handle_mouse(&mut self, kind: MouseEventKind)
        ensures
            final(self)@ == old(self)@.scrolled(kind),
    {
        if self.pending_delete.is_some() || self.searching || self.filtering {
            return;
        }
        match kind {
            MouseEventKind::ScrollDown => {
                self.move_selection(1);
            },
            MouseEventKind::ScrollUp => {
                self.move_selection(-1);
            },
            MouseEventKind::Other => {},
        }
    }
}

/// What a key asks for in the list.
pub fn list_command(code: KeyCode) -> (res: Command)
    ensures
        res == crate::state::command_of(code),
{
    match code {
        KeyCode::Esc => Command::Quit,
        KeyCode::Enter | KeyCode::Right => Command::Open,
        KeyCode::Backspace | KeyCode::Left => Command::OpenParent,
        KeyCode::Up => Command::CursorUp,
        KeyCode::Down => Command::CursorDown,
        KeyCode::Char(c) => match c {
            'q' => Command::Quit,
            'j' => Command::CursorDown,
            'k' => Command::CursorUp,
            'l' => Command::Open,
            'h' => Command::OpenParent,
            '/' => Command::TypeFilter,
            '?' => Command::TypeQuery,
            'c' => Command::ClearConstraints,
            'd' => Command::Delete,
            'o' => Command::Reveal,
            'R' => Command::Refresh,
            'p' => Command::ShowFullPath,
            ' ' => Command::ToggleMark,
            'a' => Command::MarkVisible,
            'u' => Command::UnmarkAll,
            's' => Command::SortBy(SortKey::Size),
            'n' => Command::SortBy(SortKey::Name),
            't' => Command::SortBy(SortKey::Kind),
            'r' => Command::Reverse,
            _ => Command::Nothing,
        },
        KeyCode::Other => Command::Nothing,
    }
}

/// Types a key into a text.
fn type_key(text: &mut String, key: KeyPress)
    ensures
        final(text)@ == crate::state::typed(old(text)@, key),
{
    match key.code {
        KeyCode::Backspace => {
            let _ = text.pop();
        },
        KeyCode::Char(c) => {
            if c == 'u' && key.control {
                *text = String::new();
            } else {
                text.push(c);
            }
        },
        _ => {},
    }
    assert(text@ =~= crate::state::typed(old(text)@, key));
}

/// The positions of those of several paths that a tree has.
fn locate_paths(root: &EntryNode, paths: &Vec<EntryPath>) -> (res: Vec<SearchEntry>)
    ensures
        crate::state::entry_indices(res@) == crate::state::located_paths(
            root@,
            crate::ops::path_views(paths@),
        ),
{
    let ghost views = crate::ops::path_views(paths@);
    let mut out: Vec<SearchEntry> = Vec::new();
    let mut i: usize = 0;
    proof {
        assert(views.take(0) =~= Seq::<Seq<u8>>::empty());
        assert(crate::state::entry_indices(out@) =~= Seq::<Seq<usize>>::empty());
    }
    while i < paths.len()
        invariant
            views == crate::ops::path_views(paths@),
            i <= paths@.len(),
            crate::state::entry_indices(out@) == crate::state::located_paths(
                root@,
                views.take(i as int),
            ),
        decreases paths@.len() - i,
    {
        proof {
            assert(views.take(i + 1).drop_last() =~= views.take(i as int));
            assert(views.take(i + 1).last() == paths@[i as int]@);
        }
        if let Some(indices) = find_indices_by_path(root, &paths[i]) {
            let ghost before = out@;
            out.push(SearchEntry { indices });
            assert(crate::state::entry_indices(out@) =~= crate::state::entry_indices(before).push(
                indices@,
            ));
        }
        i = i + 1;
    }
    assert(views.take(i as int) =~= views);
    out
}

/// Sorts attempts into the entries they were made with and what to say of
/// those that failed.
fn tally(attempts: Vec<(DeleteTarget, Option<String>)>) -> (res: (Vec<DeleteTarget>, Vec<String>))
    ensures
        crate::removal::targets(res.0@) == crate::state::done_with(
            crate::state::attempts_of(attempts@),
        ),
        crate::text::texts(res.1@) == crate::state::failures_of(
            crate::state::attempts_of(attempts@),
        ),
{
    let ghost all = crate::state::attempts_of(attempts@);
    let ghost good = |a: (Target, Option<Seq<char>>)| a.1 is None;
    let ghost bad = |a: (Target, Option<Seq<char>>)| a.1 is Some;
    let mut done: Vec<DeleteTarget> = Vec::new();
    let mut errors: Vec<String> = Vec::new();
    proof {
        reveal(Seq::filter);
        assert(crate::removal::targets(done@) =~= crate::state::done_with(all.take(0)));
        assert(crate::text::texts(errors@) =~= crate::state::failures_of(all.take(0)));
    }
    for attempt in it: attempts
        invariant
            it.seq() == attempts@,
            all == crate::state::attempts_of(attempts@),
            good == (|a: (Target, Option<Seq<char>>)| a.1 is None),
            bad == (|a: (Target, Option<Seq<char>>)| a.1 is Some),
            crate::removal::targets(done@) == crate::state::done_with(
                all.take(it.index() as int),
            ),
            crate::text::texts(errors@) == crate::state::failures_of(
                all.take(it.index() as int),
            ),
    {
        let ghost i = it.index() as int;
        let ghost here = (attempt.0@, crate::tree::optional_text(attempt.1));
        proof {
            reveal(Seq::filter);
            assert(attempt == attempts@[i]);
            assert(all.take(i + 1).drop_last() =~= all.take(i));
            assert(all.take(i + 1).last() == here);
        }
        let (target, failure) = attempt;
        match failure {
            None => {
                let ghost before = done@;
                done.push(target);
                proof {
                    let earlier = all.take(i).filter(good);
                    assert(crate::removal::targets(done@) =~= crate::removal::targets(before).push(
                        target@,
                    ));
                    assert(crate::state::done_with(all.take(i + 1)) =~= crate::state::done_with(
                        all.take(i),
                    ).push(target@));
                }
            },
            Some(error) => {
                let ghost before = errors@;
                let text = failure_message(&target.path, error.as_str());
                errors.push(text);
                proof {
                    assert(crate::text::texts(errors@) =~= crate::text::texts(before).push(text@));
                    assert(crate::state::failures_of(all.take(i + 1))
                        =~= crate::state::failures_of(all.take(i)).push(text@));
                }
            },
        }
    }
    assert(all.take(all.len() as int) =~= all);
    (done, errors)
}

/// What became of attempts to move entries to the trash.
pub fn trash_outcome(attempts: Vec<(DeleteTarget, Option<String>)>) -> (res: DeleteOutcome)
    ensures
        res@ == crate::state::trash_report(crate::state::attempts_of(attempts@)),
{
    let total = attempts.len();
    let ghost model = crate::state::attempts_of(attempts@);
    assert(model.len() == total);
    let (removed_targets, errors) = tally(attempts);
    assert(crate::removal::targets(removed_targets@).len() == removed_targets@.len());
    DeleteOutcome { total, removed: removed_targets.len(), removed_targets, errors }
}

/// What became of a search: what it found, or why it failed.
pub fn search_outcome(query: String, found: Result<SearchHits, String>) -> (res: SearchOutcome)
    ensures
        res@ == crate::state::search_report(query@, found),
{
    match found {
        Ok(found) => {
            let mut paths: Vec<EntryPath> = Vec::with_capacity(found.hits.len());
            let mut i: usize = 0;
            while i < found.hits.len()
                invariant
                    i <= found.hits@.len(),
                    paths@.len() == i,
                    forall|k: int| 0 <= k < i ==> (#[trigger] paths@[k])@ == found.hits@[k].path@,
                decreases found.hits@.len() - i,
            {
                paths.push(found.hits[i].path.clone());
                i = i + 1;
            }
            assert(crate::ops::path_views(paths@) =~= crate::search::hit_paths(found.hits@));
            SearchOutcome { query, paths, total_matched: found.total_matched, error: None }
        },
        Err(error) => {
            let res = SearchOutcome {
                query,
                paths: Vec::new(),
                total_matched: 0,
                error: Some(error),
            };
            assert(res@.paths =~= Seq::<Seq<u8>>::empty());
            res
        },
    }
}

/// There are marks where there are entries that are marked.
proof fn lemma_marks_empty(m: Map<Seq<Seq<u8>>, DeleteTarget>)
    ensures
        m == Map::<Seq<Seq<u8>>, DeleteTarget>::empty() <==> crate::state::marks_of(m) == Map::<
            Seq<Seq<u8>>,
            Target,
        >::empty(),
{
    let marks = crate::state::marks_of(m);
    assert(marks.dom() =~= m.dom());
    if m == Map::<Seq<Seq<u8>>, DeleteTarget>::empty() {
        assert(marks =~= Map::<Seq<Seq<u8>>, Target>::empty());
    }
    if marks == Map::<Seq<Seq<u8>>, Target>::empty() {
        assert(m =~= Map::<Seq<Seq<u8>>, DeleteTarget>::empty());
    }
}

} // verus!
