//! What holds of the browser's state, whatever happens to it.

use vstd::prelude::*;

use crate::children::SortKey;
#[allow(unused_imports)]
use crate::removal::Target;
use crate::state::{Command, KeyCode, KeyPress, MouseEventKind};
#[allow(unused_imports)]
use crate::state::{Item, Rescan, SearchReport, State, TrashReport, Wish};
#[allow(unused_imports)]
use crate::tree::{EntryKind, Tree};

verus! {

/// Whether a state is as the browser keeps it: the directory that is shown
/// exists, and every mark is kept under the path of its entry.
pub open spec fn orderly(s: State) -> bool {
    &&& crate::tree::countable(s.root)
    &&& crate::tree::node_at(s.root, s.path) is Some
    &&& s.marks.dom().finite()
    &&& forall|k: Seq<Seq<u8>>| #[trigger]
        s.marks.dom().contains(k) ==> crate::state::key_of(s.marks[k].path) == k
}

/// The state in which the browser starts is orderly.
pub proof fn lemma_started(root: Tree)
    requires
        crate::tree::countable(root),
    ensures
        orderly(crate::state::started(root)),
{
}

/// The entry at one more position is a child of the entry before it.
pub(crate) proof fn lemma_node_at_push(t: Tree, indices: Seq<usize>, i: usize)
    requires
        crate::tree::node_at(t, indices) is Some,
    ensures
        crate::tree::node_at(t, indices.push(i)) == {
            let n = crate::tree::node_at(t, indices)->0;
            if i < n.children.len() {
                Some(n.children[i as int])
            } else {
                None
            }
        },
    decreases indices.len(),
{
    let p = indices.push(i);
    if indices.len() == 0 {
        assert(p.drop_first() =~= Seq::<usize>::empty());
        if i < t.children.len() {
            assert(crate::tree::node_at(t.children[i as int], p.drop_first()) == Some(
                t.children[i as int],
            ));
        }
    } else {
        assert(p.drop_first() =~= indices.drop_first().push(i));
        lemma_node_at_push(t.children[indices[0] as int], indices.drop_first(), i);
    }
}

/// Entries of a tree that can be counted can be counted too.
proof fn lemma_countable_below(t: Tree, indices: Seq<usize>)
    requires
        crate::tree::countable(t),
        crate::tree::node_at(t, indices) is Some,
    ensures
        crate::tree::countable(crate::tree::node_at(t, indices)->0),
    decreases indices.len(),
{
    if indices.len() > 0 {
        lemma_countable_below(t.children[indices[0] as int], indices.drop_first());
    }
}

/// The place of a child is that of one with the same path.
proof fn lemma_child_index(ts: Seq<Tree>, t: Tree)
    requires
        ts.contains(t),
    ensures
        crate::state::child_index(ts, t.path) < ts.len(),
        crate::paths::parts(ts[crate::state::child_index(ts, t.path) as int].path)
            == crate::paths::parts(t.path),
    decreases ts.len(),
{
    if crate::paths::parts(ts[0].path) != crate::paths::parts(t.path) {
        let k = choose|k: int| 0 <= k < ts.len() && ts[k] == t;
        assert(ts.drop_first()[k - 1] == t);
        lemma_child_index(ts.drop_first(), t);
    }
}

/// Every entry of the list stands in the tree where the list says, under the
/// path that the list shows.
pub proof fn lemma_visible(s: State, i: int)
    requires
        orderly(s),
        0 <= i < s.visible().len(),
    ensures
        crate::tree::node_at(s.root, s.visible()[i].indices) is Some,
        crate::paths::parts(crate::tree::node_at(s.root, s.visible()[i].indices)->0.path)
            == crate::paths::parts(s.visible()[i].path),
{
    match s.search_results {
        Some(results) => {
            lemma_result_items(s.root, results.entries);
        },
        None => {
            let node = s.current();
            crate::tree::lemma_followed(s.root, s.path);
            lemma_countable_below(s.root, s.path);
            crate::children::lemma_listed_children(node, s.sort, s.reversed, s.filter);
            let listed = crate::children::listed_children(node, s.sort, s.reversed, s.filter);
            assert(listed.contains(listed[i]));
            lemma_child_index(node.children, listed[i]);
            let at = crate::state::child_index(node.children, listed[i].path) as usize;
            lemma_node_at_push(s.root, s.path, at);
        },
    }
}

proof fn lemma_result_items(root: Tree, entries: Seq<Seq<usize>>)
    ensures
        forall|i: int|
            0 <= i < crate::state::result_items(root, entries).len() ==> {
                let item = #[trigger] crate::state::result_items(root, entries)[i];
                crate::tree::node_at(root, item.indices) matches Some(n) && item
                    == crate::state::item_of(n, item.indices)
            },
    decreases entries.len(),
{
    if entries.len() > 0 {
        lemma_result_items(root, entries.drop_last());
    }
}

/// A list of search hits shows each entry as it is in the tree.
pub proof fn lemma_visible_results(s: State, i: int)
    requires
        s.search_results is Some,
        0 <= i < s.visible().len(),
    ensures
        ({
            let item = s.visible()[i];
            crate::tree::node_at(s.root, item.indices) matches Some(n) && item
                == crate::state::item_of(n, item.indices)
        }),
{
    lemma_result_items(s.root, s.search_results->0.entries);
}

/// The list does not depend on marks, cursors, messages or what runs.
proof fn lemma_same_list(a: State, b: State)
    requires
        a.root == b.root,
        a.path == b.path,
        a.sort == b.sort,
        a.reversed == b.reversed,
        a.filter == b.filter,
        a.search_results == b.search_results,
    ensures
        a.visible() == b.visible(),
        a.current() == b.current(),
{
    assert(a.visible() =~= b.visible());
}

proof fn lemma_opened_orderly(s: State)
    requires
        orderly(s),
    ensures
        orderly(s.opened()),
{
    if s.selected < s.visible().len() {
        lemma_visible(s, s.selected as int);
    }
}

proof fn lemma_parent_orderly(s: State)
    requires
        orderly(s),
    ensures
        orderly(s.parent_opened()),
{
    if s.path.len() > 0 {
        crate::removal::lemma_parent_stands(s.root, s.path);
    }
}

proof fn lemma_marks_orderly(marks: Map<Seq<Seq<u8>>, Target>, list: Seq<Item>)
    requires
        marks.dom().finite(),
        forall|k: Seq<Seq<u8>>| #[trigger]
            marks.dom().contains(k) ==> crate::state::key_of(marks[k].path) == k,
    ensures
        crate::state::with_marks(marks, list).dom().finite(),
        forall|k: Seq<Seq<u8>>| #[trigger]
            crate::state::with_marks(marks, list).dom().contains(k) ==> crate::state::key_of(
                crate::state::with_marks(marks, list)[k].path,
            ) == k,
    decreases list.len(),
{
    if list.len() > 0 {
        lemma_marks_orderly(marks, list.drop_last());
        let earlier = crate::state::with_marks(marks, list.drop_last());
        let all = crate::state::with_marks(marks, list);
        let key = crate::state::key_of(list.last().path);
        assert forall|k: Seq<Seq<u8>>| #[trigger] all.dom().contains(k) implies
            crate::state::key_of(all[k].path) == k by {
            if k != key {
                assert(earlier.dom().contains(k));
            }
        }
    }
}

/// Setting or taking away the mark of the entry under the cursor keeps the state
/// orderly.
proof fn lemma_toggled_orderly(s: State)
    requires
        orderly(s),
    ensures
        orderly(s.toggled()),
{
    if let Some(item) = s.selected_item() {
        let key = crate::state::key_of(item.path);
        let after = s.toggled().marks;
        assert forall|k: Seq<Seq<u8>>| #[trigger] after.dom().contains(k) implies
            crate::state::key_of(after[k].path) == k by {
            if k != key {
                assert(s.marks.dom().contains(k));
            }
        }
    }
}

/// A state is orderly where an orderly one has the same tree, directory and
/// marks.
proof fn lemma_as_orderly(s: State, to: State)
    requires
        orderly(s),
        to.root == s.root,
        to.path == s.path,
        to.marks == s.marks,
    ensures
        orderly(to),
{
}

/// A command leaves the tree as it is and the state orderly.
#[verifier::spinoff_prover]
pub proof fn lemma_commanded(s: State, command: Command)
    ensures
        s.commanded(command).0.root == s.root,
        orderly(s) ==> orderly(s.commanded(command).0),
{
    if orderly(s) {
        match command {
            Command::Open => {
                lemma_opened_orderly(s);
            },
            Command::OpenParent => {
                lemma_parent_orderly(s);
            },
            Command::MarkVisible => {
                lemma_marks_orderly(s.marks, s.visible());
            },
            Command::ToggleMark => {
                lemma_toggled_orderly(s);
            },
            Command::UnmarkAll => {},
            _ => {
                lemma_as_orderly(s, s.commanded(command).0);
            },
        }
    }
}

/// No key changes the tree, and the state stays orderly: only the outcome of
/// work on the disk changes what is shown of it.
pub proof fn lemma_pressed(s: State, key: KeyPress)
    ensures
        s.pressed(key).0.root == s.root,
        orderly(s) ==> orderly(s.pressed(key).0),
{
    lemma_commanded(s, crate::state::command_of(key.code));
}

/// The mouse changes nothing but the cursor, and keeps the state orderly.
pub proof fn lemma_scrolled(s: State, kind: MouseEventKind)
    ensures
        s.scrolled(kind) == (State {
            selected: s.scrolled(kind).selected,
            cursors: s.scrolled(kind).cursors,
            ..s
        }),
        orderly(s) ==> orderly(s.scrolled(kind)),
{
}

/// Nothing is moved to the trash unless the user was asked about exactly these
/// entries and agreed.
pub proof fn lemma_trash_needs_consent(s: State, key: KeyPress)
    requires
        s.pressed(key).1 is MoveToTrash,
    ensures
        s.pending_delete == Some(s.pressed(key).1->MoveToTrash_0),
        key.code == KeyCode::Enter || key.code == KeyCode::Char('y'),
        s.pressed(key).0.pending_delete is None,
        s.pressed(key).0.active_delete,
{
}

/// While the user is asked about a deletion, no key does anything but answer.
pub proof fn lemma_prompt_waits(s: State, key: KeyPress)
    requires
        s.pending_delete is Some,
        key.code != KeyCode::Enter,
        key.code != KeyCode::Esc,
        key.code != KeyCode::Char('y'),
        key.code != KeyCode::Char('n'),
        !s.showing_full_path,
    ensures
        s.pressed(key) == (s, Wish::Nothing),
{
}

/// A refused deletion leaves everything but the question and the message.
pub proof fn lemma_deletion_refused(s: State, key: KeyPress)
    requires
        s.pending_delete is Some,
        !s.showing_full_path,
        key.code == KeyCode::Esc || key.code == KeyCode::Char('n'),
    ensures
        s.pressed(key) == (
            (State { pending_delete: None, ..s }).saying("Delete canceled"@),
            Wish::Nothing,
        ),
{
}

/// The browser ends only on a key in the list, and only on those that say so.
pub proof fn lemma_quit(s: State, key: KeyPress)
    ensures
        s.pressed(key).1 is Quit <==> !s.showing_full_path && s.pending_delete is None
            && !s.active_refresh && !s.searching && !s.filtering && (key.code == KeyCode::Esc
            || key.code == KeyCode::Char('q')),
{
}

/// What is asked for while something else runs is answered with a message and
/// changes nothing else.
pub proof fn lemma_busy(s: State)
    ensures
        s.active_delete || s.active_refresh ==> s.delete_staged() == s.saying(
            if s.active_delete {
                "A trash operation is already running"@
            } else {
                "A refresh is already running"@
            },
        ),
        s.active_delete || s.active_refresh || s.active_search ==> s.refresh_wanted() == (
            s.saying(
                if s.active_refresh {
                    "A refresh is already running"@
                } else if s.active_delete {
                    "A trash operation is already running"@
                } else {
                    "A search is already running"@
                },
            ),
            Wish::Nothing,
        ),
        s.active_search && crate::text::trimmed(s.search_query).len() > 0 ==> s.search_wanted()
            == (s.saying("Search is already running"@), Wish::Nothing),
{
}

/// The cursor never leaves the list by moving: it is in it, or at its start
/// where the list is empty.
pub proof fn lemma_cursor_in_list(s: State, delta: int)
    ensures
        ({
            let to = s.moved(delta);
            &&& to.visible() == s.visible()
            &&& to.selected < to.visible().len() || (to.visible().len() == 0 && to.selected == 0)
        }),
        ({
            let to = s.returning();
            &&& to.visible() == s.visible()
            &&& to.selected < to.visible().len() || (to.visible().len() == 0 && to.selected == 0)
        }),
{
    lemma_same_list(s, s.moved(delta));
    lemma_same_list(s, s.returning());
}

/// Moving the cursor down and up again brings it back, unless it stood on the
/// last entry of the list or outside of it.
pub proof fn lemma_down_and_up(s: State)
    requires
        s.selected + 1 < s.visible().len(),
        s.visible().len() <= usize::MAX,
    ensures
        s.moved(1).selected == s.selected + 1,
        s.moved(1).moved(-1).selected == s.selected,
{
    lemma_same_list(s, s.moved(1));
}

/// Setting a mark and taking it away again leaves the marks as they were.
pub proof fn lemma_toggled_twice(s: State)
    requires
        s.selected_item() is Some,
    ensures
        s.toggled().toggled().marks.dom() == s.marks.dom(),
        !s.marks.dom().contains(crate::state::key_of(s.selected_item()->0.path))
            ==> s.toggled().toggled().marks == s.marks,
        s.toggled().marks.dom() != s.marks.dom(),
{
    let item = s.selected_item()->0;
    let key = crate::state::key_of(item.path);
    lemma_same_list(s, s.toggled());
    assert(s.toggled().selected_item() == Some(item));
    if s.marks.dom().contains(key) {
        assert(!s.toggled().marks.dom().contains(key));
        assert(s.toggled().toggled().marks.dom() =~= s.marks.dom());
    } else {
        assert(s.toggled().marks.dom().contains(key));
        assert(s.toggled().toggled().marks =~= s.marks);
    }
}

/// Whoever opens a directory and goes back finds the directory and the cursor
/// as they were. The filter is gone.
pub proof fn lemma_opened_and_left(s: State)
    requires
        orderly(s),
        s.search_results is None,
        s.selected_item() matches Some(item) && item.kind == EntryKind::Directory,
        crate::state::key_of(s.selected_item()->0.path) != crate::state::key_of(s.current().path),
    ensures
        ({
            let back = s.opened().parent_opened();
            &&& back.root == s.root
            &&& back.path == s.path
            &&& back.selected == s.selected
            &&& back.filter.len() == 0
            &&& back.search_results is None
        }),
{
    let item = s.selected_item()->0;
    let inside = s.opened();
    let back = inside.parent_opened();
    lemma_visible(s, s.selected as int);
    let node = s.current();
    let listed = crate::children::listed_children(node, s.sort, s.reversed, s.filter);
    let at = crate::state::child_index(node.children, listed[s.selected as int].path) as usize;
    assert(item.indices == s.path.push(at));
    assert(s.path.push(at).drop_last() =~= s.path);
    crate::tree::lemma_followed(s.root, item.indices);
    let key = crate::state::key_of(node.path);
    let child_key = crate::state::key_of(inside.current().path);
    assert(child_key == crate::state::key_of(item.path));
    assert(inside.cursors[key] == s.selected);
    let there = State {
        path: inside.path.drop_last(),
        filter: Seq::empty(),
        ..inside.remembering()
    };
    assert(there.cursors[key] == s.selected);
    assert(there.current() == node);
    let all = crate::children::listed_children(node, s.sort, s.reversed, Seq::empty());
    assert(there.visible().len() == all.len());
    crate::children::lemma_listed_children(node, s.sort, s.reversed, s.filter);
    crate::children::lemma_listed_children(node, s.sort, s.reversed, Seq::empty());
    crate::children::lemma_unfiltered_longest(node, s.filter);
    assert(s.visible().len() == listed.len());
}

/// What entries to delete come down to: every one of them lies at or below one
/// that is left, and of those that are left none lies at or below another.
pub proof fn lemma_topmost(list: Seq<Target>)
    requires
        forall|i: int, j: int|
            0 <= i < j < list.len() ==> crate::state::key_of((#[trigger] list[i]).path)
                != crate::state::key_of((#[trigger] list[j]).path),
    ensures
        ({
            let left = crate::state::topmost(list);
            &&& forall|i: int| 0 <= i < left.len() ==> list.contains(#[trigger] left[i])
            &&& forall|i: int|
                0 <= i < list.len() ==> exists|j: int|
                    0 <= j < left.len() && crate::paths::lies_under(
                        (#[trigger] list[i]).path,
                        (#[trigger] left[j]).path,
                    )
            &&& forall|i: int, j: int|
                0 <= i < left.len() && 0 <= j < left.len() && i != j
                    ==> !crate::paths::lies_under(
                    (#[trigger] left[i]).path,
                    (#[trigger] left[j]).path,
                )
        }),
{
    let paths = crate::state::target_paths(list);
    let roots = crate::ops::roots_of(paths);
    let f = |t: Target| crate::state::path_among(t.path, roots);
    let left = crate::state::topmost(list);
    crate::ops::lemma_roots(paths);
    assert forall|i: int| 0 <= i < left.len() implies list.contains(#[trigger] left[i]) by {
        assert(left.contains(left[i]));
        list.lemma_filter_contains_rev(f, left[i]);
    }
    assert forall|i: int| 0 <= i < list.len() implies exists|j: int|
        0 <= j < left.len() && crate::paths::lies_under(
            (#[trigger] list[i]).path,
            (#[trigger] left[j]).path,
        ) by {
        assert(paths[i] == list[i].path);
        assert(crate::ops::lies_under_any(paths[i], roots));
        let r = choose|r: int|
            0 <= r < roots.len() && #[trigger] crate::paths::lies_under(paths[i], roots[r]);
        assert(paths.contains(roots[r]));
        let n = choose|n: int| 0 <= n < paths.len() && paths[n] == roots[r];
        assert(f(list[n])) by {
            assert(crate::paths::parts(roots[r]) == crate::paths::parts(list[n].path));
        }
        list.lemma_filter_contains(f, n);
        let j = choose|j: int| 0 <= j < left.len() && left[j] == list[n];
        assert(crate::paths::lies_under(list[i].path, left[j].path));
    }
    lemma_filter_distinct(list, f);
    assert forall|i: int, j: int|
        0 <= i < left.len() && 0 <= j < left.len() && i != j implies !crate::paths::lies_under(
        (#[trigger] left[i]).path,
        (#[trigger] left[j]).path,
    ) by {
        list.lemma_filter_pred(f, i);
        list.lemma_filter_pred(f, j);
        let a = choose|a: int|
            0 <= a < roots.len() && crate::paths::parts(#[trigger] roots[a])
                == crate::paths::parts(left[i].path);
        let b = choose|b: int|
            0 <= b < roots.len() && crate::paths::parts(#[trigger] roots[b])
                == crate::paths::parts(left[j].path);
        if i < j {
            assert(crate::state::key_of(left[i].path) != crate::state::key_of(left[j].path));
        } else {
            assert(crate::state::key_of(left[j].path) != crate::state::key_of(left[i].path));
        }
        assert(a != b);
        assert(!crate::paths::lies_under(roots[a], roots[b]));
    }
}

proof fn lemma_filter_distinct(list: Seq<Target>, f: spec_fn(Target) -> bool)
    requires
        forall|i: int, j: int|
            0 <= i < j < list.len() ==> crate::state::key_of((#[trigger] list[i]).path)
                != crate::state::key_of((#[trigger] list[j]).path),
    ensures
        forall|i: int, j: int|
            0 <= i < j < list.filter(f).len() ==> crate::state::key_of(
                (#[trigger] list.filter(f)[i]).path,
            ) != crate::state::key_of((#[trigger] list.filter(f)[j]).path),
    decreases list.len(),
{
    reveal(Seq::filter);
    if list.len() > 0 {
        let d = list.drop_last();
        lemma_filter_distinct(d, f);
        let kept = d.filter(f);
        if f(list.last()) {
            assert forall|i: int, j: int|
                0 <= i < j < kept.push(list.last()).len() implies crate::state::key_of(
                (#[trigger] kept.push(list.last())[i]).path,
            ) != crate::state::key_of((#[trigger] kept.push(list.last())[j]).path) by {
                if j == kept.len() {
                    assert(kept.contains(kept[i]));
                    d.lemma_filter_contains_rev(f, kept[i]);
                    let n = choose|n: int| 0 <= n < d.len() && d[n] == kept[i];
                    assert(list[n] == kept[i]);
                    assert(list[list.len() - 1] == list.last());
                }
            }
        }
    }
}

/// An operation works on entries of which none lies within another, and
/// reaches every mark.
pub proof fn lemma_operation_targets(s: State)
    requires
        orderly(s),
        s.marks.dom().len() > 0,
    ensures
        ({
            let list = s.operation_targets();
            &&& forall|i: int|
                0 <= i < list.len() ==> s.marks.dom().contains(
                    crate::state::key_of((#[trigger] list[i]).path),
                ) && s.marks[crate::state::key_of(list[i].path)] == list[i]
            &&& forall|k: Seq<Seq<u8>>| #[trigger]
                s.marks.dom().contains(k) ==> exists|j: int|
                    0 <= j < list.len() && crate::state::key_of(
                        (#[trigger] list[j]).path,
                    ).is_prefix_of(k)
            &&& forall|i: int, j: int|
                0 <= i < list.len() && 0 <= j < list.len() && i != j
                    ==> !crate::paths::lies_under(
                    (#[trigger] list[i]).path,
                    (#[trigger] list[j]).path,
                )
        }),
{
    let ordered = crate::path_map::ordered_keys(s.marks.dom());
    crate::path_map::lemma_some_order(s.marks.dom());
    let marked = s.marked();
    let list = s.operation_targets();
    assert(s.marks != Map::<Seq<Seq<u8>>, Target>::empty()) by {
        if s.marks == Map::<Seq<Seq<u8>>, Target>::empty() {
            assert(s.marks.dom() =~= Set::<Seq<Seq<u8>>>::empty());
        }
    }
    assert forall|i: int| 0 <= i < marked.len() implies crate::state::key_of(
        (#[trigger] marked[i]).path,
    ) == ordered[i] && s.marks.dom().contains(ordered[i]) by {
        assert(ordered.to_set().contains(ordered[i]));
    }
    assert forall|i: int, j: int| 0 <= i < j < marked.len() implies crate::state::key_of(
        (#[trigger] marked[i]).path,
    ) != crate::state::key_of((#[trigger] marked[j]).path) by {
        assert(ordered[i] != ordered[j]);
    }
    lemma_topmost(marked);
    assert forall|i: int| 0 <= i < list.len() implies s.marks.dom().contains(
        crate::state::key_of((#[trigger] list[i]).path),
    ) && s.marks[crate::state::key_of(list[i].path)] == list[i] by {
        assert(marked.contains(list[i]));
        let n = choose|n: int| 0 <= n < marked.len() && marked[n] == list[i];
        assert(crate::state::key_of(marked[n].path) == ordered[n]);
    }
    assert forall|k: Seq<Seq<u8>>| #[trigger] s.marks.dom().contains(k) implies exists|j: int|
        0 <= j < list.len() && crate::state::key_of((#[trigger] list[j]).path).is_prefix_of(k) by {
        assert(ordered.to_set().contains(k));
        let n = choose|n: int| 0 <= n < ordered.len() && ordered[n] == k;
        assert(crate::state::key_of(marked[n].path) == k);
        let j = choose|j: int|
            0 <= j < list.len() && crate::paths::lies_under(
                marked[n].path,
                (#[trigger] list[j]).path,
            );
        assert(crate::state::key_of(list[j].path).is_prefix_of(k));
    }
}

/// A canceled refresh, and one whose directory is gone, change nothing but the
/// message.
pub proof fn lemma_refresh_without_effect(s: State, rescan: Rescan)
    requires
        rescan.found is None || crate::tree::node_at(s.root, rescan.indices) is None,
    ensures
        s.refreshed(rescan) == s.saying(
            if rescan.found is None {
                "Refresh canceled"@
            } else {
                "Refresh target no longer exists"@
            },
        ),
{
    if let Some(tree) = rescan.found {
        crate::tree::lemma_replaced(s.root, rescan.indices, tree);
    }
}

/// A refresh puts what it found where the directory was, leaves no mark
/// without an entry, and keeps the state orderly.
pub proof fn lemma_refreshed(s: State, rescan: Rescan)
    requires
        rescan.found is Some,
        crate::tree::countable(rescan.found->0),
    ensures
        orderly(s) ==> orderly(s.refreshed(rescan)),
        crate::tree::node_at(s.root, rescan.indices) is Some ==> {
            let r = s.refreshed(rescan);
            &&& crate::tree::node_at(r.root, rescan.indices) == rescan.found
            &&& forall|k: Seq<Seq<u8>>| #[trigger]
                r.marks.dom().contains(k) ==> crate::state::has_path(r.root, k)
                    && s.marks.dom().contains(k)
            &&& r.search_results is None
        },
{
    let tree = rescan.found->0;
    crate::tree::lemma_replaced(s.root, rescan.indices, tree);
    if let Some(root) = crate::tree::replaced_at(s.root, rescan.indices, tree) {
        crate::tree::lemma_valid_prefix(root, s.path);
        if orderly(s) {
            lemma_replaced_countable(s.root, rescan.indices, tree);
        }
        let wanted = crate::state::found_in(root);
        assert(s.marks.restrict(Set::new(wanted)).dom() =~= s.marks.dom().intersect(
            Set::new(wanted),
        ));
        assert forall|k: Seq<Seq<u8>>| #[trigger]
            s.refreshed(rescan).marks.dom().contains(k) implies crate::state::has_path(root, k) by {
            assert(wanted(k));
        }
    }
}

proof fn lemma_replaced_countable(t: Tree, indices: Seq<usize>, new: Tree)
    requires
        crate::tree::countable(t),
        crate::tree::countable(new),
        crate::tree::replaced_at(t, indices, new) is Some,
    ensures
        crate::tree::countable(crate::tree::replaced_at(t, indices, new)->0),
    decreases indices.len(),
{
    if indices.len() > 0 {
        lemma_replaced_countable(t.children[indices[0] as int], indices.drop_first(), new);
    }
}

/// After entries were moved to the trash the state is orderly, no mark lies at
/// or below one of them, all other marks are left, and no search is shown.
pub proof fn lemma_trashed(s: State, report: TrashReport)
    ensures
        orderly(s) ==> orderly(s.trashed(report)),
        forall|k: Seq<Seq<u8>>| #[trigger]
            s.trashed(report).marks.dom().contains(k) <==> s.marks.dom().contains(k)
                && !crate::state::within_gone(k, report.gone),
        s.trashed(report).search_results is None,
{
    let root = crate::removal::removed_all(s.root, report.gone);
    crate::tree::lemma_valid_prefix(
        root,
        crate::removal::adjusted_in_turn(s.path, report.gone),
    );
    if orderly(s) {
        crate::removal::lemma_turn_countable(s.root, crate::removal::removal_order(report.gone));
    }
    let wanted = crate::state::outside_of(report.gone);
    assert(s.marks.restrict(Set::new(wanted)).dom() =~= s.marks.dom().intersect(
        Set::new(wanted),
    ));
    assert forall|k: Seq<Seq<u8>>| #[trigger]
        s.trashed(report).marks.dom().contains(k) <==> s.marks.dom().contains(k)
            && !crate::state::within_gone(k, report.gone) by {
        assert(wanted(k) == !crate::state::within_gone(k, report.gone));
    }
}

/// Entries that are listed in the order in which a removal takes them are in
/// that order.
proof fn lemma_already_ordered(gone: Seq<Target>)
    requires
        crate::removal::removable(gone),
    ensures
        crate::removal::removal_order(gone) == gone,
    decreases gone.len(),
{
    if gone.len() > 0 {
        let d = gone.drop_last();
        assert forall|i: int, j: int| 0 <= i < j < d.len() implies crate::removal::indices_le(
            (#[trigger] d[j]).indices,
            (#[trigger] d[i]).indices,
        ) && crate::removal::apart(d[i].indices, d[j].indices) by {
            assert(gone[i] == d[i] && gone[j] == d[j]);
        }
        lemma_already_ordered(d);
        if d.len() > 0 {
            assert(d.last() == gone[gone.len() - 2]);
            assert(gone.last() == gone[gone.len() - 1]);
        }
        assert(d.push(gone.last()) =~= gone);
    }
}

/// Whoever deletes entries outside of the directory that is shown, none of
/// them within another and listed from the last in the tree to the first, is
/// in the same directory afterwards.
pub proof fn lemma_trashed_stays(s: State, report: TrashReport)
    requires
        orderly(s),
        crate::removal::removable(report.gone),
        forall|i: int|
            0 <= i < report.gone.len() ==> crate::removal::stands(
                s.root,
                #[trigger] report.gone[i],
            ) && !report.gone[i].indices.is_prefix_of(s.path),
    ensures
        crate::removal::same_entry(s.trashed(report).current(), s.current()),
{
    lemma_already_ordered(report.gone);
    crate::removal::lemma_removed_in_turn(s.root, report.gone, s.path);
    let root = crate::removal::removed_all(s.root, report.gone);
    let path = crate::removal::adjusted_in_turn(s.path, report.gone);
    crate::tree::lemma_valid_prefix(root, path);
    crate::tree::lemma_followed(root, path);
    crate::tree::lemma_followed(s.root, s.path);
}

/// Whether no two siblings have one path.
pub open spec fn siblings_differ(ts: Seq<Tree>) -> bool {
    forall|i: int, j: int|
        0 <= i < j < ts.len() ==> crate::paths::parts((#[trigger] ts[i]).path)
            != crate::paths::parts((#[trigger] ts[j]).path)
}

/// Where no two entries of a directory have one path, each entry of the list
/// would be deleted as what it is: it stands where the list says, with the
/// totals that the list shows.
pub proof fn lemma_target_described(s: State, i: int)
    requires
        orderly(s),
        0 <= i < s.visible().len(),
        s.search_results is None ==> siblings_differ(s.current().children),
    ensures
        crate::totals::described(s.root, crate::state::target_of(s.visible()[i])),
        s.visible()[i].indices.len() > 0 ==> crate::removal::stands(
            s.root,
            crate::state::target_of(s.visible()[i]),
        ),
{
    lemma_visible(s, i);
    if s.search_results is Some {
        lemma_visible_results(s, i);
    } else {
        let node = s.current();
        crate::tree::lemma_followed(s.root, s.path);
        lemma_countable_below(s.root, s.path);
        crate::children::lemma_listed_children(node, s.sort, s.reversed, s.filter);
        let listed = crate::children::listed_children(node, s.sort, s.reversed, s.filter);
        assert(listed.contains(listed[i]));
        lemma_child_index(node.children, listed[i]);
        let at = crate::state::child_index(node.children, listed[i].path) as int;
        let k = choose|k: int| 0 <= k < node.children.len() && node.children[k] == listed[i];
        assert(k == at);
        lemma_node_at_push(s.root, s.path, at as usize);
    }
}

/// The totals of the tree still sum up after entries were moved to the trash,
/// none of them within another.
pub proof fn lemma_trashed_adds_up(s: State, report: TrashReport)
    requires
        crate::totals::adds_up(s.root),
        forall|i: int|
            0 <= i < report.gone.len() ==> crate::removal::stands(
                s.root,
                #[trigger] report.gone[i],
            ) && crate::totals::described(s.root, report.gone[i]),
        forall|i: int, j: int|
            0 <= i < report.gone.len() && 0 <= j < report.gone.len() && i != j
                ==> crate::removal::apart(
                (#[trigger] report.gone[i]).indices,
                (#[trigger] report.gone[j]).indices,
            ),
    ensures
        crate::totals::adds_up(s.trashed(report).root),
{
    crate::totals::lemma_removed_all_adds_up(s.root, report.gone);
}

/// A search shows entries with the paths that were found, in their order, and
/// keeps the state orderly.
pub proof fn lemma_searched(s: State, report: SearchReport)
    requires
        report.error is None,
        crate::tree::countable(s.root),
    ensures
        orderly(s) ==> orderly(s.searched(report)),
        s.searched(report).visible().len() == crate::state::located_paths(
            s.root,
            report.paths,
        ).len(),
        forall|i: int|
            0 <= i < s.searched(report).visible().len() ==> crate::state::path_among(
                (#[trigger] s.searched(report).visible()[i]).path,
                report.paths,
            ),
{
    lemma_located_items(s.root, report.paths);
}

proof fn lemma_located_items(root: Tree, paths: Seq<Seq<u8>>)
    requires
        crate::tree::countable(root),
    ensures
        ({
            let entries = crate::state::located_paths(root, paths);
            let list = crate::state::result_items(root, entries);
            &&& list.len() == entries.len()
            &&& forall|i: int|
                0 <= i < list.len() ==> crate::state::path_among(
                    (#[trigger] list[i]).path,
                    paths,
                )
        }),
    decreases paths.len(),
{
    if paths.len() > 0 {
        let d = paths.drop_last();
        lemma_located_items(root, d);
        let entries = crate::state::located_paths(root, d);
        let list = crate::state::result_items(root, entries);
        assert forall|i: int| 0 <= i < list.len() implies crate::state::path_among(
            (#[trigger] list[i]).path,
            paths,
        ) by {
            let k = choose|k: int|
                0 <= k < d.len() && crate::paths::parts(#[trigger] d[k]) == crate::paths::parts(
                    list[i].path,
                );
            assert(paths[k] == d[k]);
        }
        if let Some(indices) = crate::tree::located(root, paths.last()) {
            crate::tree::lemma_located(root, paths.last());
            assert(entries.push(indices).drop_last() =~= entries);
            assert(crate::paths::parts(paths[paths.len() - 1]) == crate::paths::parts(
                paths.last(),
            ));
        }
    }
}

/// Changing the order of the list changes neither what is in it nor anything
/// but the order and the cursor.
pub proof fn lemma_sorted_by(s: State, sort: SortKey, reversed: bool)
    requires
        s.search_results is None,
    ensures
        s.sorted_by(sort, reversed).selected == 0,
        s.sorted_by(sort, reversed).visible().len() == s.visible().len(),
        s.sorted_by(sort, reversed).current() == s.current(),
{
    let to = s.sorted_by(sort, reversed);
    crate::children::lemma_listed_children(s.current(), s.sort, s.reversed, s.filter);
    crate::children::lemma_listed_children(s.current(), sort, reversed, s.filter);
}

/// Reversing the order turns the list around, and doing so twice brings it
/// back.
pub proof fn lemma_reversed(s: State)
    requires
        s.search_results is None,
    ensures
        s.sorted_by(s.sort, !s.reversed).visible() == s.visible().reverse(),
        s.sorted_by(s.sort, !s.reversed).sorted_by(s.sort, s.reversed).visible() == s.visible(),
{
    let to = s.sorted_by(s.sort, !s.reversed);
    let node = s.current();
    let before = crate::children::listed_children(node, s.sort, s.reversed, s.filter);
    let after = crate::children::listed_children(node, s.sort, !s.reversed, s.filter);
    assert(after =~= before.reverse());
    assert(to.visible() =~= s.visible().reverse());
    let back = to.sorted_by(s.sort, s.reversed);
    assert(back.visible() =~= s.visible());
}

/// Whether nothing is asked, typed or shown above the list.
pub open spec fn in_list(s: State) -> bool {
    !s.showing_full_path && s.pending_delete is None && !s.active_refresh && !s.searching
        && !s.filtering
}

/// Showing the full path and leaving it again changes nothing.
pub proof fn lemma_full_path_toggles(s: State, shows: KeyPress, ends: KeyPress)
    requires
        in_list(s),
        shows.code == KeyCode::Char('p'),
        ends.code == KeyCode::Esc || ends.code == KeyCode::Enter || ends.code == KeyCode::Char('p')
            || ends.code == KeyCode::Char('q'),
    ensures
        s.pressed(shows).0.showing_full_path,
        s.pressed(shows).0.pressed(ends) == (s, Wish::Nothing),
{
    assert(s.pressed(shows).0.pressed(ends).0 =~= s);
}

/// Typing a character and taking it back leaves the text as it was.
pub proof fn lemma_typed_and_taken_back(text: Seq<char>, c: char, back: KeyPress)
    requires
        back.code == KeyCode::Backspace,
    ensures
        crate::state::typed(
            crate::state::typed(text, (KeyPress { code: KeyCode::Char(c), control: false })),
            back,
        ) == text,
{
    assert(text.push(c).drop_last() =~= text);
}

/// Marking what is visible marks every entry of the list and takes no mark
/// away.
pub proof fn lemma_all_marked(s: State)
    ensures
        forall|i: int|
            0 <= i < s.visible().len() ==> s.all_marked().marks.dom().contains(
                crate::state::key_of((#[trigger] s.visible()[i]).path),
            ),
        forall|k: Seq<Seq<u8>>|
            s.marks.dom().contains(k) ==> #[trigger] s.all_marked().marks.dom().contains(k),
        s.all_marked().visible() == s.visible(),
{
    lemma_with_marks(s.marks, s.visible());
    lemma_same_list(s, s.all_marked());
}

proof fn lemma_with_marks(marks: Map<Seq<Seq<u8>>, Target>, list: Seq<Item>)
    ensures
        forall|i: int|
            0 <= i < list.len() ==> crate::state::with_marks(marks, list).dom().contains(
                crate::state::key_of((#[trigger] list[i]).path),
            ),
        forall|k: Seq<Seq<u8>>|
            marks.dom().contains(k) ==> #[trigger] crate::state::with_marks(
                marks,
                list,
            ).dom().contains(k),
    decreases list.len(),
{
    if list.len() > 0 {
        let d = list.drop_last();
        lemma_with_marks(marks, d);
        let earlier = crate::state::with_marks(marks, d);
        let all = crate::state::with_marks(marks, list);
        assert forall|i: int| 0 <= i < list.len() implies all.dom().contains(
            crate::state::key_of((#[trigger] list[i]).path),
        ) by {
            if i < d.len() {
                assert(earlier.dom().contains(crate::state::key_of(d[i].path)));
            }
        }
        assert forall|k: Seq<Seq<u8>>| marks.dom().contains(k) implies #[trigger] all.dom().contains(
            k,
        ) by {
            assert(earlier.dom().contains(k));
        }
    }
}

} // verus!
