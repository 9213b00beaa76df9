//! What the keys of the browser do, and what becomes of its state, told by what
//! the user sees.

use vstd::prelude::*;

#[allow(unused_imports)]
use crate::browser_laws::{in_list, orderly, siblings_differ};
use crate::children::SortKey;
#[allow(unused_imports)]
use crate::mark_laws::{list_tells_apart, true_of};
#[allow(unused_imports)]
use crate::removal::Target;
use crate::state::{Command, KeyCode, KeyPress, MouseEventKind};
#[allow(unused_imports)]
use crate::state::{Item, Rescan, SearchReport, State, TrashReport, Wish};
#[allow(unused_imports)]
use crate::tree::{EntryKind, Tree};

verus! {

/// The directory that is shown is the entry of the tree at the positions of the
/// state.
pub proof fn lemma_current(s: State)
    requires
        orderly(s),
    ensures
        crate::tree::node_at(s.root, s.path) == Some(s.current()),
{
    crate::tree::lemma_followed(s.root, s.path);
}

/// Where a query is run, the tree that is searched is the directory that is
/// shown, the base is its path, and the query is what was typed without white
/// space around it. Only Enter runs a query, and only one at a time.
pub proof fn lemma_search_request(s: State, key: KeyPress)
    requires
        orderly(s),
    ensures
        s.pressed(key).1 matches Wish::Search(base, tree, query) ==> {
            &&& crate::tree::node_at(s.root, s.path) == Some(tree)
            &&& base == tree.path
            &&& query == crate::text::trimmed(s.search_query) && query.len() > 0
            &&& s.searching && key.code == KeyCode::Enter && !s.active_search
            &&& s.pressed(key).0.active_search && !s.pressed(key).0.searching
        },
        !s.showing_full_path && s.pending_delete is None && !s.active_refresh && s.searching
            && key.code == KeyCode::Enter && !s.active_search && crate::text::trimmed(
            s.search_query,
        ).len() > 0 ==> s.pressed(key).1 is Search,
{
    lemma_current(s);
}

/// Every path that such a search finds in the tree is that of an entry below the
/// directory that is shown.
pub proof fn lemma_search_below_shown(s: State, key: KeyPress, i: int) -> (at: Seq<usize>)
    requires
        orderly(s),
        s.pressed(key).1 is Search,
        0 <= i < crate::search::paths_found(
            s.pressed(key).1->Search_1,
            s.pressed(key).1->Search_2,
        ).len(),
    ensures
        ({
            let path = crate::search::paths_found(
                s.pressed(key).1->Search_1,
                s.pressed(key).1->Search_2,
            )[i];
            &&& at.len() > 0
            &&& crate::tree::node_at(s.root, s.path + at) matches Some(n) && n.path == path
            &&& crate::tree_laws::nested(s.root) ==> crate::paths::lies_under(
                path,
                crate::tree::node_at(s.root, s.path)->0.path,
            )
        }),
{
    lemma_search_request(s, key);
    let tree = s.pressed(key).1->Search_1;
    lemma_countable_at(s.root, s.path);
    if crate::tree_laws::nested(s.root) {
        crate::tree_laws::lemma_nested(s.root, s.path);
    }
    let at = crate::search_laws::lemma_search_stays_below(tree, s.pressed(key).1->Search_2, i);
    crate::tree_laws::lemma_node_at_further(s.root, s.path, at);
    at
}

proof fn lemma_countable_at(t: Tree, at: Seq<usize>)
    requires
        crate::tree::countable(t),
        crate::tree::node_at(t, at) is Some,
    ensures
        crate::tree::countable(crate::tree::node_at(t, at)->0),
    decreases at.len(),
{
    if at.len() > 0 {
        lemma_countable_at(t.children[at[0] as int], at.drop_first());
    }
}

/// A new scan is asked for with the positions of the directory that is shown and
/// its path, and only by the key for it.
pub proof fn lemma_refresh_request(s: State, key: KeyPress)
    requires
        orderly(s),
    ensures
        s.pressed(key).1 matches Wish::Refresh(indices, path) ==> {
            &&& indices == s.path
            &&& crate::tree::node_at(s.root, indices) matches Some(n) && n.path == path
            &&& key.code == KeyCode::Char('R') && in_list(s)
            &&& s.pressed(key).0.active_refresh
        },
        in_list(s) && key.code == KeyCode::Char('R') && !s.active_delete && !s.active_search
            ==> s.pressed(key).1 is Refresh,
        s.pressed(key).1 is CancelRefresh <==> !s.showing_full_path && s.pending_delete is None
            && s.active_refresh && (key.code == KeyCode::Esc || key.code == KeyCode::Char('q')),
{
    lemma_current(s);
}

/// What is shown in the file manager is what an operation works on.
pub proof fn lemma_reveal_request(s: State, key: KeyPress)
    ensures
        s.pressed(key).1 matches Wish::Reveal(list) ==> list == s.operation_targets() && list.len()
            > 0 && key.code == KeyCode::Char('o') && in_list(s),
        in_list(s) && key.code == KeyCode::Char('o') && s.operation_targets().len() > 0 ==> s.pressed(
            key,
        ).1 is Reveal && s.pressed(key).0 == s,
{
}

/// Asking to delete and agreeing moves exactly what an operation works on to the
/// trash; until then nothing is moved.
pub proof fn lemma_delete_and_agree(s: State, asks: KeyPress, agrees: KeyPress)
    requires
        in_list(s),
        !s.active_delete,
        s.operation_targets().len() > 0,
        asks.code == KeyCode::Char('d'),
        agrees.code == KeyCode::Enter || agrees.code == KeyCode::Char('y'),
    ensures
        s.pressed(asks).1 is Nothing,
        s.pressed(asks).0.pending_delete == Some(s.operation_targets()),
        s.pressed(asks).0.pressed(agrees).1 == Wish::MoveToTrash(s.operation_targets()),
        s.pressed(asks).0.pressed(agrees).0.active_delete,
        s.pressed(asks).0.pressed(agrees).0.root == s.root,
        s.pressed(asks).0.pressed(agrees).0.marks == s.marks,
{
}

/// Opening the entry under the cursor shows that entry where it is a directory:
/// the directory that is shown afterwards stands at the entry's positions and
/// has its path, without a filter or search. Anything else opens nothing.
pub proof fn lemma_opened(s: State)
    requires
        orderly(s),
        s.selected < s.visible().len(),
    ensures
        ({
            let item = s.visible()[s.selected as int];
            let after = s.opened();
            &&& item.kind == EntryKind::Directory ==> {
                &&& crate::tree::node_at(s.root, item.indices) == Some(after.current())
                &&& crate::paths::parts(after.current().path) == crate::paths::parts(item.path)
                &&& after.path == item.indices
                &&& after.filter.len() == 0 && after.search_results is None
            }
            &&& item.kind != EntryKind::Directory ==> after.path == s.path && after.selected
                == s.selected && after.filter == s.filter && after.search_results
                == s.search_results
            &&& after.marks == s.marks && after.sort == s.sort && after.reversed == s.reversed
        }),
{
    let item = s.visible()[s.selected as int];
    crate::browser_laws::lemma_visible(s, s.selected as int);
    crate::tree::lemma_followed(s.root, item.indices);
}

/// Going to the parent shows the directory in which the one before is listed;
/// from the root one does not go further.
pub proof fn lemma_parent_opened(s: State)
    requires
        orderly(s),
    ensures
        ({
            let after = s.parent_opened();
            &&& s.path.len() > 0 ==> {
                &&& after.path == s.path.drop_last()
                &&& crate::tree::node_at(s.root, after.path) == Some(after.current())
                &&& s.path.last() < after.current().children.len()
                &&& after.current().children[s.path.last() as int] == s.current()
                &&& after.filter.len() == 0
            }
            &&& s.path.len() == 0 ==> after.path == s.path && after.selected == s.selected
                && after.filter == s.filter
            &&& after.marks == s.marks && after.sort == s.sort && after.reversed == s.reversed
        }),
{
    lemma_current(s);
    if s.path.len() > 0 {
        let up = s.path.drop_last();
        crate::removal::lemma_parent_stands(s.root, s.path);
        crate::tree::lemma_followed(s.root, up);
        crate::browser_laws::lemma_node_at_push(s.root, up, s.path.last());
        assert(up.push(s.path.last()) =~= s.path);
    }
}

/// The cursor moves by one entry at a time and stays at the ends of the list.
pub proof fn lemma_moved(s: State)
    requires
        s.selected < s.visible().len() <= usize::MAX,
    ensures
        s.moved(1).selected == if s.selected + 1 < s.visible().len() {
            s.selected + 1
        } else {
            s.selected as int
        },
        s.moved(-1).selected == if s.selected > 0 {
            s.selected - 1
        } else {
            0
        },
        forall|delta: int|
            0 <= s.selected + delta < s.visible().len() ==> (#[trigger] s.moved(delta)).selected
                == s.selected + delta,
        s.moved(1).path == s.path && s.moved(-1).path == s.path,
        s.moved(1).marks == s.marks && s.moved(-1).marks == s.marks,
{
}

/// The cursor of a directory is remembered under its path, whichever directory
/// is shown in between, and a directory that was not left before begins at its
/// first entry.
pub proof fn lemma_cursor_remembered(s: State, later: State)
    requires
        later.root == s.root,
        later.path == s.path,
    ensures
        s.remembering().cursors.dom().contains(crate::paths::parts(s.current().path)),
        s.remembering().cursors[crate::paths::parts(s.current().path)] == s.selected,
        forall|k: Seq<Seq<u8>>|
            k != crate::paths::parts(s.current().path) ==> (
            #[trigger] s.remembering().cursors.dom().contains(k) <==> s.cursors.dom().contains(k))
                && (s.cursors.dom().contains(k) ==> s.remembering().cursors[k] == s.cursors[k]),
        later.cursors.dom().contains(crate::paths::parts(s.current().path))
            && later.cursors[crate::paths::parts(s.current().path)] < later.visible().len()
            ==> later.returning().selected == later.cursors[crate::paths::parts(s.current().path)],
        later.cursors.dom().contains(crate::paths::parts(s.current().path)) && 0
            < later.visible().len() <= later.cursors[crate::paths::parts(s.current().path)]
            ==> later.returning().selected == later.visible().len() - 1,
        !later.cursors.dom().contains(crate::paths::parts(s.current().path))
            ==> later.returning().selected == 0,
        later.returning() == (State { selected: later.returning().selected, ..later }),
{
}

/// Without a filter and a search, the list has all children of the directory.
pub proof fn lemma_unconstrained(s: State)
    ensures
        ({
            let after = s.unconstrained();
            &&& after.search_results is None && after.filter.len() == 0 && !after.filtering
            &&& after.search_query.len() == 0 && !after.searching
            &&& after.selected == 0 && after.path == s.path && after.root == s.root
            &&& after.marks == s.marks
            &&& after.visible().len() == s.current().children.len()
        }),
{
    let after = s.unconstrained();
    let node = s.current();
    crate::text_laws::lemma_trimmed_ends(Seq::empty(), ' ');
    crate::children::lemma_blank_filter(node, s.sort, s.reversed, after.filter);
    let listed = crate::children::listed_children(node, s.sort, s.reversed, after.filter);
    broadcast use vstd::seq_lib::group_to_multiset_ensures;

    assert(listed.len() == listed.to_multiset().len());
    assert(node.children.len() == node.children.to_multiset().len());
}

/// The list of a directory has one entry for each child that the filter leaves,
/// in the order that is chosen: by size the larger ones come first.
pub proof fn lemma_list_in_order(s: State)
    requires
        s.search_results is None,
    ensures
        s.visible().len() == crate::children::listed_children(
            s.current(),
            s.sort,
            s.reversed,
            s.filter,
        ).len(),
        forall|i: int|
            0 <= i < s.visible().len() ==> {
                let x = crate::children::listed_children(
                    s.current(),
                    s.sort,
                    s.reversed,
                    s.filter,
                )[i];
                (#[trigger] s.visible()[i]).path == x.path && s.visible()[i].size == x.size
                    && s.visible()[i].name == x.name && s.visible()[i].kind == x.kind
            },
        s.sort == SortKey::Size && !s.reversed ==> forall|i: int, j: int|
            0 <= i < j < s.visible().len() ==> (#[trigger] s.visible()[i]).size >= (
            #[trigger] s.visible()[j]).size,
        s.sort == SortKey::Size && s.reversed ==> forall|i: int, j: int|
            0 <= i < j < s.visible().len() ==> (#[trigger] s.visible()[i]).size <= (
            #[trigger] s.visible()[j]).size,
{
    let listed = crate::children::listed_children(s.current(), s.sort, s.reversed, s.filter);
    crate::listing_laws::lemma_listed_by_size(s.current(), s.filter);
    if s.sort == SortKey::Size {
        assert forall|i: int, j: int| 0 <= i < j < s.visible().len() implies if s.reversed {
            (#[trigger] s.visible()[i]).size <= (#[trigger] s.visible()[j]).size
        } else {
            s.visible()[i].size >= s.visible()[j].size
        } by {
            assert(s.visible()[i].size == listed[i].size);
            assert(s.visible()[j].size == listed[j].size);
        }
    }
}

/// What each key does in the list.
pub proof fn lemma_keys(s: State, key: KeyPress)
    requires
        in_list(s),
    ensures
        ({
            let to = s.pressed(key).0;
            let c = key.code;
            &&& c == KeyCode::Down || c == KeyCode::Char('j') ==> to == s.moved(1)
            &&& c == KeyCode::Up || c == KeyCode::Char('k') ==> to == s.moved(-1)
            &&& c == KeyCode::Enter || c == KeyCode::Right || c == KeyCode::Char('l') ==> to
                == s.opened()
            &&& c == KeyCode::Backspace || c == KeyCode::Left || c == KeyCode::Char('h') ==> to
                == s.parent_opened()
            &&& c == KeyCode::Char(' ') ==> to == s.toggled()
            &&& c == KeyCode::Char('a') ==> to == s.all_marked()
            &&& c == KeyCode::Char('c') ==> to == s.unconstrained()
            &&& c == KeyCode::Char('u') ==> to.marks == Map::<Seq<Seq<u8>>, Target>::empty()
                && to.root == s.root && to.path == s.path
            &&& c == KeyCode::Char('s') ==> to.sort == SortKey::Size && to.reversed == s.reversed
            &&& c == KeyCode::Char('n') ==> to.sort == SortKey::Name && to.reversed == s.reversed
            &&& c == KeyCode::Char('t') ==> to.sort == SortKey::Kind && to.reversed == s.reversed
            &&& c == KeyCode::Char('r') ==> to.sort == s.sort && to.reversed == !s.reversed
            &&& c == KeyCode::Char('/') ==> to == (State { filtering: true, ..s })
            &&& c == KeyCode::Char('?') ==> to == (State {
                searching: true,
                search_query: Seq::empty(),
                ..s
            })
            &&& c == KeyCode::Char('p') ==> to == (State { showing_full_path: true, ..s })
            &&& c == KeyCode::Other ==> s.pressed(key) == (s, Wish::Nothing)
        }),
        s.pressed(key).0.root == s.root,
        !(s.pressed(key).0.sort == s.sort && s.pressed(key).0.reversed == s.reversed)
            ==> s.pressed(key).0.selected == 0,
{
}

/// Keys for which nothing is said do nothing in the list.
pub proof fn lemma_other_keys(s: State, c: char, control: bool)
    requires
        in_list(s),
        !seq!['q', 'j', 'k', 'l', 'h', '/', '?', 'c', 'd', 'o', 'R', 'p', ' ', 'a', 'u', 's', 'n',
            't', 'r'].contains(c),
    ensures
        s.pressed((KeyPress { code: KeyCode::Char(c), control })) == (s, Wish::Nothing),
{
    let known = seq!['q', 'j', 'k', 'l', 'h', '/', '?', 'c', 'd', 'o', 'R', 'p', ' ', 'a', 'u', 's',
        'n', 't', 'r'];
    assert(known[0] == 'q' && known[1] == 'j' && known[2] == 'k' && known[3] == 'l' && known[4]
        == 'h' && known[5] == '/' && known[6] == '?' && known[7] == 'c' && known[8] == 'd'
        && known[9] == 'o' && known[10] == 'R' && known[11] == 'p' && known[12] == ' ' && known[13]
        == 'a' && known[14] == 'u' && known[15] == 's' && known[16] == 'n' && known[17] == 't'
        && known[18] == 'r');
    assert forall|i: int| 0 <= i < known.len() implies c != #[trigger] known[i] by {
        assert(known.contains(known[i]));
    }
}

/// While a filter is typed, a character is added to it and the deletion key takes
/// its last one away, both at once with the list that it leaves; Enter and the
/// escape key end typing and keep the filter.
pub proof fn lemma_filter_typed(s: State, key: KeyPress)
    requires
        !s.showing_full_path,
        s.pending_delete is None,
        !s.active_refresh,
        !s.searching,
        s.filtering,
    ensures
        ({
            let to = s.pressed(key).0;
            &&& s.pressed(key).1 is Nothing
            &&& key.code matches KeyCode::Char(c) ==> to.filter == (if c == 'u' && key.control {
                Seq::empty()
            } else {
                s.filter.push(c)
            }) && to.selected == 0 && to.filtering
            &&& key.code == KeyCode::Backspace && s.filter.len() > 0 ==> to.filter
                == s.filter.drop_last() && to.selected == 0
            &&& key.code == KeyCode::Enter || key.code == KeyCode::Esc ==> to == (State {
                filtering: false,
                ..s
            })
            &&& to.root == s.root && to.path == s.path && to.marks == s.marks
        }),
{
}

/// While a query is typed, characters are added to it and taken away from it,
/// and the escape key ends typing without a search.
pub proof fn lemma_query_typed(s: State, key: KeyPress)
    requires
        !s.showing_full_path,
        s.pending_delete is None,
        !s.active_refresh,
        s.searching,
    ensures
        ({
            let to = s.pressed(key).0;
            &&& key.code matches KeyCode::Char(c) ==> to == (State {
                search_query: if c == 'u' && key.control {
                    Seq::empty()
                } else {
                    s.search_query.push(c)
                },
                ..s
            })
            &&& key.code == KeyCode::Backspace && s.search_query.len() > 0 ==> to == (State {
                search_query: s.search_query.drop_last(),
                ..s
            })
            &&& key.code == KeyCode::Esc ==> to == (State { searching: false, ..s })
            &&& key.code == KeyCode::Enter && crate::text::trimmed(s.search_query).len() == 0
                ==> to.search_results is None && !to.searching && s.pressed(key).1 is Nothing
        }),
{
}

/// The mouse scrolls by one entry, and does nothing while something is asked or
/// typed.
pub proof fn lemma_mouse(s: State)
    ensures
        s.pending_delete is None && !s.searching && !s.filtering ==> s.scrolled(
            MouseEventKind::ScrollDown,
        ) == s.moved(1) && s.scrolled(MouseEventKind::ScrollUp) == s.moved(-1),
        s.pending_delete is Some || s.searching || s.filtering ==> s.scrolled(
            MouseEventKind::ScrollDown,
        ) == s && s.scrolled(MouseEventKind::ScrollUp) == s,
        s.scrolled(MouseEventKind::Other) == s,
{
}

/// After a new scan of a directory, marks and cursors are left exactly for the
/// paths that the tree still has, as they were; everything outside of the
/// directory is as it was; and the directory that is shown is the one that was,
/// or the nearest above it that there still is.
pub proof fn lemma_refresh_keeps(s: State, rescan: Rescan)
    requires
        orderly(s),
        rescan.found is Some,
        crate::tree::countable(rescan.found->0),
        crate::tree::node_at(s.root, rescan.indices) is Some,
    ensures
        ({
            let r = s.refreshed(rescan);
            &&& crate::tree::node_at(r.root, rescan.indices) == rescan.found
            &&& forall|k: Seq<Seq<u8>>| #[trigger]
                r.marks.dom().contains(k) <==> s.marks.dom().contains(k) && crate::state::has_path(
                    r.root,
                    k,
                )
            &&& forall|k: Seq<Seq<u8>>| #[trigger]
                r.marks.dom().contains(k) ==> r.marks[k] == s.marks[k]
            &&& forall|k: Seq<Seq<u8>>| #[trigger]
                r.cursors.dom().contains(k) <==> s.cursors.dom().contains(k)
                    && crate::state::has_path(r.root, k)
            &&& r.path.is_prefix_of(s.path)
            &&& crate::tree::node_at(r.root, r.path) is Some
            &&& crate::tree::node_at(r.root, s.path) is Some ==> r.path == s.path
            &&& forall|k: int|
                0 <= k <= s.path.len() && crate::tree::node_at(
                    r.root,
                    #[trigger] s.path.take(k),
                ) is Some ==> k <= r.path.len()
            &&& r.search_results is None && r.sort == s.sort && r.reversed == s.reversed
                && r.filter == s.filter
        }),
        forall|other: Seq<usize>|
            !rescan.indices.is_prefix_of(other) && !other.is_prefix_of(rescan.indices)
                ==> #[trigger] crate::tree::node_at(s.refreshed(rescan).root, other)
                == crate::tree::node_at(s.root, other),
{
    let tree = rescan.found->0;
    crate::browser_laws::lemma_refreshed(s, rescan);
    crate::tree::lemma_replaced(s.root, rescan.indices, tree);
    let root = crate::tree::replaced_at(s.root, rescan.indices, tree)->0;
    crate::tree::lemma_valid_prefix(root, s.path);
    let wanted = crate::state::found_in(root);
    let r = s.refreshed(rescan);
    assert forall|k: Seq<Seq<u8>>| #[trigger] r.marks.dom().contains(k) <==> s.marks.dom().contains(
        k,
    ) && crate::state::has_path(root, k) by {
        assert(wanted(k) == crate::state::has_path(root, k));
    }
    assert forall|k: Seq<Seq<u8>>| #[trigger]
        r.cursors.dom().contains(k) <==> s.cursors.dom().contains(k) && crate::state::has_path(
        root,
        k,
    ) by {
        assert(wanted(k) == crate::state::has_path(root, k));
    }
    assert forall|k: int|
        0 <= k <= s.path.len() && crate::tree::node_at(
            root,
            #[trigger] s.path.take(k),
        ) is Some implies k <= r.path.len() by {
        crate::tree_laws::lemma_valid_prefix_longest(root, s.path, k);
    }
    assert forall|other: Seq<usize>|
        !rescan.indices.is_prefix_of(other) && !other.is_prefix_of(
            rescan.indices,
        ) implies #[trigger] crate::tree::node_at(root, other) == crate::tree::node_at(
        s.root,
        other,
    ) by {
        crate::tree::lemma_replaced_elsewhere(s.root, rescan.indices, tree, other);
    }
}

/// After entries were moved to the trash, marks and cursors are left exactly for
/// the paths that lie outside of them, as they were, and the directory that is
/// shown exists.
pub proof fn lemma_trash_keeps(s: State, report: TrashReport)
    ensures
        ({
            let r = s.trashed(report);
            let gone = |k: Seq<Seq<u8>>|
                exists|i: int|
                    0 <= i < report.gone.len() && crate::paths::parts(
                        (#[trigger] report.gone[i]).path,
                    ).is_prefix_of(k);
            &&& forall|k: Seq<Seq<u8>>| #[trigger]
                r.marks.dom().contains(k) <==> s.marks.dom().contains(k) && !gone(k)
            &&& forall|k: Seq<Seq<u8>>| #[trigger]
                r.marks.dom().contains(k) ==> r.marks[k] == s.marks[k]
            &&& forall|k: Seq<Seq<u8>>| #[trigger]
                r.cursors.dom().contains(k) <==> s.cursors.dom().contains(k) && !gone(k)
            &&& crate::tree::node_at(r.root, r.path) is Some
            &&& r.search_results is None && r.sort == s.sort && r.reversed == s.reversed
                && r.filter == s.filter
            &&& r.selected < r.visible().len() || r.selected == 0
        }),
{
    let r = s.trashed(report);
    let gone = |k: Seq<Seq<u8>>|
        exists|i: int|
            0 <= i < report.gone.len() && crate::paths::parts(
                (#[trigger] report.gone[i]).path,
            ).is_prefix_of(k);
    let wanted = crate::state::outside_of(report.gone);
    assert forall|k: Seq<Seq<u8>>| #[trigger] wanted(k) == !gone(k) by {
        if crate::state::within_gone(k, report.gone) {
            let i = choose|i: int|
                0 <= i < report.gone.len() && crate::state::key_of(
                    (#[trigger] report.gone[i]).path,
                ).is_prefix_of(k);
            assert(crate::paths::parts(report.gone[i].path).is_prefix_of(k));
        }
        if gone(k) {
            let i = choose|i: int|
                0 <= i < report.gone.len() && crate::paths::parts(
                    (#[trigger] report.gone[i]).path,
                ).is_prefix_of(k);
            assert(crate::state::key_of(report.gone[i].path).is_prefix_of(k));
        }
    }
    assert forall|k: Seq<Seq<u8>>| #[trigger] r.marks.dom().contains(k) <==> s.marks.dom().contains(
        k,
    ) && !gone(k) by {
        assert(wanted(k) == !gone(k));
    }
    assert forall|k: Seq<Seq<u8>>| #[trigger]
        r.cursors.dom().contains(k) <==> s.cursors.dom().contains(k) && !gone(k) by {
        assert(wanted(k) == !gone(k));
    }
    let root = crate::removal::removed_all(s.root, report.gone);
    crate::tree::lemma_valid_prefix(
        root,
        crate::removal::adjusted_in_turn(s.path, report.gone),
    );
    let before = State {
        root,
        path: r.path,
        marks: r.marks,
        cursors: r.cursors,
        search_results: None,
        ..s
    };
    crate::browser_laws::lemma_cursor_in_list(before, 0);
    assert(r.visible() =~= before.returning().visible());
}

/// Whoever looks at an entry that is moved to the trash, or at something in it,
/// sees the directory afterwards in which that entry was listed.
pub proof fn lemma_trash_around(s: State, report: TrashReport)
    requires
        orderly(s),
        report.gone.len() == 1,
        crate::removal::stands(s.root, report.gone[0]),
        report.gone[0].indices.is_prefix_of(s.path),
    ensures
        s.trashed(report).path == report.gone[0].indices.drop_last(),
        crate::removal::same_entry(
            s.trashed(report).current(),
            crate::tree::node_at(s.root, report.gone[0].indices.drop_last())->0,
        ),
{
    let gone = report.gone;
    let g = gone[0];
    assert(gone =~= seq![g]);
    assert(gone.drop_last() =~= Seq::<Target>::empty());
    assert(crate::removal::removal_order(gone) =~= gone) by {
        let le = |a: Target, b: Target| crate::removal::indices_le(b.indices, a.indices);
        assert(crate::order::stable_sorted(gone.drop_last(), le) =~= Seq::<Target>::empty());
        assert(crate::order::inserted(Seq::<Target>::empty(), g, le) =~= seq![g]);
    }
    let root = crate::removal::removed_all(s.root, gone);
    assert(crate::removal::removed_in_turn(s.root, gone.drop_last()) == s.root);
    assert(root == crate::removal::removed_one(s.root, g));
    assert(crate::removal::adjusted_in_turn(s.path, gone.drop_last()) == s.path);
    crate::removal::lemma_removed_around(s.root, g, s.path);
    let path = crate::removal::adjusted_in_turn(s.path, gone);
    crate::tree::lemma_valid_prefix(root, path);
    crate::tree::lemma_followed(root, path);
}

/// A search shows every found path that the tree has: the list has an entry with
/// it.
pub proof fn lemma_search_shown(s: State, report: SearchReport, k: int, n: int) -> (i: int)
    requires
        report.error is None,
        crate::tree::countable(s.root),
        0 <= k < report.paths.len(),
        0 <= n < crate::tree::preorder(s.root).len(),
        crate::paths::parts(crate::tree::preorder(s.root)[n].path) == crate::paths::parts(
            report.paths[k],
        ),
    ensures
        0 <= i < s.searched(report).visible().len(),
        crate::paths::parts(s.searched(report).visible()[i].path) == crate::paths::parts(
            report.paths[k],
        ),
{
    lemma_located_shown(s.root, report.paths, k, n)
}

proof fn lemma_located_shown(root: Tree, paths: Seq<Seq<u8>>, k: int, n: int) -> (i: int)
    requires
        crate::tree::countable(root),
        0 <= k < paths.len(),
        0 <= n < crate::tree::preorder(root).len(),
        crate::paths::parts(crate::tree::preorder(root)[n].path) == crate::paths::parts(paths[k]),
    ensures
        ({
            let list = crate::state::result_items(
                root,
                crate::state::located_paths(root, paths),
            );
            0 <= i < list.len() && crate::paths::parts(list[i].path) == crate::paths::parts(
                paths[k],
            )
        }),
    decreases paths.len(),
{
    let d = paths.drop_last();
    let entries = crate::state::located_paths(root, d);
    let list = crate::state::result_items(root, entries);
    crate::tree::lemma_located(root, paths.last());
    if let Some(indices) = crate::tree::located(root, paths.last()) {
        assert(entries.push(indices).drop_last() =~= entries);
    }
    if k < d.len() {
        lemma_located_shown(root, d, k, n)
    } else {
        lemma_no_first(crate::tree::preorder(root), paths.last(), n);
        list.len() as int
    }
}

proof fn lemma_no_first(ts: Seq<Tree>, path: Seq<u8>, n: int)
    requires
        0 <= n < ts.len(),
        crate::paths::parts(ts[n].path) == crate::paths::parts(path),
    ensures
        crate::tree::first_at(ts, path) is Some,
    decreases ts.len(),
{
    if crate::paths::parts(ts[0].path) != crate::paths::parts(path) {
        assert(ts.drop_first()[n - 1] == ts[n]);
        lemma_no_first(ts.drop_first(), path, n - 1);
    }
}

/// What a search says it has found is what the search told: its query and how
/// many there are; a search that failed changes nothing but the message.
pub proof fn lemma_search_told(s: State, report: SearchReport)
    ensures
        report.error is None ==> {
            let r = s.searched(report);
            &&& r.search_results is Some && r.search_results->0.query == report.query
            &&& r.search_results->0.total_matched == report.total_matched
            &&& r.selected == 0 && r.root == s.root && r.path == s.path && r.marks == s.marks
        },
        report.error is Some ==> s.searched(report) == (State {
            status: s.searched(report).status,
            ..s
        }),
{
}

/// One more attempt to move an entry to the trash: where it did not fail, the
/// entry is one more of those that are gone, behind the others; where it did,
/// there is one more message, with the path of the entry and the reason.
pub proof fn lemma_trash_report(
    attempts: Seq<(Target, Option<Seq<char>>)>,
    target: Target,
    error: Option<Seq<char>>,
)
    ensures
        ({
            let before = crate::state::trash_report(attempts);
            let after = crate::state::trash_report(attempts.push((target, error)));
            match error {
                None => after.gone == before.gone.push(target) && after.errors == before.errors,
                Some(reason) => {
                    &&& after.gone == before.gone
                    &&& after.errors == before.errors.push(
                        crate::paths::shown(target.path) + ": "@ + reason,
                    )
                },
            }
        }),
        attempts.len() <= usize::MAX ==> crate::state::trash_report(attempts).total
            == attempts.len() && crate::state::trash_report(attempts).removed
            == crate::state::trash_report(attempts).gone.len(),
        attempts.len() == 0 ==> crate::state::trash_report(attempts).gone.len() == 0
            && crate::state::trash_report(attempts).errors.len() == 0,
{
    reveal(Seq::filter);
    let all = attempts.push((target, error));
    assert(all.drop_last() =~= attempts);
    let f = |a: (Target, Option<Seq<char>>)| a.1 is None;
    let g = |a: (Target, Option<Seq<char>>)| a.1 is Some;
    let first = |a: (Target, Option<Seq<char>>)| a.0;
    let text = |a: (Target, Option<Seq<char>>)| crate::state::failure_text(a.0.path, a.1->0);
    attempts.lemma_filter_len(f);
    if error is None {
        assert(attempts.filter(f).push((target, error)).map_values(first) =~= attempts.filter(
            f,
        ).map_values(first).push(target));
    } else {
        assert(attempts.filter(g).push((target, error)).map_values(text) =~= attempts.filter(
            g,
        ).map_values(text).push(crate::state::failure_text(target.path, error->0)));
    }
}

/// The browser starts at the root, with its children by size, the larger ones
/// first, the cursor on the first, and nothing marked, typed, asked or running.
pub proof fn lemma_start(root: Tree)
    ensures
        ({
            let s = crate::state::started(root);
            &&& s.root == root && s.path.len() == 0 && s.selected == 0
            &&& s.sort == SortKey::Size && !s.reversed && s.filter.len() == 0
            &&& s.search_results is None && s.pending_delete is None
            &&& !s.filtering && !s.searching && !s.active_search && !s.active_delete
                && !s.active_refresh && !s.showing_full_path
            &&& s.status is None
            &&& forall|k: Seq<Seq<u8>>|
                !(#[trigger] s.marks.dom().contains(k)) && !s.cursors.dom().contains(k)
            &&& s.current() == root
        }),
{
}

/// What a search found is listed in its order: one more entry is behind the
/// others, with its positions, where the tree has it, and else not there.
pub proof fn lemma_results_order(root: Tree, entries: Seq<Seq<usize>>, at: Seq<usize>)
    ensures
        ({
            let before = crate::state::result_items(root, entries);
            let after = crate::state::result_items(root, entries.push(at));
            match crate::tree::node_at(root, at) {
                Some(n) => {
                    &&& after.len() == before.len() + 1
                    &&& after.drop_last() == before
                    &&& after.last().indices == at
                    &&& after.last().path == n.path && after.last().name == n.name
                    &&& after.last().size == n.size && after.last().kind == n.kind
                },
                None => after == before,
            }
        }),
        crate::state::result_items(root, Seq::empty()).len() == 0,
{
    assert(entries.push(at).drop_last() =~= entries);
    let before = crate::state::result_items(root, entries);
    let after = crate::state::result_items(root, entries.push(at));
    if crate::tree::node_at(root, at) is Some {
        assert(after.drop_last() =~= before);
    }
}

/// The paths that a search found are located in their order: one more path is
/// behind the others where the tree has it, at positions of an entry with it.
pub proof fn lemma_located_order(root: Tree, paths: Seq<Seq<u8>>, path: Seq<u8>)
    requires
        crate::tree::countable(root),
    ensures
        ({
            let before = crate::state::located_paths(root, paths);
            let after = crate::state::located_paths(root, paths.push(path));
            if exists|n: int|
                0 <= n < crate::tree::preorder(root).len() && crate::paths::parts(
                    (#[trigger] crate::tree::preorder(root)[n]).path,
                ) == crate::paths::parts(path) {
                &&& after.len() == before.len() + 1
                &&& after.drop_last() == before
                &&& crate::tree::node_at(root, after.last()) matches Some(x)
                    && crate::paths::parts(x.path) == crate::paths::parts(path)
            } else {
                after == before
            }
        }),
{
    assert(paths.push(path).drop_last() =~= paths);
    crate::tree::lemma_located(root, path);
    let all = crate::tree::preorder(root);
    let before = crate::state::located_paths(root, paths);
    let after = crate::state::located_paths(root, paths.push(path));
    if exists|n: int|
        0 <= n < all.len() && crate::paths::parts((#[trigger] all[n]).path)
            == crate::paths::parts(path) {
        let n = choose|n: int|
            0 <= n < all.len() && crate::paths::parts((#[trigger] all[n]).path)
                == crate::paths::parts(path);
        lemma_no_first(all, path, n);
        assert(after.drop_last() =~= before);
    } else if let Some(at) = crate::tree::located(root, path) {
        crate::tree_laws::lemma_listed_in_preorder(root, at);
        let x = crate::tree::node_at(root, at)->0;
        let n = choose|n: int| 0 <= n < all.len() && all[n] == x;
        assert(crate::paths::parts(all[n].path) == crate::paths::parts(path));
    }
}

/// Moving the cursor, opening a directory and leaving one remember the cursor of
/// the directory that was shown; a directory that was not shown before begins at
/// its first entry.
pub proof fn lemma_cursors(s: State, delta: int)
    requires
        orderly(s),
    ensures
        ({
            let key = crate::paths::parts(s.current().path);
            &&& s.visible().len() > 0 ==> s.moved(delta).cursors.dom().contains(key)
                && s.moved(delta).cursors[key] == s.moved(delta).selected
            &&& s.selected < s.visible().len() ==> s.opened().cursors.dom().contains(key)
                && s.opened().cursors[key] == s.selected
            &&& s.parent_opened().cursors.dom().contains(key) && s.parent_opened().cursors[key]
                == s.selected
            &&& s.selected < s.visible().len() && s.visible()[s.selected as int].kind
                == EntryKind::Directory && !s.cursors.dom().contains(
                crate::paths::parts(s.visible()[s.selected as int].path),
            ) && crate::paths::parts(s.visible()[s.selected as int].path) != key
                ==> s.opened().selected == 0
        }),
{
    if s.selected < s.visible().len() {
        lemma_opened(s);
    }
}

/// While a full path is shown, every key but those that end it does nothing.
pub proof fn lemma_full_path_stays(s: State, key: KeyPress)
    requires
        s.showing_full_path,
        key.code != KeyCode::Esc,
        key.code != KeyCode::Enter,
        key.code != KeyCode::Char('p'),
        key.code != KeyCode::Char('q'),
    ensures
        s.pressed(key) == (s, Wish::Nothing),
{
    assert(s.pressed(key).0 =~= s);
}

/// While a directory is scanned again, every key but those that cancel the scan
/// does nothing, and those change nothing but the message.
pub proof fn lemma_refresh_waits(s: State, key: KeyPress)
    requires
        !s.showing_full_path,
        s.pending_delete is None,
        s.active_refresh,
    ensures
        key.code != KeyCode::Esc && key.code != KeyCode::Char('q') ==> s.pressed(key) == (
            s,
            Wish::Nothing,
        ),
        s.pressed(key).0 == (State { status: s.pressed(key).0.status, ..s }),
{
}

/// Work that ended is no longer under way, whatever came of it; work of which
/// nothing was heard changes nothing, and work that ended without an outcome
/// changes nothing else but the message.
pub proof fn lemma_polled(
    s: State,
    trash: crate::state::Received<crate::state::DeleteOutcome>,
    scan: crate::state::Received<crate::state::RefreshOutcome>,
    search: crate::state::Received<crate::state::SearchOutcome>,
)
    ensures
        trash is Nothing ==> s.trash_polled(trash) == s,
        scan is Nothing ==> s.refresh_polled(scan) == s,
        search is Nothing ==> s.search_polled(search) == s,
        !(trash is Nothing) ==> !s.trash_polled(trash).active_delete,
        !(scan is Nothing) ==> !s.refresh_polled(scan).active_refresh,
        !(search is Nothing) ==> !s.search_polled(search).active_search,
        trash is Disconnected ==> s.trash_polled(trash) == (State {
            active_delete: false,
            status: s.trash_polled(trash).status,
            ..s
        }),
        scan is Disconnected ==> s.refresh_polled(scan) == (State {
            active_refresh: false,
            status: s.refresh_polled(scan).status,
            ..s
        }),
        search is Disconnected ==> s.search_polled(search) == (State {
            active_search: false,
            status: s.search_polled(search).status,
            ..s
        }),
        trash matches crate::state::Received::Outcome(o) ==> s.trash_polled(trash).root
            == crate::removal::removed_all(s.root, crate::removal::targets(o.removed_targets@)),
{
}

/// What the browser tells of what was done: how many entries, and the first
/// reason why something failed.
pub proof fn lemma_messages(
    s: State,
    trash: TrashReport,
    search: SearchReport,
    attempts: Seq<(Target, Option<Seq<char>>)>,
)
    ensures
        trash.errors.len() == 0 ==> s.trashed(trash).status == Some(
            "Moved "@ + crate::text::decimal(trash.removed as nat) + " item(s) to trash"@,
        ),
        trash.errors.len() > 0 ==> s.trashed(trash).status == Some(
            "Moved "@ + crate::text::decimal(trash.removed as nat) + "/"@ + crate::text::decimal(
                trash.total as nat,
            ) + "; first error: "@ + trash.errors[0],
        ),
        s.all_marked().status == Some(
            "Marked "@ + crate::text::decimal(s.visible().len()) + " visible item(s)"@,
        ),
        search.error matches Some(e) ==> s.searched(search).status == Some(
            "Search failed: "@ + e,
        ),
        search.error is None ==> {
            let n = crate::state::located_paths(s.root, search.paths).len();
            s.searched(search).status == Some(
                "Search matched "@ + crate::text::decimal(search.total_matched as nat)
                    + " item(s), "@ + (if n < search.total_matched {
                    "showing first "@
                } else {
                    "showing "@
                }) + crate::text::decimal(n),
            )
        },
        s.selected < s.visible().len() ==> {
            let item = s.visible()[s.selected as int];
            s.toggled().status == Some(
                (if s.marks.dom().contains(crate::paths::parts(item.path)) {
                    "Unmarked "@
                } else {
                    "Marked "@
                }) + crate::paths::shown(item.path),
            )
        },
        s.pending_delete matches Some(list) ==> s.delete_confirmed().0.status == Some(
            "Moving "@ + crate::text::decimal(list.len()) + " item(s) to trash..."@,
        ),
        s.revealed(attempts) == (State { status: s.revealed(attempts).status, ..s }),
        crate::state::failures_of(attempts).len() == 0 ==> s.revealed(attempts).status == Some(
            "Opened "@ + crate::text::decimal(crate::state::done_with(attempts).len())
                + " item(s) in file manager"@,
        ),
        crate::state::failures_of(attempts).len() > 0 ==> s.revealed(attempts).status == Some(
            "Opened "@ + crate::text::decimal(crate::state::done_with(attempts).len()) + "/"@
                + crate::text::decimal(attempts.len()) + "; first error: "@
                + crate::state::failures_of(attempts)[0],
        ),
{
}

/// What is told of a search is what it found, or why it failed.
pub proof fn lemma_search_report(query: Seq<char>, hits: crate::search::SearchHits, reason: String)
    ensures
        ({
            let r = crate::state::search_report(query, Ok(hits));
            &&& r.query == query && r.error is None && r.total_matched == hits.total_matched
            &&& r.paths.len() == hits.hits@.len()
            &&& forall|i: int|
                0 <= i < hits.hits@.len() ==> #[trigger] r.paths[i] == hits.hits@[i].path@
        }),
        ({
            let r = crate::state::search_report(query, Err(reason));
            r.query == query && r.error == Some(reason@) && r.paths.len() == 0
        }),
{
}

} // verus!
