//! What holds of marks, and of moving what they stand for to the trash.

use vstd::prelude::*;

#[allow(unused_imports)]
use crate::browser_laws::{orderly, siblings_differ};
#[allow(unused_imports)]
use crate::removal::Target;
use crate::state::{Command, KeyPress};
#[allow(unused_imports)]
use crate::state::{Item, State, TrashReport};
#[allow(unused_imports)]
use crate::tree::{EntryKind, Tree};

verus! {

/// Whether an entry to delete says what is true of the tree: at its positions
/// stands an entry with its path, its size and its counts.
pub open spec fn true_of(root: Tree, target: Target) -> bool {
    crate::tree::node_at(root, target.indices) matches Some(n) && {
        &&& crate::paths::parts(n.path) == crate::paths::parts(target.path)
        &&& n.size == target.size
        &&& n.file_count == target.file_count
        &&& n.dir_count == target.dir_count
        &&& n.error_count == target.error_count
    }
}

/// Whether all marks say what is true of the tree, each under the path of its
/// entry.
pub open spec fn marks_true(s: State) -> bool {
    forall|k: Seq<Seq<u8>>| #[trigger]
        s.marks.dom().contains(k) ==> true_of(s.root, s.marks[k]) && crate::paths::parts(
            s.marks[k].path,
        ) == k
}

/// Whether the list shows entries that can be told apart by their paths.
pub open spec fn list_tells_apart(s: State) -> bool {
    s.search_results is None ==> siblings_differ(s.current().children)
}

/// Every entry of the list shows what stands in the tree at its positions: the
/// path, the name, the kind, the size and the counts of the entry there.
pub proof fn lemma_shown_is_true(s: State, i: int)
    requires
        orderly(s),
        list_tells_apart(s),
        0 <= i < s.visible().len(),
    ensures
        ({
            let item = s.visible()[i];
            crate::tree::node_at(s.root, item.indices) matches Some(n) && {
                &&& item.path == n.path
                &&& item.name == n.name
                &&& item.kind == n.kind
                &&& item.size == n.size
                &&& item.file_count == n.file_count
                &&& item.dir_count == n.dir_count
                &&& item.error_count == n.error_count
            }
        }),
{
    if s.search_results is Some {
        crate::browser_laws::lemma_visible_results(s, i);
    } else {
        crate::browser_laws::lemma_visible(s, i);
        let node = s.current();
        crate::tree::lemma_followed(s.root, s.path);
        crate::children::lemma_listed_children(node, s.sort, s.reversed, s.filter);
        let listed = crate::children::listed_children(node, s.sort, s.reversed, s.filter);
        assert(listed.contains(listed[i]));
        let k = choose|k: int| 0 <= k < node.children.len() && node.children[k] == listed[i];
        let at = s.visible()[i].indices.last();
        assert(s.visible()[i].indices == s.path.push(at));
        crate::browser_laws::lemma_node_at_push(s.root, s.path, at);
        let n = node.children[at as int];
        assert(crate::paths::parts(n.path) == crate::paths::parts(node.children[k].path));
        if k < at {
            assert(crate::paths::parts(node.children[k].path) != crate::paths::parts(
                node.children[at as int].path,
            ));
        } else if at < k {
            assert(crate::paths::parts(node.children[at as int].path) != crate::paths::parts(
                node.children[k].path,
            ));
        }
    }
}

/// What an entry of the list would be deleted as is true of the tree.
proof fn lemma_target_true(s: State, i: int)
    requires
        orderly(s),
        list_tells_apart(s),
        0 <= i < s.visible().len(),
    ensures
        true_of(s.root, crate::state::target_of(s.visible()[i])),
        crate::state::target_of(s.visible()[i]).path == s.visible()[i].path,
{
    lemma_shown_is_true(s, i);
}

proof fn lemma_with_marks(marks: Map<Seq<Seq<u8>>, Target>, list: Seq<Item>, root: Tree)
    requires
        forall|i: int|
            0 <= i < list.len() ==> true_of(root, crate::state::target_of(#[trigger] list[i]))
                && crate::state::target_of(list[i]).path == list[i].path,
    ensures
        ({
            let all = crate::state::with_marks(marks, list);
            &&& forall|i: int|
                0 <= i < list.len() ==> {
                    let k = crate::paths::parts((#[trigger] list[i]).path);
                    all.dom().contains(k) && true_of(root, all[k]) && crate::paths::parts(
                        all[k].path,
                    ) == k
                }
            &&& forall|k: Seq<Seq<u8>>|
                (forall|i: int|
                    0 <= i < list.len() ==> crate::paths::parts((#[trigger] list[i]).path) != k)
                    ==> (#[trigger] all.dom().contains(k) <==> marks.dom().contains(k)) && (
                marks.dom().contains(k) ==> all[k] == marks[k])
            &&& forall|k: Seq<Seq<u8>>| #[trigger]
                all.dom().contains(k) ==> (marks.dom().contains(k) && all[k] == marks[k]) || (
                true_of(root, all[k]) && crate::paths::parts(all[k].path) == k)
        }),
    decreases list.len(),
{
    let all = crate::state::with_marks(marks, list);
    if list.len() > 0 {
        let d = list.drop_last();
        let last = list.last();
        assert(list[list.len() - 1] == last);
        assert forall|i: int| 0 <= i < d.len() implies true_of(
            root,
            crate::state::target_of(#[trigger] d[i]),
        ) && crate::state::target_of(d[i]).path == d[i].path by {
            assert(list[i] == d[i]);
        }
        lemma_with_marks(marks, d, root);
        let earlier = crate::state::with_marks(marks, d);
        let key = crate::paths::parts(last.path);
        assert forall|i: int| 0 <= i < list.len() implies ({
            let k = crate::paths::parts((#[trigger] list[i]).path);
            all.dom().contains(k) && true_of(root, all[k]) && crate::paths::parts(all[k].path) == k
        }) by {
            if i < d.len() {
                assert(d[i] == list[i]);
            }
        }
        assert forall|k: Seq<Seq<u8>>|
            (forall|i: int|
                0 <= i < list.len() ==> crate::paths::parts((#[trigger] list[i]).path)
                    != k) implies (#[trigger] all.dom().contains(k) <==> marks.dom().contains(k))
            && (marks.dom().contains(k) ==> all[k] == marks[k]) by {
            assert(crate::paths::parts(list[list.len() - 1].path) != k);
            assert forall|i: int| 0 <= i < d.len() implies crate::paths::parts(
                (#[trigger] d[i]).path,
            ) != k by {
                assert(d[i] == list[i]);
            }
            assert(earlier.dom().contains(k) <==> marks.dom().contains(k));
        }
        assert forall|k: Seq<Seq<u8>>| #[trigger] all.dom().contains(k) implies (
        marks.dom().contains(k) && all[k] == marks[k]) || (true_of(root, all[k])
            && crate::paths::parts(all[k].path) == k) by {
            if k != key {
                assert(earlier.dom().contains(k));
            }
        }
    }
}

/// Marking what is visible gives every entry of the list a mark, under its path,
/// that says what is true of the tree: where the entry stands, its size and its
/// counts. All other marks stay as they are, and there are no others.
pub proof fn lemma_all_marked_true(s: State)
    requires
        orderly(s),
        list_tells_apart(s),
    ensures
        ({
            let after = s.all_marked();
            &&& after.root == s.root
            &&& forall|i: int|
                0 <= i < s.visible().len() ==> {
                    let k = crate::paths::parts((#[trigger] s.visible()[i]).path);
                    after.marks.dom().contains(k) && true_of(s.root, after.marks[k])
                        && crate::paths::parts(after.marks[k].path) == k
                }
            &&& forall|k: Seq<Seq<u8>>|
                (forall|i: int|
                    0 <= i < s.visible().len() ==> crate::paths::parts(
                        (#[trigger] s.visible()[i]).path,
                    ) != k) ==> (#[trigger] after.marks.dom().contains(k) <==> s.marks.dom().contains(
                    k,
                )) && (s.marks.dom().contains(k) ==> after.marks[k] == s.marks[k])
            &&& marks_true(s) ==> marks_true(after)
        }),
{
    assert forall|i: int| 0 <= i < s.visible().len() implies true_of(
        s.root,
        crate::state::target_of(#[trigger] s.visible()[i]),
    ) && crate::state::target_of(s.visible()[i]).path == s.visible()[i].path by {
        lemma_target_true(s, i);
    }
    lemma_with_marks(s.marks, s.visible(), s.root);
}

/// The mark that is set for the entry under the cursor says what is true of the
/// tree; no other mark changes, and where the entry had one it has none.
pub proof fn lemma_toggled_true(s: State)
    requires
        orderly(s),
        list_tells_apart(s),
        s.selected < s.visible().len(),
    ensures
        ({
            let after = s.toggled();
            let key = crate::paths::parts(s.visible()[s.selected as int].path);
            &&& after.root == s.root
            &&& after.marks.dom().contains(key) <==> !s.marks.dom().contains(key)
            &&& after.marks.dom().contains(key) ==> true_of(s.root, after.marks[key])
                && crate::paths::parts(after.marks[key].path) == key
            &&& forall|k: Seq<Seq<u8>>|
                k != key ==> (#[trigger] after.marks.dom().contains(k) <==> s.marks.dom().contains(
                    k,
                )) && (s.marks.dom().contains(k) ==> after.marks[k] == s.marks[k])
            &&& marks_true(s) ==> marks_true(after)
        }),
{
    lemma_target_true(s, s.selected as int);
}

/// Where all marks say what is true of the tree, they do after every key.
pub proof fn lemma_pressed_marks_true(s: State, key: KeyPress)
    requires
        orderly(s),
        list_tells_apart(s),
        marks_true(s),
    ensures
        marks_true(s.pressed(key).0),
{
    lemma_all_marked_true(s);
    if s.selected < s.visible().len() {
        lemma_toggled_true(s);
    }
    crate::browser_laws::lemma_pressed(s, key);
}

/// Taking all marks away leaves none.
pub proof fn lemma_unmarked(s: State, k: Seq<Seq<u8>>)
    ensures
        !s.commanded(Command::UnmarkAll).0.marks.dom().contains(k),
{
}

/// Without marks, an operation works on the entry under the cursor, as it
/// stands in the tree, and on nothing where there is none.
pub proof fn lemma_operation_on_cursor(s: State)
    requires
        orderly(s),
        list_tells_apart(s),
        s.marks.dom().len() == 0,
    ensures
        s.selected < s.visible().len() ==> {
            let list = s.operation_targets();
            &&& list.len() == 1
            &&& list[0].path == s.visible()[s.selected as int].path
            &&& list[0].indices == s.visible()[s.selected as int].indices
            &&& true_of(s.root, list[0])
        },
        s.selected >= s.visible().len() ==> s.operation_targets().len() == 0,
{
    assert(s.marks =~= Map::<Seq<Seq<u8>>, Target>::empty()) by {
        assert(s.marks.dom() =~= Set::<Seq<Seq<u8>>>::empty());
    }
    if s.selected < s.visible().len() {
        lemma_target_true(s, s.selected as int);
    }
}

/// With marks that say what is true of the tree, an operation works on entries
/// that say what is true of it, reaches every mark, and on none within another.
pub proof fn lemma_operation_on_marks(s: State)
    requires
        orderly(s),
        marks_true(s),
        s.marks.dom().len() > 0,
    ensures
        ({
            let list = s.operation_targets();
            &&& list.len() > 0
            &&& forall|i: int| 0 <= i < list.len() ==> true_of(s.root, #[trigger] list[i])
            &&& forall|k: Seq<Seq<u8>>| #[trigger]
                s.marks.dom().contains(k) ==> exists|j: int|
                    0 <= j < list.len() && crate::paths::parts(
                        (#[trigger] list[j]).path,
                    ).is_prefix_of(k)
            &&& forall|i: int, j: int|
                0 <= i < list.len() && 0 <= j < list.len() && i != j
                    ==> !crate::paths::lies_under(
                    (#[trigger] list[i]).path,
                    (#[trigger] list[j]).path,
                )
        }),
{
    crate::browser_laws::lemma_operation_targets(s);
    let list = s.operation_targets();
    assert forall|k: Seq<Seq<u8>>| #[trigger] s.marks.dom().contains(k) implies exists|j: int|
        0 <= j < list.len() && crate::paths::parts((#[trigger] list[j]).path).is_prefix_of(k) by {
        let j = choose|j: int|
            0 <= j < list.len() && crate::state::key_of((#[trigger] list[j]).path).is_prefix_of(k);
        assert(crate::paths::parts(list[j].path).is_prefix_of(k));
    }
    let k = s.marks.dom().choose();
    assert(s.marks.dom().contains(k));
    assert forall|i: int| 0 <= i < list.len() implies true_of(s.root, #[trigger] list[i]) by {
        assert(s.marks.dom().contains(crate::state::key_of(list[i].path)));
    }
}

/// The sum of a number over entries to delete.
pub open spec fn summed_up(gone: Seq<Target>, f: spec_fn(Target) -> nat) -> nat {
    gone.fold_left(0nat, |sum: nat, g: Target| sum + f(g))
}

proof fn lemma_summed_inserted(
    gone: Seq<Target>,
    g: Target,
    le: spec_fn(Target, Target) -> bool,
    f: spec_fn(Target) -> nat,
)
    ensures
        summed_up(crate::order::inserted(gone, g, le), f) == summed_up(gone, f) + f(g),
    decreases gone.len(),
{
    if gone.len() == 0 || le(gone.last(), g) {
        assert(gone.push(g).drop_last() =~= gone);
    } else {
        let d = gone.drop_last();
        lemma_summed_inserted(d, g, le, f);
        let u = crate::order::inserted(d, g, le);
        assert(u.push(gone.last()).drop_last() =~= u);
    }
}

proof fn lemma_summed_sorted(
    gone: Seq<Target>,
    le: spec_fn(Target, Target) -> bool,
    f: spec_fn(Target) -> nat,
)
    ensures
        summed_up(crate::order::stable_sorted(gone, le), f) == summed_up(gone, f),
    decreases gone.len(),
{
    if gone.len() > 0 {
        let d = gone.drop_last();
        lemma_summed_sorted(d, le, f);
        lemma_summed_inserted(crate::order::stable_sorted(d, le), gone.last(), le, f);
    }
}

/// What the totals of a tree are after entries were removed: what they were
/// without those of the entries.
pub open spec fn lost_exactly(before: Tree, after: Tree, gone: Seq<Target>) -> bool {
    &&& after.size + summed_up(gone, |g: Target| g.size as nat) == before.size
    &&& after.file_count + summed_up(gone, |g: Target| g.file_count as nat) == before.file_count
    &&& after.dir_count + summed_up(gone, |g: Target| g.dir_count as nat) == before.dir_count
    &&& after.error_count + summed_up(gone, |g: Target| g.error_count as nat)
        == before.error_count
}

proof fn lemma_turn_loses(t: Tree, gone: Seq<Target>, k: int)
    requires
        crate::totals::adds_up(t),
        crate::removal::removable(gone),
        forall|i: int|
            0 <= i < gone.len() ==> crate::removal::stands(t, #[trigger] gone[i])
                && crate::totals::described(t, gone[i]),
        0 <= k <= gone.len(),
    ensures
        crate::totals::adds_up(crate::removal::removed_in_turn(t, gone.take(k))),
        lost_exactly(t, crate::removal::removed_in_turn(t, gone.take(k)), gone.take(k)),
    decreases k,
{
    if k == 0 {
        assert(gone.take(0) =~= Seq::<Target>::empty());
    } else {
        lemma_turn_loses(t, gone, k - 1);
        assert(gone.take(k).drop_last() =~= gone.take(k - 1));
        assert(gone.take(k).last() == gone[k - 1]);
        crate::removal::lemma_turn_stands(t, gone, k - 1, k - 1);
        crate::totals::lemma_removed_adds_up(
            crate::removal::removed_in_turn(t, gone.take(k - 1)),
            gone[k - 1],
        );
    }
}

/// Moving entries that say what is true of the tree to the trash, none of them
/// with a path at or below that of another, leaves a tree whose totals sum up
/// and that has lost exactly the sizes and counts of these entries.
pub proof fn lemma_trashed_totals(s: State, report: TrashReport)
    requires
        crate::totals::adds_up(s.root),
        crate::tree_laws::nested(s.root),
        forall|i: int|
            0 <= i < report.gone.len() ==> true_of(s.root, #[trigger] report.gone[i])
                && report.gone[i].indices.len() > 0,
        forall|i: int, j: int|
            0 <= i < report.gone.len() && 0 <= j < report.gone.len() && i != j
                ==> !crate::paths::lies_under(
                (#[trigger] report.gone[i]).path,
                (#[trigger] report.gone[j]).path,
            ),
    ensures
        crate::totals::adds_up(s.trashed(report).root),
        lost_exactly(s.root, s.trashed(report).root, report.gone),
        crate::removal::all_apart(report.gone),
{
    let gone = report.gone;
    let turn = crate::removal::removal_order(gone);
    assert forall|i: int, j: int|
        0 <= i < gone.len() && 0 <= j < gone.len() && i != j implies crate::removal::apart(
        (#[trigger] gone[i]).indices,
        (#[trigger] gone[j]).indices,
    ) by {
        let a = crate::tree::node_at(s.root, gone[i].indices)->0;
        let b = crate::tree::node_at(s.root, gone[j].indices)->0;
        assert(!crate::paths::lies_under(gone[i].path, gone[j].path));
        assert(!crate::paths::lies_under(gone[j].path, gone[i].path));
        assert(!crate::paths::lies_under(a.path, b.path));
        assert(!crate::paths::lies_under(b.path, a.path));
        crate::tree_laws::lemma_nested_apart(s.root, gone[i].indices, gone[j].indices);
        crate::tree_laws::lemma_nested_apart(s.root, gone[j].indices, gone[i].indices);
    }
    crate::removal::lemma_removal_order(gone);
    assert forall|i: int| 0 <= i < turn.len() implies crate::removal::stands(
        s.root,
        #[trigger] turn[i],
    ) && crate::totals::described(s.root, turn[i]) by {
        assert(turn.contains(turn[i]));
        assert(gone.contains(turn[i]));
        let k = choose|k: int| 0 <= k < gone.len() && gone[k] == turn[i];
        assert(true_of(s.root, gone[k]));
    }
    lemma_turn_loses(s.root, turn, turn.len() as int);
    assert(turn.take(turn.len() as int) =~= turn);
    let le = |a: Target, b: Target| crate::removal::indices_le(b.indices, a.indices);
    lemma_summed_sorted(gone, le, |g: Target| g.size as nat);
    lemma_summed_sorted(gone, le, |g: Target| g.file_count as nat);
    lemma_summed_sorted(gone, le, |g: Target| g.dir_count as nat);
    lemma_summed_sorted(gone, le, |g: Target| g.error_count as nat);
}

/// Whoever moves everything that is marked to the trash has a tree whose totals
/// sum up, without exactly what was moved, and no mark is left.
pub proof fn lemma_marks_trashed(s: State, report: TrashReport)
    requires
        orderly(s),
        marks_true(s),
        s.marks.dom().len() > 0,
        forall|k: Seq<Seq<u8>>| #[trigger]
            s.marks.dom().contains(k) ==> s.marks[k].indices.len() > 0,
        crate::totals::adds_up(s.root),
        crate::tree_laws::nested(s.root),
        report.gone == s.operation_targets(),
    ensures
        crate::totals::adds_up(s.trashed(report).root),
        lost_exactly(s.root, s.trashed(report).root, report.gone),
        forall|k: Seq<Seq<u8>>| !#[trigger] s.trashed(report).marks.dom().contains(k),
{
    lemma_operation_on_marks(s);
    crate::browser_laws::lemma_operation_targets(s);
    let gone = report.gone;
    assert forall|i: int| 0 <= i < gone.len() implies true_of(s.root, #[trigger] gone[i])
        && gone[i].indices.len() > 0 by {
        assert(s.marks.dom().contains(crate::state::key_of(gone[i].path)));
    }
    lemma_trashed_totals(s, report);
    crate::browser_laws::lemma_trashed(s, report);
    assert forall|k: Seq<Seq<u8>>| !#[trigger] s.trashed(report).marks.dom().contains(k) by {
        if s.marks.dom().contains(k) {
            let j = choose|j: int|
                0 <= j < gone.len() && crate::paths::parts((#[trigger] gone[j]).path).is_prefix_of(
                    k,
                );
            assert(crate::state::key_of(gone[j].path).is_prefix_of(k));
        }
    }
}

/// A difference, and nothing where it would be negative.
pub open spec fn left_of(a: u64, b: u64) -> int {
    if b <= a {
        a - b
    } else {
        0
    }
}

/// Removing an entry takes its size and its counts away from every entry above
/// it, as far as they have as much, and from nothing else: an entry above it
/// keeps what it takes itself.
pub proof fn lemma_removed_above(t: Tree, gone: Target, k: int)
    requires
        crate::removal::stands(t, gone),
        0 <= k < gone.indices.len(),
    ensures
        ({
            let before = crate::tree::node_at(t, gone.indices.take(k));
            let after = crate::tree::node_at(
                crate::removal::removed_one(t, gone),
                gone.indices.take(k),
            );
            &&& before is Some && after is Some
            &&& after->0.size == left_of(before->0.size, gone.size)
            &&& after->0.file_count == left_of(before->0.file_count, gone.file_count)
            &&& after->0.dir_count == left_of(before->0.dir_count, gone.dir_count)
            &&& after->0.error_count == left_of(before->0.error_count, gone.error_count)
            &&& after->0.direct_size == before->0.direct_size
            &&& after->0.path == before->0.path && after->0.kind == before->0.kind
        }),
{
    crate::removal::lemma_removed(t, gone);
    lemma_removed_above_at(t, gone, gone.indices, k);
}

proof fn lemma_removed_above_at(t: Tree, gone: Target, indices: Seq<usize>, k: int)
    requires
        crate::removal::removed_at(t, gone, indices) is Some,
        0 <= k < indices.len(),
    ensures
        ({
            let before = crate::tree::node_at(t, indices.take(k));
            let after = crate::tree::node_at(
                crate::removal::removed_at(t, gone, indices)->0,
                indices.take(k),
            );
            &&& before is Some && after is Some
            &&& after->0.size == left_of(before->0.size, gone.size)
            &&& after->0.file_count == left_of(before->0.file_count, gone.file_count)
            &&& after->0.dir_count == left_of(before->0.dir_count, gone.dir_count)
            &&& after->0.error_count == left_of(before->0.error_count, gone.error_count)
            &&& after->0.direct_size == before->0.direct_size
            &&& after->0.path == before->0.path && after->0.kind == before->0.kind
        }),
    decreases k,
{
    if k > 0 {
        lemma_removed_above_at(
            t.children[indices[0] as int],
            gone,
            indices.drop_first(),
            k - 1,
        );
        assert(indices.take(k).drop_first() =~= indices.drop_first().take(k - 1));
    } else {
        assert(indices.take(0) =~= Seq::<usize>::empty());
    }
}

} // verus!
