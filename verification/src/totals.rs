//! The totals of scanned entries: each is the sum of what the entry has itself
//! and of what its children have, after a scan and after every removal.

use vstd::prelude::*;

#[allow(unused_imports)]
use crate::removal::Target;
#[allow(unused_imports)]
use crate::tree::{EntryKind, Tree};

verus! {

/// What an entry of a kind adds to the files.
pub open spec fn own_files(kind: EntryKind) -> u64 {
    if kind == EntryKind::File || kind == EntryKind::Symlink {
        1
    } else {
        0
    }
}

/// What an entry of a kind adds to the directories.
pub open spec fn own_dirs(kind: EntryKind) -> u64 {
    if kind == EntryKind::Directory {
        1
    } else {
        0
    }
}

/// Whether the totals of an entry are those of its children and its own. The
/// errors can be more than those of the children: some belong to the entry.
pub open spec fn sums_up(t: Tree) -> bool {
    &&& t.size == t.direct_size + crate::scan::total_size(t.children)
    &&& t.file_count == own_files(t.kind) + crate::scan::total_files(t.children)
    &&& t.dir_count == own_dirs(t.kind) + crate::scan::total_dirs(t.children)
    &&& t.error_count >= crate::scan::total_errors(t.children)
}

/// Whether the totals of all entries of a tree sum up.
pub open spec fn adds_up(t: Tree) -> bool
    decreases t,
{
    sums_up(t) && forall|i: int| 0 <= i < t.children.len() ==> adds_up(#[trigger] t.children[i])
}

/// The totals of an entry without children sum up where its counts are those
/// of its kind. So are the counts of everything that a scan finds and does not
/// read further, an unreadable directory among it.
pub proof fn lemma_childless_adds_up(
    path: Seq<u8>,
    kind: EntryKind,
    size: u64,
    errors: u64,
    error: Option<Seq<char>>,
)
    ensures
        adds_up(
            crate::scan::childless(
                path,
                kind,
                size,
                own_files(kind),
                own_dirs(kind),
                errors,
                error,
            ),
        ),
{
}

/// The totals of a scanned directory sum up where those of its children do.
pub proof fn lemma_directory_adds_up(
    path: Seq<u8>,
    direct_size: u64,
    read_errors: u64,
    children: Seq<Tree>,
)
    requires
        crate::scan::totals_in_range(direct_size, read_errors, children),
        forall|i: int| 0 <= i < children.len() ==> adds_up(#[trigger] children[i]),
    ensures
        adds_up(crate::scan::directory_tree(path, direct_size, read_errors, children)),
{
    broadcast use vstd::seq_lib::group_to_multiset_ensures;

    let le = crate::children::listing(crate::children::SortKey::Size);
    let sorted = crate::order::stable_sorted(children, le);
    crate::children::lemma_listing_ranking(crate::children::SortKey::Size);
    crate::order::lemma_stable_sorted(children, le);
    lemma_total_sorted(children, le, |t: Tree| t.size);
    lemma_total_sorted(children, le, |t: Tree| t.file_count);
    lemma_total_sorted(children, le, |t: Tree| t.dir_count);
    lemma_total_sorted(children, le, |t: Tree| t.error_count);
    assert forall|i: int| 0 <= i < sorted.len() implies adds_up(#[trigger] sorted[i]) by {
        assert(sorted.contains(sorted[i]));
        assert(sorted.to_multiset().count(sorted[i]) > 0);
        assert(children.contains(sorted[i]));
    }
}

/// The totals of every scanned tree sum up.
pub proof fn lemma_scan_adds_up(
    e: crate::scan::ObservedEntry,
    size_mode: crate::scan::SizeMode,
)
    requires
        crate::scan::scan_in_range(e, size_mode),
    ensures
        crate::scan::scanned(e, size_mode).root matches Some(t) ==> adds_up(t),
    decreases e,
{
    if let crate::scan::Observation::Directory(metadata, read_errors, entries) = e.observation {
        let scans = crate::scan::all_scanned(entries@, size_mode);
        crate::scan::lemma_all_scanned(entries@, size_mode);
        assert forall|i: int| 0 <= i < scans.len() implies ((#[trigger] scans[i]).root matches Some(
            t,
        ) ==> adds_up(t)) by {
            lemma_scan_adds_up(entries@[i], size_mode);
        }
        lemma_found_add_up(scans);
        lemma_directory_adds_up(
            e.path@,
            crate::scan::measured(metadata, size_mode),
            read_errors,
            crate::scan::found_trees(scans),
        );
    }
}

proof fn lemma_found_add_up(scans: Seq<crate::scan::ScanModel>)
    requires
        forall|i: int|
            0 <= i < scans.len() ==> ((#[trigger] scans[i]).root matches Some(t) ==> adds_up(t)),
    ensures
        forall|i: int|
            0 <= i < crate::scan::found_trees(scans).len() ==> adds_up(
                #[trigger] crate::scan::found_trees(scans)[i],
            ),
    decreases scans.len(),
{
    if scans.len() > 0 {
        let d = scans.drop_last();
        assert forall|i: int| 0 <= i < d.len() implies ((#[trigger] d[i]).root matches Some(t)
            ==> adds_up(t)) by {
            assert(scans[i] == d[i]);
        }
        lemma_found_add_up(d);
        let earlier = crate::scan::found_trees(d);
        let all = crate::scan::found_trees(scans);
        assert(scans[scans.len() - 1] == scans.last());
        assert forall|i: int| 0 <= i < all.len() implies adds_up(#[trigger] all[i]) by {
            if i < earlier.len() {
                assert(all[i] == earlier[i]);
            }
        }
    }
}

/// The order of entries does not change their sums.
proof fn lemma_total_sorted(
    ts: Seq<Tree>,
    le: spec_fn(Tree, Tree) -> bool,
    f: spec_fn(Tree) -> u64,
)
    ensures
        crate::scan::total(crate::order::stable_sorted(ts, le), f) == crate::scan::total(ts, f),
    decreases ts.len(),
{
    if ts.len() > 0 {
        lemma_total_sorted(ts.drop_last(), le, f);
        lemma_total_inserted(crate::order::stable_sorted(ts.drop_last(), le), ts.last(), le, f);
    }
}

proof fn lemma_total_inserted(
    ts: Seq<Tree>,
    t: Tree,
    le: spec_fn(Tree, Tree) -> bool,
    f: spec_fn(Tree) -> u64,
)
    ensures
        crate::scan::total(crate::order::inserted(ts, t, le), f) == crate::scan::total(ts, f) + f(
            t,
        ),
    decreases ts.len(),
{
    if ts.len() == 0 || le(ts.last(), t) {
        assert(ts.push(t).drop_last() =~= ts);
    } else {
        let d = ts.drop_last();
        lemma_total_inserted(d, t, le, f);
        let u = crate::order::inserted(d, t, le);
        assert(u.push(ts.last()).drop_last() =~= u);
    }
}

/// A sum without one entry.
proof fn lemma_total_removed(ts: Seq<Tree>, i: int, f: spec_fn(Tree) -> u64)
    requires
        0 <= i < ts.len(),
    ensures
        crate::scan::total(ts.remove(i), f) + f(ts[i]) == crate::scan::total(ts, f),
    decreases ts.len(),
{
    if i == ts.len() - 1 {
        assert(ts.remove(i) =~= ts.drop_last());
    } else {
        lemma_total_removed(ts.drop_last(), i, f);
        assert(ts.remove(i).drop_last() =~= ts.drop_last().remove(i));
    }
}

/// A sum with one entry replaced.
proof fn lemma_total_updated(ts: Seq<Tree>, i: int, t: Tree, f: spec_fn(Tree) -> u64)
    requires
        0 <= i < ts.len(),
    ensures
        crate::scan::total(ts.update(i, t), f) + f(ts[i]) == crate::scan::total(ts, f) + f(t),
    decreases ts.len(),
{
    let u = ts.update(i, t);
    if i == ts.len() - 1 {
        assert(u.drop_last() =~= ts.drop_last());
    } else {
        lemma_total_updated(ts.drop_last(), i, t, f);
        assert(u.drop_last() =~= ts.drop_last().update(i, t));
    }
}

/// Whether the totals of an entry to delete are those of the entry that stands
/// where it should.
pub open spec fn described(t: Tree, gone: Target) -> bool {
    crate::tree::node_at(t, gone.indices) matches Some(n) ==> gone.size == n.size
        && gone.file_count == n.file_count && gone.dir_count == n.dir_count && gone.error_count
        == n.error_count
}

/// The totals of a tree still sum up after an entry was removed from it, and
/// lose exactly those of the entry.
pub proof fn lemma_removed_adds_up(t: Tree, gone: Target)
    requires
        adds_up(t),
        described(t, gone),
    ensures
        adds_up(crate::removal::removed_one(t, gone)),
        crate::removal::stands(t, gone) ==> {
            let r = crate::removal::removed_one(t, gone);
            &&& r.size + gone.size == t.size
            &&& r.file_count + gone.file_count == t.file_count
            &&& r.dir_count + gone.dir_count == t.dir_count
            &&& r.error_count + gone.error_count == t.error_count
        },
{
    crate::removal::lemma_removed(t, gone);
    if crate::removal::stands(t, gone) {
        lemma_removed_sums(t, gone, gone.indices);
    }
}

proof fn lemma_removed_sums(t: Tree, gone: Target, indices: Seq<usize>)
    requires
        adds_up(t),
        crate::removal::removed_at(t, gone, indices) is Some,
        crate::tree::node_at(t, indices) matches Some(n) ==> gone.size == n.size
            && gone.file_count == n.file_count && gone.dir_count == n.dir_count
            && gone.error_count == n.error_count,
    ensures
        ({
            let r = crate::removal::removed_at(t, gone, indices)->0;
            &&& adds_up(r)
            &&& r.size + gone.size == t.size
            &&& r.file_count + gone.file_count == t.file_count
            &&& r.dir_count + gone.dir_count == t.dir_count
            &&& r.error_count + gone.error_count == t.error_count
        }),
    decreases indices.len(),
{
    let r = crate::removal::removed_at(t, gone, indices)->0;
    let i = indices[0] as int;
    let child = t.children[i];
    let fs = |t: Tree| t.size;
    let ff = |t: Tree| t.file_count;
    let fd = |t: Tree| t.dir_count;
    let fe = |t: Tree| t.error_count;
    assert(adds_up(child));
    if indices.len() == 1 {
        assert(crate::tree::node_at(child, indices.drop_first()) == Some(child));
        lemma_total_removed(t.children, i, fs);
        lemma_total_removed(t.children, i, ff);
        lemma_total_removed(t.children, i, fd);
        lemma_total_removed(t.children, i, fe);
        assert forall|k: int| 0 <= k < r.children.len() implies adds_up(
            #[trigger] r.children[k],
        ) by {
            let n = if k < i {
                k
            } else {
                k + 1
            };
            assert(adds_up(t.children[n]));
        }
    } else {
        lemma_removed_sums(child, gone, indices.drop_first());
        let new = crate::removal::removed_at(child, gone, indices.drop_first())->0;
        lemma_total_updated(t.children, i, new, fs);
        lemma_total_updated(t.children, i, new, ff);
        lemma_total_updated(t.children, i, new, fd);
        lemma_total_updated(t.children, i, new, fe);
        lemma_one_of_total(t.children, i, fs);
        lemma_one_of_total(t.children, i, ff);
        lemma_one_of_total(t.children, i, fd);
        lemma_one_of_total(t.children, i, fe);
    }
}

/// A sum is at least any of its parts.
proof fn lemma_one_of_total(ts: Seq<Tree>, i: int, f: spec_fn(Tree) -> u64)
    requires
        0 <= i < ts.len(),
    ensures
        f(ts[i]) <= crate::scan::total(ts, f),
{
    lemma_total_removed(ts, i, f);
}

/// The totals of a tree still sum up after several entries were removed from
/// it, none of them within another.
pub proof fn lemma_removed_all_adds_up(t: Tree, gone: Seq<Target>)
    requires
        adds_up(t),
        forall|i: int|
            0 <= i < gone.len() ==> crate::removal::stands(t, #[trigger] gone[i]) && described(
                t,
                gone[i],
            ),
        crate::removal::all_apart(gone),
    ensures
        adds_up(crate::removal::removed_all(t, gone)),
{
    let turn = crate::removal::removal_order(gone);
    crate::removal::lemma_removal_order(gone);
    assert forall|i: int| 0 <= i < turn.len() implies crate::removal::stands(
        t,
        #[trigger] turn[i],
    ) && described(t, turn[i]) by {
        assert(turn.contains(turn[i]));
        assert(gone.contains(turn[i]));
    }
    lemma_turn_adds_up(t, turn, turn.len() as int);
    assert(turn.take(turn.len() as int) =~= turn);
}

proof fn lemma_turn_adds_up(t: Tree, gone: Seq<Target>, k: int)
    requires
        adds_up(t),
        crate::removal::removable(gone),
        forall|i: int|
            0 <= i < gone.len() ==> crate::removal::stands(t, #[trigger] gone[i]) && described(
                t,
                gone[i],
            ),
        0 <= k <= gone.len(),
    ensures
        adds_up(crate::removal::removed_in_turn(t, gone.take(k))),
    decreases k,
{
    if k == 0 {
        assert(gone.take(0) =~= Seq::<Target>::empty());
    } else {
        lemma_turn_adds_up(t, gone, k - 1);
        assert(gone.take(k).drop_last() =~= gone.take(k - 1));
        assert(gone.take(k).last() == gone[k - 1]);
        crate::removal::lemma_turn_stands(t, gone, k - 1, k - 1);
        lemma_removed_adds_up(
            crate::removal::removed_in_turn(t, gone.take(k - 1)),
            gone[k - 1],
        );
    }
}

} // verus!
