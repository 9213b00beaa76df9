//! What holds of every scan: how entries are measured, what becomes of each
//! thing that was seen, and how the totals of directories come about.

use vstd::prelude::*;

#[allow(unused_imports)]
use crate::scan::{EntryMetadata, FileType, Observation, ObservedEntry, Progress, ScanModel, SizeMode};
#[allow(unused_imports)]
use crate::tree::{EntryKind, Tree};

verus! {

/// By its blocks, an entry takes 512 bytes for each of them, whatever its
/// length: none without blocks, the same as every other entry with as many
/// blocks, and 512 more for one more block. Sizes beyond the largest number
/// are that number.
pub proof fn lemma_physical_size(a: EntryMetadata, b: EntryMetadata)
    requires
        a.blocks is Some,
        b.blocks is Some,
    ensures
        ({
            let x = crate::scan::measured(a, SizeMode::Physical);
            let y = crate::scan::measured(b, SizeMode::Physical);
            &&& a.blocks->0 == 0 ==> x == 0
            &&& a.blocks == b.blocks ==> x == y
            &&& a.blocks->0 + 1 == b.blocks->0 && x < u64::MAX - 512 ==> y == x + 512
            &&& a.blocks->0 <= b.blocks->0 ==> x <= y
            &&& 512 * a.blocks->0 <= u64::MAX ==> x == 512 * a.blocks->0
            &&& 512 * a.blocks->0 > u64::MAX ==> x == u64::MAX
        }),
{
}

/// By its length, an entry takes as many bytes as it is long, and so it does
/// where its blocks are not known.
pub proof fn lemma_logical_size(a: EntryMetadata, size_mode: SizeMode)
    requires
        size_mode == SizeMode::Logical || a.blocks is None,
    ensures
        crate::scan::measured(a, size_mode) == a.len,
{
}

/// What a scan keeps of an entry that is no directory: it is of the kind that
/// the file system says, takes what it was measured to take, counts as a file
/// where it is one or a link, and has nothing below it.
pub proof fn lemma_scanned_leaf(e: ObservedEntry, size_mode: SizeMode, metadata: EntryMetadata)
    requires
        e.observation == Observation::Entry(metadata),
        metadata.file_type != FileType::Directory,
    ensures
        ({
            let s = crate::scan::scanned(e, size_mode);
            let t = s.root->0;
            &&& !s.canceled && s.root is Some
            &&& t.path == e.path@ && t.name == crate::paths::display_name_of(e.path@)
            &&& t.kind == EntryKind::File <==> metadata.file_type == FileType::File
            &&& t.kind == EntryKind::Symlink <==> metadata.file_type == FileType::Symlink
            &&& t.kind == EntryKind::Other <==> metadata.file_type == FileType::Other
            &&& size_mode == SizeMode::Logical ==> t.size == metadata.len
            &&& size_mode == SizeMode::Physical && metadata.blocks is None ==> t.size
                == metadata.len
            &&& size_mode == SizeMode::Physical && metadata.blocks is Some && 512
                * metadata.blocks->0 <= u64::MAX ==> t.size == 512 * metadata.blocks->0
            &&& t.direct_size == t.size
            &&& t.file_count == if metadata.file_type == FileType::Other {
                0int
            } else {
                1
            }
            &&& t.dir_count == 0 && t.error_count == 0
            &&& t.children.len() == 0 && t.error is None
        }),
{
}

/// What a scan keeps of an entry that it could not look at, or of a directory
/// that it could not read: one error with its reason, nothing below it, and for
/// the directory what it takes itself.
pub proof fn lemma_scanned_failure(e: ObservedEntry, size_mode: SizeMode)
    ensures
        e.observation matches Observation::NoMetadata(message) ==> {
            let s = crate::scan::scanned(e, size_mode);
            let t = s.root->0;
            &&& !s.canceled && s.root is Some
            &&& t.path == e.path@ && t.name == crate::paths::display_name_of(e.path@)
            &&& t.kind == EntryKind::Error && t.error == Some(message@)
            &&& t.size == 0 && t.direct_size == 0
            &&& t.file_count == 0 && t.dir_count == 0 && t.error_count == 1
            &&& t.children.len() == 0
        },
        e.observation matches Observation::Unreadable(metadata, message) ==> {
            let s = crate::scan::scanned(e, size_mode);
            let t = s.root->0;
            &&& !s.canceled && s.root is Some
            &&& t.path == e.path@ && t.name == crate::paths::display_name_of(e.path@)
            &&& t.kind == EntryKind::Directory && t.error == Some(message@)
            &&& t.size == crate::scan::measured(metadata, size_mode) && t.direct_size == t.size
            &&& t.file_count == 0 && t.dir_count == 1 && t.error_count == 1
            &&& t.children.len() == 0
        },
{
}

/// An empty directory takes what it was measured to take, counts as one
/// directory, and has the errors of the entries that could not be read.
pub proof fn lemma_scanned_empty(
    e: ObservedEntry,
    size_mode: SizeMode,
    metadata: EntryMetadata,
    read_errors: u64,
    entries: Vec<ObservedEntry>,
)
    requires
        e.observation == Observation::Directory(metadata, read_errors, entries),
        entries@.len() == 0,
    ensures
        crate::scan::scan_in_range(e, size_mode),
        ({
            let s = crate::scan::scanned(e, size_mode);
            let t = s.root->0;
            &&& !s.canceled && s.root is Some
            &&& t.size == crate::scan::measured(metadata, size_mode)
            &&& t.file_count == 0 && t.dir_count == 1 && t.error_count == read_errors
            &&& t.children.len() == 0
        }),
{
    assert(crate::scan::all_scanned(entries@, size_mode) =~= Seq::<ScanModel>::empty());
    assert(crate::scan::found_trees(Seq::<ScanModel>::empty()) =~= Seq::<Tree>::empty());
    let le = crate::children::listing(crate::children::SortKey::Size);
    assert(crate::order::stable_sorted(Seq::<Tree>::empty(), le) =~= Seq::<Tree>::empty());
}

/// A directory with one more entry: it has all children that it had without
/// it, and the scanned entry, and its totals are larger by those of the entry.
/// An entry that was left out adds nothing. A scan holds a directory where it
/// holds all that is in it and the sums are numbers of 64 bits.
pub proof fn lemma_scanned_one_more(
    e: ObservedEntry,
    larger: ObservedEntry,
    size_mode: SizeMode,
    metadata: EntryMetadata,
    read_errors: u64,
    entries: Vec<ObservedEntry>,
    more: Vec<ObservedEntry>,
)
    requires
        e.observation == Observation::Directory(metadata, read_errors, entries),
        larger.observation == Observation::Directory(metadata, read_errors, more),
        more@.len() == entries@.len() + 1,
        more@.drop_last() == entries@,
    ensures
        ({
            let a = crate::scan::scanned(e, size_mode);
            let x = crate::scan::scanned(more@.last(), size_mode);
            let b = crate::scan::scanned(larger, size_mode);
            let held = crate::scan::scan_in_range(e, size_mode);
            let both = held && crate::scan::scan_in_range(more@.last(), size_mode);
            &&& a.root is Some && b.root is Some
            &&& b.canceled == (a.canceled || x.canceled)
            &&& crate::scan::scan_in_range(larger, size_mode) <==> both && (x.root matches Some(t)
                ==> a.root->0.size + t.size <= u64::MAX && a.root->0.file_count + t.file_count
                <= u64::MAX && a.root->0.dir_count + t.dir_count <= u64::MAX
                && a.root->0.error_count + t.error_count <= u64::MAX)
            &&& crate::scan::scan_in_range(larger, size_mode) ==> match x.root {
                Some(t) => {
                    &&& b.root->0.size == a.root->0.size + t.size
                    &&& b.root->0.file_count == a.root->0.file_count + t.file_count
                    &&& b.root->0.dir_count == a.root->0.dir_count + t.dir_count
                    &&& b.root->0.error_count == a.root->0.error_count + t.error_count
                    &&& b.root->0.children.to_multiset() == a.root->0.children.to_multiset().insert(t)
                },
                None => {
                    &&& b.root->0.size == a.root->0.size
                    &&& b.root->0.file_count == a.root->0.file_count
                    &&& b.root->0.dir_count == a.root->0.dir_count
                    &&& b.root->0.error_count == a.root->0.error_count
                    &&& b.root->0.children == a.root->0.children
                },
            }
        }),
{
    broadcast use vstd::seq_lib::group_to_multiset_ensures;

    let le = crate::children::listing(crate::children::SortKey::Size);
    let scans = crate::scan::all_scanned(entries@, size_mode);
    let all = crate::scan::all_scanned(more@, size_mode);
    let x = crate::scan::scanned(more@.last(), size_mode);
    assert(all == scans.push(x));
    assert(all.drop_last() =~= scans);
    let found = crate::scan::found_trees(scans);
    let after = crate::scan::found_trees(all);
    crate::children::lemma_listing_ranking(crate::children::SortKey::Size);
    crate::order::lemma_stable_sorted(found, le);
    crate::order::lemma_stable_sorted(after, le);
    if let Some(t) = x.root {
        assert(found.push(t).drop_last() =~= found);
        assert(after == found.push(t));
    }
    assert forall|i: int| 0 <= i < entries@.len() implies more@[i] == #[trigger] entries@[i] by {
        assert(more@.drop_last()[i] == more@[i]);
    }
    assert(more@[more@.len() - 1] == more@.last());
    let b = crate::scan::any_canceled(all);
    if crate::scan::any_canceled(scans) {
        let i = choose|i: int| 0 <= i < scans.len() && (#[trigger] scans[i]).canceled;
        assert(all[i].canceled);
    }
    if x.canceled {
        assert(all[all.len() - 1].canceled);
    }
    if crate::scan::any_canceled(all) {
        let i = choose|i: int| 0 <= i < all.len() && (#[trigger] all[i]).canceled;
        if i < scans.len() {
            assert(scans[i].canceled);
        }
    }
    if crate::scan::scan_in_range(larger, size_mode) {
        assert forall|i: int| 0 <= i < entries@.len() implies crate::scan::scan_in_range(
            #[trigger] entries@[i],
            size_mode,
        ) by {
            assert(crate::scan::scan_in_range(more@[i], size_mode));
        }
    }
    if crate::scan::scan_in_range(e, size_mode) && crate::scan::scan_in_range(
        more@.last(),
        size_mode,
    ) {
        assert forall|i: int| 0 <= i < more@.len() implies crate::scan::scan_in_range(
            #[trigger] more@[i],
            size_mode,
        ) by {
            if i < entries@.len() {
                assert(crate::scan::scan_in_range(entries@[i], size_mode));
            }
        }
    }
}

/// What a scan keeps of a directory that it could read: its path and name, what
/// it takes itself, and no error of its own; its children are the entries that
/// were not left out, as they were scanned.
pub proof fn lemma_scanned_directory(
    e: ObservedEntry,
    size_mode: SizeMode,
    metadata: EntryMetadata,
    read_errors: u64,
    entries: Vec<ObservedEntry>,
)
    requires
        e.observation == Observation::Directory(metadata, read_errors, entries),
    ensures
        ({
            let t = crate::scan::scanned(e, size_mode).root->0;
            &&& crate::scan::scanned(e, size_mode).root is Some
            &&& t.path == e.path@ && t.name == crate::paths::display_name_of(e.path@)
            &&& t.kind == EntryKind::Directory && t.error is None
            &&& t.direct_size == crate::scan::measured(metadata, size_mode)
            &&& forall|x: Tree| #[trigger]
                t.children.contains(x) <==> exists|i: int|
                    0 <= i < entries@.len() && crate::scan::scanned(
                        #[trigger] entries@[i],
                        size_mode,
                    ).root == Some(x)
        }),
{
    broadcast use vstd::seq_lib::group_to_multiset_ensures;

    let t = crate::scan::scanned(e, size_mode).root->0;
    let scans = crate::scan::all_scanned(entries@, size_mode);
    let found = crate::scan::found_trees(scans);
    let le = crate::children::listing(crate::children::SortKey::Size);
    crate::scan::lemma_all_scanned(entries@, size_mode);
    crate::children::lemma_listing_ranking(crate::children::SortKey::Size);
    crate::order::lemma_stable_sorted(found, le);
    lemma_found(scans);
    assert forall|x: Tree| #[trigger] t.children.contains(x) <==> exists|i: int|
        0 <= i < entries@.len() && crate::scan::scanned(#[trigger] entries@[i], size_mode).root
            == Some(x) by {
        assert(t.children.contains(x) <==> t.children.to_multiset().count(x) > 0);
        assert(found.contains(x) <==> found.to_multiset().count(x) > 0);
        if found.contains(x) {
            let i = choose|i: int| 0 <= i < scans.len() && (#[trigger] scans[i]).root == Some(x);
            assert(crate::scan::scanned(entries@[i], size_mode).root == Some(x));
        }
        if exists|i: int|
            0 <= i < entries@.len() && crate::scan::scanned(#[trigger] entries@[i], size_mode).root
                == Some(x) {
            let i = choose|i: int|
                0 <= i < entries@.len() && crate::scan::scanned(
                    #[trigger] entries@[i],
                    size_mode,
                ).root == Some(x);
            assert(scans[i].root == Some(x));
        }
    }
}

proof fn lemma_found(scans: Seq<ScanModel>)
    ensures
        forall|x: Tree| #[trigger]
            crate::scan::found_trees(scans).contains(x) <==> exists|i: int|
                0 <= i < scans.len() && (#[trigger] scans[i]).root == Some(x),
    decreases scans.len(),
{
    let found = crate::scan::found_trees(scans);
    if scans.len() > 0 {
        let d = scans.drop_last();
        let earlier = crate::scan::found_trees(d);
        lemma_found(d);
        assert forall|x: Tree| #[trigger] found.contains(x) <==> exists|i: int|
            0 <= i < scans.len() && (#[trigger] scans[i]).root == Some(x) by {
            if found.contains(x) {
                let k = choose|k: int| 0 <= k < found.len() && found[k] == x;
                if k < earlier.len() {
                    assert(earlier[k] == x);
                    assert(earlier.contains(x));
                    let i = choose|i: int| 0 <= i < d.len() && (#[trigger] d[i]).root == Some(x);
                    assert(scans[i].root == Some(x));
                } else {
                    assert(scans[scans.len() - 1].root == Some(x));
                }
            }
            if exists|i: int| 0 <= i < scans.len() && (#[trigger] scans[i]).root == Some(x) {
                let i = choose|i: int|
                    0 <= i < scans.len() && (#[trigger] scans[i]).root == Some(x);
                if i < d.len() {
                    assert(d[i].root == Some(x));
                    assert(earlier.contains(x));
                    let k = choose|k: int| 0 <= k < earlier.len() && earlier[k] == x;
                    assert(found[k] == x);
                } else {
                    assert(found[found.len() - 1] == x);
                }
            }
        }
    }
}

/// The children of a scanned directory come with the larger ones first.
pub proof fn lemma_scanned_larger_first(e: ObservedEntry, size_mode: SizeMode)
    ensures
        crate::scan::scanned(e, size_mode).root matches Some(t) ==> forall|i: int, j: int|
            0 <= i < j < t.children.len() ==> (#[trigger] t.children[i]).size >= (
            #[trigger] t.children[j]).size,
{
    if let Observation::Directory(metadata, read_errors, entries) = e.observation {
        let found = crate::scan::found_trees(crate::scan::all_scanned(entries@, size_mode));
        crate::scan::lemma_children_sorted(
            e.path@,
            crate::scan::measured(metadata, size_mode),
            read_errors,
            found,
        );
        let t = crate::scan::scanned(e, size_mode).root->0;
        assert forall|i: int, j: int| 0 <= i < j < t.children.len() implies (
        #[trigger] t.children[i]).size >= (#[trigger] t.children[j]).size by {
            assert(crate::children::larger_first(t.children[i], t.children[j]));
        }
    }
}

/// The sum of a number over entries.
pub open spec fn summed(ts: Seq<Tree>, f: spec_fn(Tree) -> nat) -> nat {
    ts.fold_right(|t: Tree, sum: nat| sum + f(t), 0)
}

proof fn lemma_summed_step(ts: Seq<Tree>, f: spec_fn(Tree) -> nat)
    ensures
        ts.len() == 0 ==> summed(ts, f) == 0,
        ts.len() > 0 ==> summed(ts, f) == summed(ts.drop_last(), f) + f(ts.last()),
    decreases ts.len(),
{
    let g = |t: Tree, sum: nat| sum + f(t);
    if ts.len() > 0 {
        lemma_fold_shift(ts.drop_last(), f, f(ts.last()));
    }
}

proof fn lemma_fold_shift(ts: Seq<Tree>, f: spec_fn(Tree) -> nat, n: nat)
    ensures
        ts.fold_right(|t: Tree, sum: nat| sum + f(t), n) == summed(ts, f) + n,
    decreases ts.len(),
{
    let g = |t: Tree, sum: nat| sum + f(t);
    if ts.len() > 0 {
        lemma_fold_shift(ts.drop_last(), f, n + f(ts.last()));
        lemma_fold_shift(ts.drop_last(), f, f(ts.last()));
    }
}

proof fn lemma_summed_concat(a: Seq<Tree>, b: Seq<Tree>, f: spec_fn(Tree) -> nat)
    ensures
        summed(a + b, f) == summed(a, f) + summed(b, f),
    decreases b.len(),
{
    lemma_summed_step(b, f);
    lemma_summed_step(a + b, f);
    if b.len() > 0 {
        assert((a + b).drop_last() =~= a + b.drop_last());
        lemma_summed_concat(a, b.drop_last(), f);
    } else {
        assert(a + b =~= a);
    }
}

/// The size of a tree whose totals sum up is what all its entries take
/// themselves, its files are its files and links, and its directories are its
/// directories.
pub proof fn lemma_totals_of_all(t: Tree)
    requires
        crate::totals::adds_up(t),
    ensures
        t.size == summed(crate::tree::preorder(t), |n: Tree| n.direct_size as nat),
        t.file_count == summed(
            crate::tree::preorder(t),
            |n: Tree|
                if n.kind == EntryKind::File || n.kind == EntryKind::Symlink {
                    1
                } else {
                    0
                },
        ),
        t.dir_count == summed(
            crate::tree::preorder(t),
            |n: Tree|
                if n.kind == EntryKind::Directory {
                    1
                } else {
                    0
                },
        ),
    decreases t, 1int,
{
    let fs = |n: Tree| n.direct_size as nat;
    let ff = |n: Tree|
        if n.kind == EntryKind::File || n.kind == EntryKind::Symlink {
            1nat
        } else {
            0
        };
    let fd = |n: Tree|
        if n.kind == EntryKind::Directory {
            1nat
        } else {
            0
        };
    lemma_totals_of_forest(t.children);
    let below = crate::tree::preorder_all(t.children);
    lemma_summed_concat(seq![t], below, fs);
    lemma_summed_concat(seq![t], below, ff);
    lemma_summed_concat(seq![t], below, fd);
    lemma_summed_one(t, fs);
    lemma_summed_one(t, ff);
    lemma_summed_one(t, fd);
}

proof fn lemma_summed_one(t: Tree, f: spec_fn(Tree) -> nat)
    ensures
        summed(seq![t], f) == f(t),
{
    lemma_summed_step(seq![t], f);
    lemma_summed_step(seq![t].drop_last(), f);
}

proof fn lemma_totals_of_forest(ts: Seq<Tree>)
    requires
        forall|i: int| 0 <= i < ts.len() ==> crate::totals::adds_up(#[trigger] ts[i]),
    ensures
        crate::scan::total_size(ts) == summed(
            crate::tree::preorder_all(ts),
            |n: Tree| n.direct_size as nat,
        ),
        crate::scan::total_files(ts) == summed(
            crate::tree::preorder_all(ts),
            |n: Tree|
                if n.kind == EntryKind::File || n.kind == EntryKind::Symlink {
                    1
                } else {
                    0
                },
        ),
        crate::scan::total_dirs(ts) == summed(
            crate::tree::preorder_all(ts),
            |n: Tree|
                if n.kind == EntryKind::Directory {
                    1
                } else {
                    0
                },
        ),
    decreases ts, 0int,
{
    let fs = |n: Tree| n.direct_size as nat;
    let ff = |n: Tree|
        if n.kind == EntryKind::File || n.kind == EntryKind::Symlink {
            1nat
        } else {
            0
        };
    let fd = |n: Tree|
        if n.kind == EntryKind::Directory {
            1nat
        } else {
            0
        };
    if ts.len() == 0 {
        lemma_summed_step(crate::tree::preorder_all(ts), fs);
        lemma_summed_step(crate::tree::preorder_all(ts), ff);
        lemma_summed_step(crate::tree::preorder_all(ts), fd);
    } else {
        let d = ts.drop_last();
        assert forall|i: int| 0 <= i < d.len() implies crate::totals::adds_up(#[trigger] d[i]) by {
            assert(ts[i] == d[i]);
        }
        assert(ts[ts.len() - 1] == ts.last());
        lemma_totals_of_forest(d);
        lemma_totals_of_all(ts.last());
        let a = crate::tree::preorder_all(d);
        let b = crate::tree::preorder(ts.last());
        lemma_summed_concat(a, b, fs);
        lemma_summed_concat(a, b, ff);
        lemma_summed_concat(a, b, fd);
    }
}

/// The size of every scanned tree is what all its entries take themselves; its
/// files and directories are those among its entries.
pub proof fn lemma_scan_totals(e: ObservedEntry, size_mode: SizeMode)
    requires
        crate::scan::scan_in_range(e, size_mode),
    ensures
        crate::scan::scanned(e, size_mode).root matches Some(t) ==> {
            let all = crate::tree::preorder(t);
            &&& t.size == summed(all, |n: Tree| n.direct_size as nat)
            &&& t.file_count == summed(
                all,
                |n: Tree|
                    if n.kind == EntryKind::File || n.kind == EntryKind::Symlink {
                        1
                    } else {
                        0
                    },
            )
            &&& t.dir_count == summed(
                all,
                |n: Tree|
                    if n.kind == EntryKind::Directory {
                        1
                    } else {
                        0
                    },
            )
        },
{
    crate::totals::lemma_scan_adds_up(e, size_mode);
    if let Some(t) = crate::scan::scanned(e, size_mode).root {
        lemma_totals_of_all(t);
    }
}

/// Seeing an entry counts it once, under its kind, and makes it the entry that
/// the scan is at; errors without an entry count as errors only. Before, there
/// is nothing counted.
pub proof fn lemma_counting(p: Progress, path: Seq<u8>, kind: EntryKind, errors: u64)
    requires
        p.scanned < u64::MAX,
        p.files < u64::MAX,
        p.dirs < u64::MAX,
        p.errors < u64::MAX - errors,
    ensures
        ({
            let q = crate::scan::visited(p, path, kind);
            &&& q.current_path == path
            &&& q.scanned == p.scanned + 1
            &&& q.files - p.files == if kind == EntryKind::File || kind == EntryKind::Symlink {
                1int
            } else {
                0
            }
            &&& q.dirs - p.dirs == if kind == EntryKind::Directory {
                1int
            } else {
                0
            }
            &&& q.errors - p.errors == if kind == EntryKind::Error {
                1int
            } else {
                0
            }
        }),
        crate::scan::with_errors(p, errors) == (Progress {
            errors: (p.errors + errors) as u64,
            ..p
        }),
        ({
            let q = crate::scan::no_progress();
            q.scanned == 0 && q.files == 0 && q.dirs == 0 && q.errors == 0 && q.current_path.len()
                == 0
        }),
{
}

/// Children of one size in a scanned directory are in the order of their names
/// without regard to case.
pub proof fn lemma_scanned_names(e: ObservedEntry, size_mode: SizeMode)
    ensures
        crate::scan::scanned(e, size_mode).root matches Some(t) ==> forall|i: int, j: int|
            0 <= i < j < t.children.len() && (#[trigger] t.children[i]).size == (
            #[trigger] t.children[j]).size ==> crate::text::text_le(
                crate::text::lowercase(t.children[i].name),
                crate::text::lowercase(t.children[j].name),
            ),
{
    if let Observation::Directory(metadata, read_errors, entries) = e.observation {
        let found = crate::scan::found_trees(crate::scan::all_scanned(entries@, size_mode));
        crate::scan::lemma_children_sorted(
            e.path@,
            crate::scan::measured(metadata, size_mode),
            read_errors,
            found,
        );
        let t = crate::scan::scanned(e, size_mode).root->0;
        assert forall|i: int, j: int|
            0 <= i < j < t.children.len() && (#[trigger] t.children[i]).size == (
            #[trigger] t.children[j]).size implies crate::text::text_le(
            crate::text::lowercase(t.children[i].name),
            crate::text::lowercase(t.children[j].name),
        ) by {
            assert(crate::children::larger_first(t.children[i], t.children[j]));
        }
    }
}

/// What an entry counts as when it is first seen is what it is in the tree.
pub proof fn lemma_kind_seen(e: ObservedEntry, size_mode: SizeMode, metadata: EntryMetadata)
    ensures
        e.observation == Observation::Entry(metadata) && metadata.file_type != FileType::Directory
            ==> crate::scan::scanned(e, size_mode).root->0.kind == crate::scan::kind_seen(
            Ok(metadata),
        ),
        metadata.file_type == FileType::Directory ==> crate::scan::kind_seen(Ok(metadata))
            == EntryKind::Directory,
        e.observation matches Observation::NoMetadata(reason) ==> crate::scan::kind_seen(
            Err(reason),
        ) == EntryKind::Error && crate::scan::scanned(e, size_mode).root->0.kind
            == EntryKind::Error,
{
}

/// A scan that had to be complete has a tree exactly where nothing was left out,
/// and then the tree that was found.
pub proof fn lemma_whole_tree(e: ObservedEntry, size_mode: SizeMode)
    ensures
        crate::scan::whole_tree(crate::scan::scanned(e, size_mode)) is Some
            <==> !crate::scan::interrupted(e),
        crate::scan::whole_tree(crate::scan::scanned(e, size_mode)) matches Some(t) ==> Some(t)
            == crate::scan::scanned(e, size_mode).root && t.path == e.path@,
{
    crate::scan::lemma_scanned(e, size_mode);
}

} // verus!
