//! What a scan makes of the answers of the file system, and how it counts
//! its progress.

use vstd::prelude::*;

use crate::children::sort_by_size;
pub use crate::children::{sorted_children, SortKey};
use crate::paths::{display_name, EntryPath};
pub use crate::size::human_size;
pub use crate::tree::{find_by_path, flatten, EntryKind, EntryNode};
#[allow(unused_imports)]
use crate::tree::Tree;

verus! {

/// How the size of an entry is measured.
#[derive(Clone, Copy, Debug, PartialEq, Eq, Structural)]
pub enum SizeMode {
    /// By the blocks that it takes on the disk.
    Physical,
    /// By its length.
    Logical,
}

impl Default for SizeMode {
    fn default() -> (res: Self)
        ensures
            res == SizeMode::Physical,
    {
        SizeMode::Physical
    }
}

/// What the file system calls an entry, without following links.
#[derive(Clone, Copy, Debug, PartialEq, Eq, Structural)]
pub enum FileType {
    Directory,
    Symlink,
    File,
    Other,
}

/// What the file system tells of an entry.
#[derive(Clone, Copy, Debug)]
pub struct EntryMetadata {
    pub file_type: FileType,
    /// The length in bytes.
    pub len: u64,
    /// The blocks of 512 bytes that it takes, on systems that count them.
    pub blocks: Option<u64>,
}

/// The bytes in a block.
pub const BLOCK_BYTES: u64 = 512;

/// The size of an entry: its blocks where they are counted and wanted, at
/// most what a number can hold, and otherwise its length.
pub open spec fn measured(metadata: EntryMetadata, size_mode: SizeMode) -> u64 {
    match (size_mode, metadata.blocks) {
        (SizeMode::Physical, Some(blocks)) => if blocks * BLOCK_BYTES > u64::MAX {
            u64::MAX
        } else {
            (blocks * BLOCK_BYTES) as u64
        },
        _ => metadata.len,
    }
}

/// The size of an entry.
pub fn file_size(metadata: &EntryMetadata, size_mode: SizeMode) -> (res: u64)
    ensures
        res == measured(*metadata, size_mode),
{
    match size_mode {
        SizeMode::Physical => match metadata.blocks {
            Some(blocks) => match blocks.checked_mul(BLOCK_BYTES) {
                Some(bytes) => bytes,
                None => u64::MAX,
            },
            None => metadata.len,
        },
        SizeMode::Logical => metadata.len,
    }
}

/// What became of a scan: the tree that it found, if any, and whether it was
/// canceled on the way.
#[derive(Debug)]
pub struct ControlledScan {
    pub root: Option<EntryNode>,
    pub canceled: bool,
}

/// The contents of what became of a scan.
pub struct ScanModel {
    pub root: Option<Tree>,
    pub canceled: bool,
}

impl View for ControlledScan {
    type V = ScanModel;

    open spec fn view(&self) -> ScanModel {
        ScanModel {
            root: match self.root {
                Some(node) => Some(node@),
                None => None,
            },
            canceled: self.canceled,
        }
    }
}

/// The contents of several scans.
pub open spec fn scan_models(v: Seq<ControlledScan>) -> Seq<ScanModel> {
    v.map_values(|s: ControlledScan| s@)
}

/// A finished scan that was not canceled.
pub open spec fn completed(t: Tree) -> ScanModel {
    ScanModel { root: Some(t), canceled: false }
}

/// That a scan was canceled.
#[derive(Clone, Copy, Debug, PartialEq, Eq, Structural)]
pub struct ScanCanceled;

impl ScanCanceled {
    /// What to tell about it.
    pub fn message(self) -> (res: &'static str)
        ensures
            res@ == "scan canceled"@,
    {
        "scan canceled"
    }
}

/// A scanned tree, and how its sizes were measured.
#[derive(Debug)]
pub struct ScanReport {
    pub root: EntryNode,
    pub size_mode: String,
}

impl ScanReport {
    /// The report of a scan that measured blocks.
    pub fn physical(root: EntryNode) -> (res: ScanReport)
        ensures
            res.root@ == root@,
            res.size_mode@ == "physical"@,
    {
        ScanReport { root, size_mode: "physical".to_owned() }
    }
}

/// An entry without children.
pub open spec fn childless(
    path: Seq<u8>,
    kind: EntryKind,
    size: u64,
    files: u64,
    dirs: u64,
    errors: u64,
    error: Option<Seq<char>>,
) -> Tree {
    Tree {
        path,
        name: crate::paths::display_name_of(path),
        kind,
        size,
        direct_size: size,
        file_count: files,
        dir_count: dirs,
        error_count: errors,
        children: Seq::empty(),
        error,
    }
}

/// The kind of an entry that is not a directory.
pub open spec fn leaf_kind(file_type: FileType) -> EntryKind {
    match file_type {
        FileType::Symlink => EntryKind::Symlink,
        FileType::File => EntryKind::File,
        _ => EntryKind::Other,
    }
}

fn childless_node(
    path: EntryPath,
    kind: EntryKind,
    size: u64,
    files: u64,
    dirs: u64,
    errors: u64,
    error: Option<String>,
) -> (res: EntryNode)
    ensures
        res@ == childless(
            path@,
            kind,
            size,
            files,
            dirs,
            errors,
            crate::tree::optional_text(error),
        ),
{
    let name = display_name(&path);
    let res = EntryNode {
        path,
        name,
        kind,
        size,
        direct_size: size,
        file_count: files,
        dir_count: dirs,
        error_count: errors,
        children: Vec::new(),
        error,
    };
    assert(res@.children =~= Seq::<Tree>::empty());
    res
}

/// What was seen of an entry on the disk.
#[derive(Debug)]
pub struct ObservedEntry {
    pub path: EntryPath,
    pub observation: Observation,
}

/// What was seen of an entry on the disk.
#[derive(Debug)]
pub enum Observation {
    /// Nothing: the scan was asked to stop before.
    Canceled,
    /// Not even its metadata, for the reason given.
    NoMetadata(String),
    /// An entry that is no directory.
    Entry(EntryMetadata),
    /// A directory whose entries could not be read, for the reason given.
    Unreadable(EntryMetadata, String),
    /// A directory, how many of its entries could not be read, and the others.
    Directory(EntryMetadata, u64, Vec<ObservedEntry>),
}

/// What a scan makes of an entry.
pub open spec fn scanned(e: ObservedEntry, size_mode: SizeMode) -> ScanModel
    decreases e, 1int,
{
    match e.observation {
        Observation::Canceled => ScanModel { root: None, canceled: true },
        Observation::NoMetadata(message) => completed(
            childless(e.path@, EntryKind::Error, 0, 0, 0, 1, Some(message@)),
        ),
        Observation::Entry(metadata) => {
            let kind = leaf_kind(metadata.file_type);
            let files = if kind == EntryKind::Other {
                0u64
            } else {
                1
            };
            completed(childless(e.path@, kind, measured(metadata, size_mode), files, 0, 0, None))
        },
        Observation::Unreadable(metadata, message) => completed(
            childless(
                e.path@,
                EntryKind::Directory,
                measured(metadata, size_mode),
                0,
                1,
                1,
                Some(message@),
            ),
        ),
        Observation::Directory(metadata, read_errors, entries) => {
            let scans = all_scanned(entries@, size_mode);
            ScanModel {
                root: Some(
                    directory_tree(
                        e.path@,
                        measured(metadata, size_mode),
                        read_errors,
                        found_trees(scans),
                    ),
                ),
                canceled: any_canceled(scans),
            }
        },
    }
}

/// What a scan makes of several entries.
pub open spec fn all_scanned(entries: Seq<ObservedEntry>, size_mode: SizeMode) -> Seq<ScanModel>
    decreases entries, 0int,
{
    if entries.len() == 0 {
        Seq::empty()
    } else {
        all_scanned(entries.drop_last(), size_mode).push(scanned(entries.last(), size_mode))
    }
}

/// Each of several entries is scanned by itself.
pub(crate) proof fn lemma_all_scanned(entries: Seq<ObservedEntry>, size_mode: SizeMode)
    ensures
        all_scanned(entries, size_mode).len() == entries.len(),
        forall|i: int|
            0 <= i < entries.len() ==> #[trigger] all_scanned(entries, size_mode)[i] == scanned(
                entries[i],
                size_mode,
            ),
    decreases entries.len(),
{
    if entries.len() > 0 {
        lemma_all_scanned(entries.drop_last(), size_mode);
    }
}

/// Whether all totals of a scan can be held.
pub open spec fn scan_in_range(e: ObservedEntry, size_mode: SizeMode) -> bool
    decreases e,
{
    match e.observation {
        Observation::Directory(metadata, read_errors, entries) => {
            &&& forall|i: int|
                0 <= i < entries@.len() ==> scan_in_range(#[trigger] entries@[i], size_mode)
            &&& totals_in_range(
                measured(metadata, size_mode),
                read_errors,
                found_trees(all_scanned(entries@, size_mode)),
            )
        },
        _ => true,
    }
}

/// The kind that an entry counts as when it is first seen.
pub open spec fn kind_seen(metadata: Result<EntryMetadata, String>) -> EntryKind {
    match metadata {
        Err(_) => EntryKind::Error,
        Ok(metadata) => if metadata.file_type == FileType::Directory {
            EntryKind::Directory
        } else {
            leaf_kind(metadata.file_type)
        },
    }
}

/// The kind that an entry counts as when it is first seen.
pub fn observed_kind(metadata: &Result<EntryMetadata, String>) -> (res: EntryKind)
    ensures
        res == match *metadata {
            Err(_) => EntryKind::Error,
            Ok(metadata) => if metadata.file_type == FileType::Directory {
                EntryKind::Directory
            } else {
                leaf_kind(metadata.file_type)
            },
        },
        res == kind_seen(*metadata),
{
    match metadata {
        Err(_) => EntryKind::Error,
        Ok(metadata) => match metadata.file_type {
            FileType::Directory => EntryKind::Directory,
            FileType::Symlink => EntryKind::Symlink,
            FileType::File => EntryKind::File,
            FileType::Other => EntryKind::Other,
        },
    }
}

/// Makes a tree of what was seen on the disk. There is none where a total of
/// some directory cannot be held.
pub fn scan_observed(e: &ObservedEntry, size_mode: SizeMode) -> (res: Option<ControlledScan>)
    ensures
        match res {
            Some(scan) => scan_in_range(*e, size_mode) && scan@ == scanned(*e, size_mode),
            None => !scan_in_range(*e, size_mode),
        },
    decreases e,
{
    match &e.observation {
        Observation::Canceled => Some(ControlledScan { root: None, canceled: true }),
        Observation::NoMetadata(message) => {
            let node = childless_node(
                e.path.clone(),
                EntryKind::Error,
                0,
                0,
                0,
                1,
                Some(message.clone()),
            );
            Some(finished_scan(node))
        },
        Observation::Entry(metadata) => {
            let size = file_size(metadata, size_mode);
            let (kind, files): (EntryKind, u64) = match metadata.file_type {
                FileType::Symlink => (EntryKind::Symlink, 1),
                FileType::File => (EntryKind::File, 1),
                _ => (EntryKind::Other, 0),
            };
            Some(finished_scan(childless_node(e.path.clone(), kind, size, files, 0, 0, None)))
        },
        Observation::Unreadable(metadata, message) => {
            let size = file_size(metadata, size_mode);
            let node = childless_node(
                e.path.clone(),
                EntryKind::Directory,
                size,
                0,
                1,
                1,
                Some(message.clone()),
            );
            Some(finished_scan(node))
        },
        Observation::Directory(metadata, read_errors, entries) => {
            let size = file_size(metadata, size_mode);
            let ghost wanted = all_scanned(entries@, size_mode);
            proof {
                lemma_all_scanned(entries@, size_mode);
            }
            let mut scans: Vec<ControlledScan> = Vec::with_capacity(entries.len());
            let mut i: usize = 0;
            while i < entries.len()
                invariant
                    e.observation matches Observation::Directory(_, _, list) && list == *entries,
                    wanted.len() == entries@.len(),
                    forall|k: int|
                        0 <= k < wanted.len() ==> #[trigger] wanted[k] == scanned(
                            entries@[k],
                            size_mode,
                        ),
                    i <= entries@.len(),
                    scans@.len() == i,
                    forall|k: int| 0 <= k < i ==> (#[trigger] scans@[k])@ == wanted[k],
                    forall|k: int|
                        0 <= k < i ==> scan_in_range(#[trigger] entries@[k], size_mode),
                decreases entries@.len() - i,
            {
                match scan_observed(&entries[i], size_mode) {
                    Some(scan) => {
                        scans.push(scan);
                    },
                    None => {
                        return None;
                    },
                }
                i = i + 1;
            }
            proof {
                assert(scan_models(scans@) =~= wanted);
            }
            if totals_fit(size, *read_errors, &scans) {
                Some(directory_scan(&e.path, size, *read_errors, scans))
            } else {
                None
            }
        },
    }
}

/// The scan of an entry that is done.
fn finished_scan(node: EntryNode) -> (res: ControlledScan)
    ensures
        res@ == completed(node@),
{
    ControlledScan { root: Some(node), canceled: false }
}

/// A sum over entries.
pub open spec fn total(ts: Seq<Tree>, f: spec_fn(Tree) -> u64) -> nat
    decreases ts.len(),
{
    if ts.len() == 0 {
        0
    } else {
        total(ts.drop_last(), f) + f(ts.last()) as nat
    }
}

/// The sum of the sizes of entries.
pub open spec fn total_size(ts: Seq<Tree>) -> nat {
    total(ts, |t: Tree| t.size)
}

/// The sum of the files of entries.
pub open spec fn total_files(ts: Seq<Tree>) -> nat {
    total(ts, |t: Tree| t.file_count)
}

/// The sum of the directories of entries.
pub open spec fn total_dirs(ts: Seq<Tree>) -> nat {
    total(ts, |t: Tree| t.dir_count)
}

/// The sum of the errors of entries.
pub open spec fn total_errors(ts: Seq<Tree>) -> nat {
    total(ts, |t: Tree| t.error_count)
}

/// The trees that several scans found.
pub open spec fn found_trees(scans: Seq<ScanModel>) -> Seq<Tree>
    decreases scans.len(),
{
    if scans.len() == 0 {
        Seq::empty()
    } else {
        let earlier = found_trees(scans.drop_last());
        match scans.last().root {
            Some(t) => earlier.push(t),
            None => earlier,
        }
    }
}

/// Whether the totals of a directory can be held.
pub open spec fn totals_in_range(direct_size: u64, read_errors: u64, children: Seq<Tree>) -> bool {
    &&& direct_size + total_size(children) <= u64::MAX
    &&& total_files(children) <= u64::MAX
    &&& 1 + total_dirs(children) <= u64::MAX
    &&& read_errors + total_errors(children) <= u64::MAX
}

/// A directory with its children, the larger ones first, and the totals of
/// all that is in it.
pub open spec fn directory_tree(
    path: Seq<u8>,
    direct_size: u64,
    read_errors: u64,
    children: Seq<Tree>,
) -> Tree {
    Tree {
        path,
        name: crate::paths::display_name_of(path),
        kind: EntryKind::Directory,
        size: (direct_size + total_size(children)) as u64,
        direct_size,
        file_count: total_files(children) as u64,
        dir_count: (1 + total_dirs(children)) as u64,
        error_count: (read_errors + total_errors(children)) as u64,
        children: crate::order::stable_sorted(
            children,
            crate::children::listing(crate::children::SortKey::Size),
        ),
        error: None,
    }
}

/// Whether any of several scans was canceled.
pub open spec fn any_canceled(scans: Seq<ScanModel>) -> bool {
    exists|i: int| 0 <= i < scans.len() && (#[trigger] scans[i]).canceled
}

/// Whether the totals of a directory with the given children can be held.
fn totals_fit(direct_size: u64, read_errors: u64, child_scans: &Vec<ControlledScan>) -> (res:
    bool)
    ensures
        res == totals_in_range(direct_size, read_errors, found_trees(scan_models(child_scans@))),
{
    let ghost scans = scan_models(child_scans@);
    let ghost trees = found_trees(scans);
    let mut size: u64 = direct_size;
    let mut files: u64 = 0;
    let mut dirs: u64 = 1;
    let mut errors: u64 = read_errors;
    let mut i: usize = 0;
    assert(scans.take(0) =~= Seq::<ScanModel>::empty());
    while i < child_scans.len()
        invariant
            scans == scan_models(child_scans@),
            trees == found_trees(scans),
            i <= child_scans@.len(),
            size == direct_size + total_size(found_trees(scans.take(i as int))),
            files == total_files(found_trees(scans.take(i as int))),
            dirs == 1 + total_dirs(found_trees(scans.take(i as int))),
            errors == read_errors + total_errors(found_trees(scans.take(i as int))),
        decreases child_scans@.len() - i,
    {
        proof {
            assert(scans.take(i + 1).drop_last() =~= scans.take(i as int));
            assert(scans.take(i + 1).last() == child_scans@[i as int]@);
            lemma_found_grows(scans, i + 1);
        }
        if let Some(node) = &child_scans[i].root {
            let ghost t = node@;
            let ghost earlier = found_trees(scans.take(i as int));
            proof {
                assert(earlier.push(t).drop_last() =~= earlier);
            }
            let (a, b, c, d) = (
                size.checked_add(node.size),
                files.checked_add(node.file_count),
                dirs.checked_add(node.dir_count),
                errors.checked_add(node.error_count),
            );
            match (a, b, c, d) {
                (Some(a), Some(b), Some(c), Some(d)) => {
                    size = a;
                    files = b;
                    dirs = c;
                    errors = d;
                },
                _ => {
                    return false;
                },
            }
        }
        i = i + 1;
    }
    assert(scans.take(i as int) =~= scans);
    true
}

/// The totals of the first scans are at most those of all.
proof fn lemma_found_grows(scans: Seq<ScanModel>, k: int)
    requires
        0 <= k <= scans.len(),
    ensures
        total_size(found_trees(scans.take(k))) <= total_size(found_trees(scans)),
        total_files(found_trees(scans.take(k))) <= total_files(found_trees(scans)),
        total_dirs(found_trees(scans.take(k))) <= total_dirs(found_trees(scans)),
        total_errors(found_trees(scans.take(k))) <= total_errors(found_trees(scans)),
    decreases scans.len(),
{
    if k == scans.len() {
        assert(scans.take(k) =~= scans);
    } else {
        assert(scans.drop_last().take(k) =~= scans.take(k));
        lemma_found_grows(scans.drop_last(), k);
        if let Some(t) = scans.last().root {
            let earlier = found_trees(scans.drop_last());
            assert(earlier.push(t).drop_last() =~= earlier);
        }
    }
}

/// The scan of a directory, given what became of the scans of its entries and
/// how many entries could not be read.
fn directory_scan(
    path: &EntryPath,
    direct_size: u64,
    read_errors: u64,
    child_scans: Vec<ControlledScan>,
) -> (res: ControlledScan)
    requires
        totals_in_range(direct_size, read_errors, found_trees(scan_models(child_scans@))),
    ensures
        res@ == (ScanModel {
            root: Some(
                directory_tree(
                    path@,
                    direct_size,
                    read_errors,
                    found_trees(scan_models(child_scans@)),
                ),
            ),
            canceled: any_canceled(scan_models(child_scans@)),
        }),
{
    let ghost scans = scan_models(child_scans@);
    let ghost trees = found_trees(scans);
    let mut canceled: bool = false;
    let mut nodes: Vec<EntryNode> = Vec::with_capacity(child_scans.len());
    let mut size: u64 = direct_size;
    let mut files: u64 = 0;
    let mut dirs: u64 = 1;
    let mut errors: u64 = read_errors;
    assert(scans.take(0) =~= Seq::<ScanModel>::empty());
    assert(crate::tree::forest(nodes@) =~= Seq::<Tree>::empty());
    for scan in it: child_scans
        invariant
            it.seq() == child_scans@,
            scans == scan_models(child_scans@),
            trees == found_trees(scans),
            totals_in_range(direct_size, read_errors, trees),
            crate::tree::forest(nodes@) == found_trees(scans.take(it.index() as int)),
            canceled == any_canceled(scans.take(it.index() as int)),
            size == direct_size + total_size(found_trees(scans.take(it.index() as int))),
            files == total_files(found_trees(scans.take(it.index() as int))),
            dirs == 1 + total_dirs(found_trees(scans.take(it.index() as int))),
            errors == read_errors + total_errors(found_trees(scans.take(it.index() as int))),
    {
        let ghost i = it.index() as int;
        proof {
            assert(scan == child_scans@[i]);
            assert(scans.take(i + 1).drop_last() =~= scans.take(i));
            assert(scans.take(i + 1).last() == scan@);
            lemma_found_grows(scans, i + 1);
            if any_canceled(scans.take(i)) {
                let k = choose|k: int|
                    0 <= k < scans.take(i).len() && (#[trigger] scans.take(i)[k]).canceled;
                assert(scans.take(i + 1)[k].canceled);
            }
            if any_canceled(scans.take(i + 1)) {
                let k = choose|k: int|
                    0 <= k < scans.take(i + 1).len() && (#[trigger] scans.take(i + 1)[k]).canceled;
                if k < i {
                    assert(scans.take(i)[k].canceled);
                }
            }
            assert(scans.take(i + 1)[i] == scan@);
        }
        if scan.canceled {
            canceled = true;
        }
        if let Some(node) = scan.root {
            let ghost before = nodes@;
            let ghost earlier = found_trees(scans.take(i));
            proof {
                assert(earlier.push(node@).drop_last() =~= earlier);
            }
            size = size + node.size;
            files = files + node.file_count;
            dirs = dirs + node.dir_count;
            errors = errors + node.error_count;
            nodes.push(node);
            assert(crate::tree::forest(nodes@) =~= crate::tree::forest(before).push(node@));
        }
    }
    assert(scans.take(scans.len() as int) =~= scans);
    let children = sort_by_size(nodes);
    let name = display_name(path);
    let node = EntryNode {
        path: path.clone(),
        name,
        kind: EntryKind::Directory,
        size,
        direct_size,
        file_count: files,
        dir_count: dirs,
        error_count: errors,
        children,
        error: None,
    };
    proof {
        assert(node@.children =~= crate::tree::forest(children@));
    }
    ControlledScan { root: Some(node), canceled }
}

/// The tree of a scan that had to be complete.
pub open spec fn whole_tree(outcome: ScanModel) -> Option<Tree> {
    if outcome.canceled {
        None
    } else {
        outcome.root
    }
}

/// The tree of a scan that had to be complete.
pub fn complete_scan(outcome: ControlledScan) -> (res: Result<EntryNode, ScanCanceled>)
    ensures
        match res {
            Ok(node) => outcome@ == completed(node@),
            Err(_) => outcome@.canceled || outcome@.root is None,
        },
        match res {
            Ok(node) => whole_tree(outcome@) == Some(node@),
            Err(_) => whole_tree(outcome@) is None,
        },
{
    if outcome.canceled {
        Err(ScanCanceled)
    } else {
        match outcome.root {
            Some(node) => Ok(node),
            None => Err(ScanCanceled),
        }
    }
}

/// How far a scan has come.
#[derive(Debug)]
pub struct ScanProgressSnapshot {
    pub scanned: u64,
    pub files: u64,
    pub dirs: u64,
    pub errors: u64,
    pub current_path: EntryPath,
}

/// The contents of a scan's progress.
pub struct Progress {
    pub scanned: u64,
    pub files: u64,
    pub dirs: u64,
    pub errors: u64,
    pub current_path: Seq<u8>,
}

impl View for ScanProgressSnapshot {
    type V = Progress;

    open spec fn view(&self) -> Progress {
        Progress {
            scanned: self.scanned,
            files: self.files,
            dirs: self.dirs,
            errors: self.errors,
            current_path: self.current_path@,
        }
    }
}

impl Default for ScanProgressSnapshot {
    fn default() -> (res: Self)
        ensures
            res@ == no_progress(),
    {
        ScanProgressSnapshot {
            scanned: 0,
            files: 0,
            dirs: 0,
            errors: 0,
            current_path: EntryPath::from_bytes(Vec::new()),
        }
    }
}

impl Clone for ScanProgressSnapshot {
    fn clone(&self) -> (res: Self)
        ensures
            res@ == self@,
    {
        ScanProgressSnapshot {
            scanned: self.scanned,
            files: self.files,
            dirs: self.dirs,
            errors: self.errors,
            current_path: self.current_path.clone(),
        }
    }
}

/// A counter some steps on; it starts over at the end of its range.
pub open spec fn counted(n: u64, by: nat) -> u64 {
    ((n + by) % 0x1_0000_0000_0000_0000) as u64
}

/// The progress of a scan that has seen nothing yet.
pub open spec fn no_progress() -> Progress {
    Progress { scanned: 0, files: 0, dirs: 0, errors: 0, current_path: Seq::empty() }
}

/// The progress after one more entry of the given kind.
pub open spec fn visited(p: Progress, path: Seq<u8>, kind: EntryKind) -> Progress {
    Progress {
        scanned: counted(p.scanned, 1),
        files: if kind == EntryKind::File || kind == EntryKind::Symlink {
            counted(p.files, 1)
        } else {
            p.files
        },
        dirs: if kind == EntryKind::Directory {
            counted(p.dirs, 1)
        } else {
            p.dirs
        },
        errors: if kind == EntryKind::Error {
            counted(p.errors, 1)
        } else {
            p.errors
        },
        current_path: path,
    }
}

/// The progress after errors that belong to no entry that was seen.
pub open spec fn with_errors(p: Progress, errors: u64) -> Progress {
    Progress { errors: counted(p.errors, errors as nat), ..p }
}

/// The state of a scan that others can look at and cancel.
#[derive(Debug)]
pub struct ScanControl {
    canceled: bool,
    progress: ScanProgressSnapshot,
}

fn count(n: u64, by: u64) -> (res: u64)
    ensures
        res == counted(n, by as nat),
{
    n.wrapping_add(by)
}

impl ScanControl {
    /// Whether the scan was asked to stop.
    pub closed spec fn stopped(&self) -> bool {
        self.canceled
    }

    /// How far the scan has come.
    pub closed spec fn reached(&self) -> Progress {
        self.progress@
    }

    /// The state of a scan that has not begun.
    pub fn new() -> (res: Self)
        ensures
            !res.stopped(),
            res.reached() == no_progress(),
    {
        ScanControl { canceled: false, progress: ScanProgressSnapshot::default() }
    }

    /// Asks the scan to stop.
    pub fn cancel(&mut self)
        ensures
            final(self).stopped(),
            final(self).reached() == old(self).reached(),
    {
        self.canceled = true;
    }

    /// Whether the scan was asked to stop.
    pub fn is_canceled(&self) -> (res: bool)
        ensures
            res == self.stopped(),
    {
        self.canceled
    }

    /// How far the scan has come.
    pub fn snapshot(&self) -> (res: ScanProgressSnapshot)
        ensures
            res@ == self.reached(),
    {
        self.progress.clone()
    }

    /// Counts an entry.
    pub fn record_visit(&mut self, path: &EntryPath, kind: EntryKind)
        ensures
            final(self).stopped() == old(self).stopped(),
            final(self).reached() == visited(old(self).reached(), path@, kind),
    {
        self.progress.scanned = count(self.progress.scanned, 1);
        self.progress.current_path = path.clone();
        match kind {
            EntryKind::Directory => {
                self.progress.dirs = count(self.progress.dirs, 1);
            },
            EntryKind::File => {
                self.progress.files = count(self.progress.files, 1);
            },
            EntryKind::Symlink => {
                self.progress.files = count(self.progress.files, 1);
            },
            EntryKind::Error => {
                self.progress.errors = count(self.progress.errors, 1);
            },
            EntryKind::Other => {},
        }
    }

    /// Counts errors that belong to no entry.
    pub fn record_errors(&mut self, errors: u64)
        ensures
            final(self).stopped() == old(self).stopped(),
            final(self).reached() == with_errors(old(self).reached(), errors),
    {
        self.progress.errors = count(self.progress.errors, errors);
    }
}

impl Default for ScanControl {
    fn default() -> (res: Self)
        ensures
            !res.stopped(),
            res.reached() == no_progress(),
    {
        ScanControl::new()
    }
}

/// Whether any entry was left out because the scan was asked to stop.
pub open spec fn interrupted(e: ObservedEntry) -> bool
    decreases e,
{
    match e.observation {
        Observation::Canceled => true,
        Observation::Directory(_, _, entries) => exists|i: int|
            0 <= i < entries@.len() && interrupted(#[trigger] entries@[i]),
        _ => false,
    }
}

/// A scan counts as canceled where any entry was left out, has no root only
/// where the first one was, and keeps the path of its root.
pub proof fn lemma_scanned(e: ObservedEntry, size_mode: SizeMode)
    ensures
        scanned(e, size_mode).canceled == interrupted(e),
        scanned(e, size_mode).root is None <==> e.observation is Canceled,
        scanned(e, size_mode).root matches Some(t) ==> t.path == e.path@,
    decreases e,
{
    if let Observation::Directory(_, _, entries) = e.observation {
        let scans = all_scanned(entries@, size_mode);
        lemma_all_scanned(entries@, size_mode);
        assert forall|i: int| 0 <= i < entries@.len() implies (#[trigger] scans[i]).canceled
            == interrupted(entries@[i]) by {
            lemma_scanned(entries@[i], size_mode);
        }
        if any_canceled(scans) {
            let i = choose|i: int| 0 <= i < scans.len() && (#[trigger] scans[i]).canceled;
            assert(interrupted(entries@[i]));
        }
        if interrupted(e) {
            let i = choose|i: int| 0 <= i < entries@.len() && interrupted(#[trigger] entries@[i]);
            assert(scans[i].canceled);
        }
    }
}

/// The children of a scanned directory are those that were found, the larger
/// ones first.
pub proof fn lemma_children_sorted(
    path: Seq<u8>,
    direct_size: u64,
    read_errors: u64,
    found: Seq<Tree>,
)
    ensures
        ({
            let children = directory_tree(path, direct_size, read_errors, found).children;
            &&& children.to_multiset() == found.to_multiset()
            &&& forall|i: int, j: int|
                0 <= i < j < children.len() ==> crate::children::larger_first(
                    #[trigger] children[i],
                    #[trigger] children[j],
                )
        }),
{
    let le = crate::children::listing(SortKey::Size);
    crate::children::lemma_listing_ranking(SortKey::Size);
    crate::order::lemma_stable_sorted(found, le);
    let children = directory_tree(path, direct_size, read_errors, found).children;
    assert forall|i: int, j: int| 0 <= i < j < children.len() implies
        crate::children::larger_first(#[trigger] children[i], #[trigger] children[j]) by {
        assert(le(children[i], children[j]));
    }
}

/// The progress of a scan that has seen an entry and all below it, counted as
/// they were seen.
pub open spec fn progress_after(p: Progress, e: ObservedEntry) -> Progress
    decreases e, 1int,
{
    match e.observation {
        Observation::Canceled => p,
        Observation::NoMetadata(_) => visited(p, e.path@, EntryKind::Error),
        Observation::Entry(metadata) => visited(p, e.path@, leaf_kind(metadata.file_type)),
        Observation::Unreadable(_, _) => with_errors(
            visited(p, e.path@, EntryKind::Directory),
            1,
        ),
        Observation::Directory(_, read_errors, entries) => progress_after_all(
            with_errors(visited(p, e.path@, EntryKind::Directory), read_errors),
            entries@,
        ),
    }
}

/// The progress of a scan that has seen several entries.
pub open spec fn progress_after_all(p: Progress, entries: Seq<ObservedEntry>) -> Progress
    decreases entries, 0int,
{
    if entries.len() == 0 {
        p
    } else {
        progress_after(progress_after_all(p, entries.drop_last()), entries.last())
    }
}

/// Whether a scan has counted what is in a tree: its entries, and the files,
/// directories and errors that its totals say.
pub open spec fn has_counted(p: Progress, q: Progress, t: Tree) -> bool {
    &&& q.scanned == counted(p.scanned, crate::tree::preorder(t).len())
    &&& q.files == counted(p.files, t.file_count as nat)
    &&& q.dirs == counted(p.dirs, t.dir_count as nat)
    &&& q.errors == counted(p.errors, t.error_count as nat)
}

/// Whether a scan has counted what is in several trees.
spec fn has_counted_all(p: Progress, q: Progress, ts: Seq<Tree>) -> bool {
    &&& q.scanned == counted(p.scanned, crate::tree::preorder_all(ts).len())
    &&& q.files == counted(p.files, total_files(ts))
    &&& q.dirs == counted(p.dirs, total_dirs(ts))
    &&& q.errors == counted(p.errors, total_errors(ts))
}

/// Counting twice is counting the sum.
proof fn lemma_counted_twice(n: u64, a: nat, b: nat)
    ensures
        counted(counted(n, a), b) == counted(n, a + b),
{
    let m: int = 0x1_0000_0000_0000_0000;
    vstd::arithmetic::div_mod::lemma_add_mod_noop(n + a, b as int, m);
    vstd::arithmetic::div_mod::lemma_add_mod_noop((n + a) % m, b as int, m);
    vstd::arithmetic::div_mod::lemma_mod_twice(n + a, m);
}

/// The order of trees does not change how many entries they have.
proof fn lemma_entries_sorted(ts: Seq<Tree>, le: spec_fn(Tree, Tree) -> bool)
    ensures
        crate::tree::preorder_all(crate::order::stable_sorted(ts, le)).len()
            == crate::tree::preorder_all(ts).len(),
    decreases ts.len(),
{
    if ts.len() > 0 {
        lemma_entries_sorted(ts.drop_last(), le);
        lemma_entries_inserted(crate::order::stable_sorted(ts.drop_last(), le), ts.last(), le);
    }
}

proof fn lemma_entries_inserted(ts: Seq<Tree>, t: Tree, le: spec_fn(Tree, Tree) -> bool)
    ensures
        crate::tree::preorder_all(crate::order::inserted(ts, t, le)).len()
            == crate::tree::preorder_all(ts).len() + crate::tree::preorder(t).len(),
    decreases ts.len(),
{
    if ts.len() == 0 || le(ts.last(), t) {
        assert(ts.push(t).drop_last() =~= ts);
    } else {
        let d = ts.drop_last();
        lemma_entries_inserted(d, t, le);
        let u = crate::order::inserted(d, t, le);
        assert(u.push(ts.last()).drop_last() =~= u);
    }
}

/// What a scan counts on its way is what the tree holds in the end, its entries
/// and its totals, also where it was canceled.
pub proof fn lemma_progress(p: Progress, e: ObservedEntry, size_mode: SizeMode)
    requires
        scan_in_range(e, size_mode),
    ensures
        match scanned(e, size_mode).root {
            Some(t) => has_counted(p, progress_after(p, e), t),
            None => progress_after(p, e) == p,
        },
    decreases e, 1int,
{
    if let Some(t) = scanned(e, size_mode).root {
        assert(crate::tree::preorder(t).len() == 1 + crate::tree::preorder_all(t.children).len());
    }
    if let Observation::Directory(_, read_errors, entries) = e.observation {
        let start = with_errors(visited(p, e.path@, EntryKind::Directory), read_errors);
        lemma_progress_all(start, entries@, size_mode);
        let trees = found_trees(all_scanned(entries@, size_mode));
        lemma_entries_sorted(trees, crate::children::listing(SortKey::Size));
        lemma_counted_twice(p.scanned, 1, crate::tree::preorder_all(trees).len());
        lemma_counted_twice(p.dirs, 1, total_dirs(trees));
        lemma_counted_twice(p.errors, read_errors as nat, total_errors(trees));
    }
}

proof fn lemma_progress_all(p: Progress, entries: Seq<ObservedEntry>, size_mode: SizeMode)
    requires
        forall|i: int| 0 <= i < entries.len() ==> scan_in_range(#[trigger] entries[i], size_mode),
    ensures
        has_counted_all(
            p,
            progress_after_all(p, entries),
            found_trees(all_scanned(entries, size_mode)),
        ),
    decreases entries, 0int,
{
    let scans = all_scanned(entries, size_mode);
    if entries.len() > 0 {
        let d = entries.drop_last();
        let earlier = found_trees(all_scanned(d, size_mode));
        assert(scans.drop_last() =~= all_scanned(d, size_mode));
        assert forall|i: int| 0 <= i < d.len() implies scan_in_range(#[trigger] d[i], size_mode) by {
            assert(entries[i] == d[i]);
        }
        assert(entries[entries.len() - 1] == entries.last());
        if let Some(t) = scans.last().root {
            assert(earlier.push(t).drop_last() =~= earlier);
            lemma_counted_twice(
                p.scanned,
                crate::tree::preorder_all(earlier).len(),
                crate::tree::preorder(t).len(),
            );
            lemma_counted_twice(p.files, total_files(earlier), t.file_count as nat);
            lemma_counted_twice(p.dirs, total_dirs(earlier), t.dir_count as nat);
            lemma_counted_twice(p.errors, total_errors(earlier), t.error_count as nat);
        }
        lemma_progress_all(p, d, size_mode);
        lemma_progress(progress_after_all(p, d), entries.last(), size_mode);
    }
}

/// What a scan from the start has counted when it is complete: all entries of
/// the tree, and the files, directories and errors that the tree says. The
/// number of entries is one that the counter can hold.
pub proof fn lemma_progress_complete(e: ObservedEntry, size_mode: SizeMode, root: Tree)
    requires
        scan_in_range(e, size_mode),
        scanned(e, size_mode) == completed(root),
        crate::tree::preorder(root).len() <= u64::MAX,
    ensures
        ({
            let q = progress_after(no_progress(), e);
            &&& q.scanned == crate::tree::preorder(root).len()
            &&& q.files == root.file_count
            &&& q.dirs == root.dir_count
            &&& q.errors == root.error_count
        }),
{
    lemma_progress(no_progress(), e, size_mode);
}

/// Whether the counts of two scans agree; the entries that they are at may
/// differ.
pub open spec fn same_counts(p: Progress, q: Progress) -> bool {
    p.scanned == q.scanned && p.files == q.files && p.dirs == q.dirs && p.errors == q.errors
}

/// Whether two threads count one entry first or the other, and errors before
/// an entry or behind it, the counts come out the same.
pub proof fn lemma_counts_in_any_order(
    p: Progress,
    a: Seq<u8>,
    kind: EntryKind,
    b: Seq<u8>,
    other: EntryKind,
    errors: u64,
    more: u64,
)
    ensures
        same_counts(visited(visited(p, a, kind), b, other), visited(visited(p, b, other), a, kind)),
        same_counts(
            with_errors(visited(p, a, kind), errors),
            visited(with_errors(p, errors), a, kind),
        ),
        same_counts(
            with_errors(with_errors(p, errors), more),
            with_errors(with_errors(p, more), errors),
        ),
{
    lemma_counted_twice(p.errors, errors as nat, 1);
    lemma_counted_twice(p.errors, 1, errors as nat);
    lemma_counted_twice(p.errors, errors as nat, more as nat);
    lemma_counted_twice(p.errors, more as nat, errors as nat);
}

} // verus!
