//! What is done to paths: which of them to delete, and how to show one in the
//! file manager of the desktop.

use vstd::prelude::*;

use crate::order::{ranked_positions, Ranked};
use crate::paths::{parts_at_most, starts_with_parts, EntryPath};
use crate::text::append_decimal;

verus! {

/// The contents of several paths.
pub open spec fn path_views(v: Seq<EntryPath>) -> Seq<Seq<u8>> {
    v.map_values(|p: EntryPath| p@)
}

/// Whether a path has fewer parts than another, or as many and comes before
/// it or equals it.
pub open spec fn shallower(a: Seq<u8>, b: Seq<u8>) -> bool {
    let p = crate::paths::parts(a);
    let q = crate::paths::parts(b);
    p.len() < q.len() || (p.len() == q.len() && crate::paths::parts_le(p, q))
}

/// Whether a path lies at or below one of several.
pub open spec fn lies_under_any(path: Seq<u8>, bases: Seq<Seq<u8>>) -> bool {
    exists|i: int| 0 <= i < bases.len() && #[trigger] crate::paths::lies_under(path, bases[i])
}

/// The paths that lie under none of those kept before them.
pub open spec fn uncovered(s: Seq<Seq<u8>>) -> Seq<Seq<u8>>
    decreases s.len(),
{
    if s.len() == 0 {
        s
    } else {
        let kept = uncovered(s.drop_last());
        if lies_under_any(s.last(), kept) {
            kept
        } else {
            kept.push(s.last())
        }
    }
}

/// The paths that cover all of several, from the shallowest on.
pub open spec fn roots_of(s: Seq<Seq<u8>>) -> Seq<Seq<u8>> {
    uncovered(crate::order::stable_sorted(s, |a: Seq<u8>, b: Seq<u8>| shallower(a, b)))
}

/// Any two paths are ranked by their depth and order.
proof fn lemma_shallower_ranking()
    ensures
        crate::order::ranking(|a: Seq<u8>, b: Seq<u8>| shallower(a, b)),
{
    let le = |a: Seq<u8>, b: Seq<u8>| shallower(a, b);
    let pl = |a: Seq<Seq<u8>>, b: Seq<Seq<u8>>| crate::paths::parts_le(a, b);
    crate::paths::lemma_parts_le_total();
    assert forall|a: Seq<u8>, b: Seq<u8>, c: Seq<u8>| #[trigger]
        le(a, b) && #[trigger] le(b, c) implies le(a, c) by {
        let p = crate::paths::parts(a);
        let q = crate::paths::parts(b);
        let r = crate::paths::parts(c);
        if p.len() == q.len() && q.len() == r.len() {
            assert(pl(p, q) && pl(q, r));
            assert(pl(p, r));
        }
    }
    assert forall|a: Seq<u8>, b: Seq<u8>| #[trigger] le(a, b) || #[trigger] le(b, a) by {
        let p = crate::paths::parts(a);
        let q = crate::paths::parts(b);
        assert(pl(p, q) || pl(q, p));
    }
}

proof fn lemma_uncovered(s: Seq<Seq<u8>>)
    ensures
        forall|i: int| 0 <= i < s.len() ==> lies_under_any(#[trigger] s[i], uncovered(s)),
        forall|i: int|
            0 <= i < uncovered(s).len() ==> s.contains(#[trigger] uncovered(s)[i]),
        forall|i: int, j: int|
            0 <= j < i < uncovered(s).len() ==> !crate::paths::lies_under(
                #[trigger] uncovered(s)[i],
                #[trigger] uncovered(s)[j],
            ),
    decreases s.len(),
{
    if s.len() > 0 {
        let d = s.drop_last();
        lemma_uncovered(d);
        let kept = uncovered(d);
        let r = uncovered(s);
        assert forall|i: int| 0 <= i < s.len() implies lies_under_any(#[trigger] s[i], r) by {
            if i < d.len() {
                assert(lies_under_any(d[i], kept));
                let k = choose|k: int|
                    0 <= k < kept.len() && #[trigger] crate::paths::lies_under(d[i], kept[k]);
                assert(r[k] == kept[k]);
                assert(crate::paths::lies_under(s[i], r[k]));
            } else if !lies_under_any(s.last(), kept) {
                assert(r[kept.len() as int] == s[i]);
                let p = crate::paths::parts(s[i]);
                assert(p.subrange(0, p.len() as int) =~= p);
                assert(crate::paths::lies_under(s[i], r[kept.len() as int]));
            }
        }
        assert forall|i: int| 0 <= i < r.len() implies s.contains(#[trigger] r[i]) by {
            if i < kept.len() {
                assert(d.contains(kept[i]));
                let k = choose|k: int| 0 <= k < d.len() && d[k] == kept[i];
                assert(s[k] == r[i]);
            } else {
                assert(s[s.len() - 1] == r[i]);
            }
        }
        assert forall|i: int, j: int| 0 <= j < i < r.len() implies !crate::paths::lies_under(
            #[trigger] r[i],
            #[trigger] r[j],
        ) by {
            if i == kept.len() {
                assert(!lies_under_any(s.last(), kept));
                assert(r[j] == kept[j]);
            } else {
                assert(r[i] == kept[i] && r[j] == kept[j]);
            }
        }
    }
}

/// Every path lies at or below one of its roots, every root is one of the
/// paths, and no root lies at or below another.
pub proof fn lemma_roots(paths: Seq<Seq<u8>>)
    ensures
        forall|i: int| 0 <= i < paths.len() ==> lies_under_any(#[trigger] paths[i], roots_of(paths)),
        forall|i: int|
            0 <= i < roots_of(paths).len() ==> paths.contains(#[trigger] roots_of(paths)[i]),
        forall|i: int, j: int|
            0 <= i < roots_of(paths).len() && 0 <= j < roots_of(paths).len() && i != j
                ==> !crate::paths::lies_under(
                #[trigger] roots_of(paths)[i],
                #[trigger] roots_of(paths)[j],
            ),
{
    let le = |a: Seq<u8>, b: Seq<u8>| shallower(a, b);
    let sorted = crate::order::stable_sorted(paths, le);
    let roots = roots_of(paths);
    lemma_shallower_ranking();
    crate::order::lemma_stable_sorted(paths, le);
    lemma_uncovered(sorted);
    lemma_uncovered_sorted(sorted);
    broadcast use vstd::seq_lib::group_to_multiset_ensures;

    assert forall|i: int| 0 <= i < paths.len() implies lies_under_any(#[trigger] paths[i], roots) by {
        assert(paths.to_multiset().count(paths[i]) > 0);
        assert(sorted.contains(paths[i]));
        let k = choose|k: int| 0 <= k < sorted.len() && sorted[k] == paths[i];
        assert(lies_under_any(sorted[k], roots));
    }
    assert forall|i: int| 0 <= i < roots.len() implies paths.contains(#[trigger] roots[i]) by {
        assert(sorted.contains(roots[i]));
        assert(sorted.to_multiset().count(roots[i]) > 0);
    }
    assert forall|i: int, j: int|
        0 <= i < roots.len() && 0 <= j < roots.len() && i != j implies !crate::paths::lies_under(
        #[trigger] roots[i],
        #[trigger] roots[j],
    ) by {
        if i < j && crate::paths::lies_under(roots[i], roots[j]) {
            let p = crate::paths::parts(roots[i]);
            let q = crate::paths::parts(roots[j]);
            assert(shallower(roots[i], roots[j]));
            assert(p.len() == q.len());
            assert(p =~= q);
            assert(q.subrange(0, p.len() as int) =~= p);
            assert(crate::paths::lies_under(roots[j], roots[i]));
        }
    }
}

/// Roots are in the order of their depth.
pub(crate) proof fn lemma_roots_sorted(paths: Seq<Seq<u8>>)
    ensures
        forall|i: int, j: int|
            0 <= i < j < roots_of(paths).len() ==> shallower(
                #[trigger] roots_of(paths)[i],
                #[trigger] roots_of(paths)[j],
            ),
{
    let le = |a: Seq<u8>, b: Seq<u8>| shallower(a, b);
    lemma_shallower_ranking();
    crate::order::lemma_stable_sorted(paths, le);
    lemma_uncovered_sorted(crate::order::stable_sorted(paths, le));
}

/// What is left uncovered of sorted paths is sorted.
proof fn lemma_uncovered_sorted(s: Seq<Seq<u8>>)
    requires
        vstd::relations::sorted_by(s, |a: Seq<u8>, b: Seq<u8>| shallower(a, b)),
    ensures
        forall|i: int, j: int|
            0 <= i < j < uncovered(s).len() ==> shallower(
                #[trigger] uncovered(s)[i],
                #[trigger] uncovered(s)[j],
            ),
    decreases s.len(),
{
    let le = |a: Seq<u8>, b: Seq<u8>| shallower(a, b);
    if s.len() > 0 {
        let d = s.drop_last();
        assert forall|i: int, j: int| 0 <= i < j < d.len() implies #[trigger] le(d[i], d[j]) by {
            assert(le(s[i], s[j]));
        }
        lemma_uncovered_sorted(d);
        lemma_uncovered(d);
        let kept = uncovered(d);
        let r = uncovered(s);
        assert forall|i: int, j: int| 0 <= i < j < r.len() implies shallower(
            #[trigger] r[i],
            #[trigger] r[j],
        ) by {
            assert(r[i] == kept[i]);
            if j == kept.len() {
                assert(d.contains(kept[i]));
                let k = choose|k: int| 0 <= k < d.len() && d[k] == kept[i];
                assert(le(s[k], s[s.len() - 1]));
            } else {
                assert(r[j] == kept[j]);
            }
        }
    }
}

struct DepthOrder {
    parts: Vec<Vec<Vec<u8>>>,
}

impl DepthOrder {
    spec fn key(&self, i: int) -> Seq<Seq<u8>> {
        crate::paths::byte_strings(self.parts@[i]@)
    }
}

impl Ranked for DepthOrder {
    closed spec fn count(&self) -> nat {
        self.parts@.len()
    }

    closed spec fn at_most(&self, i: int, j: int) -> bool {
        self.key(i).len() < self.key(j).len() || (self.key(i).len() == self.key(j).len()
            && crate::paths::parts_le(self.key(i), self.key(j)))
    }

    proof fn lemma_ranking(&self) {
        let le = |i: int, j: int| self.at_most(i, j);
        let pl = |a: Seq<Seq<u8>>, b: Seq<Seq<u8>>| crate::paths::parts_le(a, b);
        crate::paths::lemma_parts_le_total();
        assert forall|a: int, b: int, c: int| #[trigger]
            le(a, b) && #[trigger] le(b, c) implies le(a, c) by {
            if self.key(a).len() == self.key(b).len() && self.key(b).len() == self.key(c).len() {
                assert(pl(self.key(a), self.key(b)) && pl(self.key(b), self.key(c)));
                assert(pl(self.key(a), self.key(c)));
            }
        }
        assert forall|a: int, b: int| #[trigger] le(a, b) || #[trigger] le(b, a) by {
            assert(pl(self.key(a), self.key(b)) || pl(self.key(b), self.key(a)));
        }
    }

    fn ranks_at_most(&self, i: usize, j: usize) -> (res: bool) {
        let a = &self.parts[i];
        let b = &self.parts[j];
        a.len() < b.len() || (a.len() == b.len() && parts_at_most(a, b))
    }
}

/// The paths that cover all the given ones: each given path lies at or below
/// one of them, and none of them below another.
pub fn root_paths(paths: Vec<EntryPath>) -> (res: Vec<EntryPath>)
    ensures
        path_views(res@) == roots_of(path_views(paths@)),
{
    let ghost views = path_views(paths@);
    let ghost le = |a: Seq<u8>, b: Seq<u8>| shallower(a, b);
    let mut keys: Vec<Vec<Vec<u8>>> = Vec::with_capacity(paths.len());
    let mut i: usize = 0;
    while i < paths.len()
        invariant
            i <= paths@.len(),
            keys@.len() == i,
            forall|k: int|
                0 <= k < i ==> crate::paths::byte_strings(#[trigger] keys@[k]@)
                    == crate::paths::parts(paths@[k]@),
        decreases paths@.len() - i,
    {
        keys.push(paths[i].parts());
        i = i + 1;
    }
    let order = DepthOrder { parts: keys };
    let sorted = ranked_positions(&order, paths.len());
    proof {
        lemma_sorted_paths(paths@, order, sorted@);
    }
    let mut out: Vec<EntryPath> = Vec::new();
    let mut kept: Vec<usize> = Vec::new();
    let ghost target = crate::order::stable_sorted(views, le);
    let mut n: usize = 0;
    assert(path_views(out@) =~= uncovered(target.take(0)));
    while n < sorted.len()
        invariant
            views == path_views(paths@),
            order.parts@.len() == paths@.len(),
            forall|k: int|
                0 <= k < paths@.len() ==> crate::paths::byte_strings(#[trigger] order.parts@[k]@)
                    == crate::paths::parts(paths@[k]@),
            forall|k: int| 0 <= k < sorted@.len() ==> #[trigger] sorted@[k] < paths@.len(),
            target.len() == sorted@.len(),
            forall|k: int| 0 <= k < sorted@.len() ==> #[trigger] target[k] == paths@[sorted@[k] as int]@,
            n <= sorted@.len(),
            kept@.len() == out@.len(),
            forall|k: int|
                0 <= k < kept@.len() ==> #[trigger] kept@[k] < paths@.len() && paths@[kept@[k] as int]@
                    == out@[k]@,
            path_views(out@) == uncovered(target.take(n as int)),
        decreases sorted@.len() - n,
    {
        let at = sorted[n];
        let mut covered: bool = false;
        let mut k: usize = 0;
        while k < kept.len() && !covered
            invariant
                at < paths@.len(),
                order.parts@.len() == paths@.len(),
                forall|k: int|
                    0 <= k < paths@.len() ==> crate::paths::byte_strings(
                        #[trigger] order.parts@[k]@,
                    ) == crate::paths::parts(paths@[k]@),
                kept@.len() == out@.len(),
                forall|k: int|
                    0 <= k < kept@.len() ==> #[trigger] kept@[k] < paths@.len()
                        && paths@[kept@[k] as int]@ == out@[k]@,
                k <= kept@.len(),
                covered ==> lies_under_any(paths@[at as int]@, path_views(out@)),
                !covered ==> forall|m: int|
                    0 <= m < k ==> !#[trigger] crate::paths::lies_under(
                        paths@[at as int]@,
                        path_views(out@)[m],
                    ),
            decreases kept@.len() - k + (if covered { 0int } else { 1 }),
        {
            let base = kept[k];
            covered = starts_with_parts(&order.parts[at], &order.parts[base]);
            proof {
                assert(path_views(out@)[k as int] == paths@[base as int]@);
                assert(covered == crate::paths::lies_under(
                    paths@[at as int]@,
                    path_views(out@)[k as int],
                ));
            }
            if !covered {
                k = k + 1;
            }
        }
        let ghost before = out@;
        proof {
            assert(target.take(n + 1).drop_last() =~= target.take(n as int));
            assert(target.take(n + 1).last() == paths@[at as int]@);
        }
        if !covered {
            out.push(paths[at].clone());
            kept.push(at);
            assert(path_views(out@) =~= path_views(before).push(paths@[at as int]@));
        }
        n = n + 1;
    }
    assert(target.take(n as int) =~= target);
    out
}

proof fn lemma_sorted_paths(paths: Seq<EntryPath>, order: DepthOrder, sorted: Seq<usize>)
    requires
        order.parts@.len() == paths.len(),
        forall|k: int|
            0 <= k < paths.len() ==> crate::paths::byte_strings(#[trigger] order.parts@[k]@)
                == crate::paths::parts(paths[k]@),
        crate::order::positions(sorted) == crate::order::stable_sorted(
            crate::order::numbers(0, paths.len() as int),
            |i: int, j: int| order.at_most(i, j),
        ),
    ensures
        ({
            let target = crate::order::stable_sorted(
                path_views(paths),
                |a: Seq<u8>, b: Seq<u8>| shallower(a, b),
            );
            &&& target.len() == sorted.len()
            &&& forall|k: int|
                0 <= k < sorted.len() ==> #[trigger] target[k] == paths[sorted[k] as int]@
        }),
{
    let le = |a: Seq<u8>, b: Seq<u8>| shallower(a, b);
    let f = |i: int| paths[i]@;
    let n = crate::order::numbers(0, paths.len() as int);
    let by_path = |i: int, j: int| le(f(i), f(j));
    let by_key = |i: int, j: int| order.at_most(i, j);
    assert(n.map_values(f) =~= path_views(paths));
    crate::order::lemma_stable_sorted_map(n, f, le);
    crate::order::lemma_stable_sorted_agree(n, by_path, by_key);
    let target = crate::order::stable_sorted(path_views(paths), le);
    assert forall|k: int| 0 <= k < sorted.len() implies #[trigger] target[k]
        == paths[sorted[k] as int]@ by {
        assert(crate::order::positions(sorted)[k] == sorted[k] as int);
    }
}

/// The desktops that a path can be shown on.
#[derive(Clone, Copy, Debug, PartialEq, Eq, Structural)]
pub enum Desktop {
    Freedesktop,
    MacOs,
    Windows,
}

/// A program to run, and its arguments.
#[derive(Clone, Debug, PartialEq, Eq)]
pub struct FileManagerInvocation {
    pub program: &'static str,
    pub args: Vec<String>,
}

/// The path whose contents the file manager is to show: a directory itself,
/// and for anything else the directory that it is in.
pub open spec fn directory_to_show(path: Seq<u8>, is_dir: bool) -> Seq<u8> {
    if is_dir {
        path
    } else {
        match crate::paths::parent_of(path) {
            Some(parent) => if parent.len() > 0 {
                parent
            } else {
                seq![crate::paths::DOT]
            },
            None => seq![crate::paths::DOT],
        }
    }
}

/// The program that shows a path in the file manager of a desktop.
pub open spec fn manager_of(desktop: Desktop) -> Seq<char> {
    match desktop {
        Desktop::MacOs => "open"@,
        Desktop::Windows => "explorer"@,
        Desktop::Freedesktop => "xdg-open"@,
    }
}

/// What the program that shows a path is told.
pub open spec fn manager_args(desktop: Desktop, path: Seq<u8>, is_dir: bool) -> Seq<Seq<char>> {
    match desktop {
        Desktop::MacOs => seq!["-R"@, crate::paths::shown(path)],
        Desktop::Windows => seq!["/select,"@ + crate::paths::shown(path)],
        Desktop::Freedesktop => seq![crate::paths::shown(directory_to_show(path, is_dir))],
    }
}

/// How to show a path in the file manager. Where the file manager can select
/// an entry, the path itself is named.
pub fn file_manager_invocation(desktop: Desktop, path: &EntryPath, is_dir: bool) -> (res:
    FileManagerInvocation)
    ensures
        match desktop {
            Desktop::MacOs => res.program@ == "open"@ && crate::text::texts(res.args@)
                == seq!["-R"@, crate::paths::shown(path@)],
            Desktop::Windows => res.program@ == "explorer"@ && crate::text::texts(res.args@)
                == seq!["/select,"@ + crate::paths::shown(path@)],
            Desktop::Freedesktop => res.program@ == "xdg-open"@ && crate::text::texts(res.args@)
                == seq![crate::paths::shown(directory_to_show(path@, is_dir))],
        },
        res.program@ == manager_of(desktop),
        crate::text::texts(res.args@) == manager_args(desktop, path@, is_dir),
{
    let mut args: Vec<String> = Vec::new();
    match desktop {
        Desktop::MacOs => {
            args.push("-R".to_owned());
            args.push(path.display());
            assert(crate::text::texts(args@) =~= seq!["-R"@, crate::paths::shown(path@)]);
            FileManagerInvocation { program: "open", args }
        },
        Desktop::Windows => {
            let mut arg = "/select,".to_owned();
            let shown = path.display();
            arg.append(shown.as_str());
            args.push(arg);
            assert(crate::text::texts(args@) =~= seq!["/select,"@ + crate::paths::shown(path@)]);
            FileManagerInvocation { program: "explorer", args }
        },
        Desktop::Freedesktop => {
            let target = if is_dir {
                path.clone()
            } else {
                let here = EntryPath::current_dir();
                match path.parent() {
                    Some(parent) => if parent.as_bytes().len() > 0 {
                        parent
                    } else {
                        here
                    },
                    None => here,
                }
            };
            args.push(target.display());
            assert(crate::text::texts(args@) =~= seq![
                crate::paths::shown(directory_to_show(path@, is_dir)),
            ]);
            FileManagerInvocation { program: "xdg-open", args }
        },
    }
}

/// What is done to an entry on the disk.
#[derive(Clone, Copy, Debug, PartialEq, Eq, Structural)]
pub enum FileOperation {
    Trash,
    Inspect,
    DeleteDirectory,
    DeleteFile,
    Open,
}

/// What to say where an operation on a path failed.
pub open spec fn failure_of(operation: FileOperation, path: Seq<u8>) -> Seq<char> {
    let shown = crate::paths::shown(path);
    match operation {
        FileOperation::Trash => "failed to move "@ + shown + " to trash"@,
        FileOperation::Inspect => "failed to inspect "@ + shown,
        FileOperation::DeleteDirectory => "failed to delete directory "@ + shown,
        FileOperation::DeleteFile => "failed to delete file "@ + shown,
        FileOperation::Open => "failed to open "@ + shown + " in file manager"@,
    }
}

/// What to say where an operation on a path failed.
pub fn operation_failure(operation: FileOperation, path: &EntryPath) -> (res: String)
    ensures
        res@ == failure_of(operation, path@),
{
    let shown = path.display();
    let (before, after) = match operation {
        FileOperation::Trash => ("failed to move ", " to trash"),
        FileOperation::Inspect => ("failed to inspect ", ""),
        FileOperation::DeleteDirectory => ("failed to delete directory ", ""),
        FileOperation::DeleteFile => ("failed to delete file ", ""),
        FileOperation::Open => ("failed to open ", " in file manager"),
    };
    let mut out = before.to_owned();
    out.append(shown.as_str());
    out.append(after);
    proof {
        reveal_strlit("");
        assert(out@ =~= failure_of(operation, path@));
    }
    out
}

/// How an entry is deleted for good: a directory with all that is in it,
/// anything else as a file.
pub fn permanent_deletion(is_dir: bool) -> (res: FileOperation)
    ensures
        res == if is_dir {
            FileOperation::DeleteDirectory
        } else {
            FileOperation::DeleteFile
        },
{
    if is_dir {
        FileOperation::DeleteDirectory
    } else {
        FileOperation::DeleteFile
    }
}

/// That a deletion was not confirmed.
#[derive(Clone, Copy, Debug, PartialEq, Eq, Structural)]
pub struct DeletionRefused;

impl DeletionRefused {
    /// What to tell about it.
    pub fn message(self) -> (res: &'static str)
        ensures
            res@ == "refusing to delete without --yes"@,
    {
        "refusing to delete without --yes"
    }
}

/// The paths to delete, without those below others of them. Nothing is
/// deleted without a confirmation.
pub fn deletion_plan(paths: Vec<EntryPath>, confirmed: bool) -> (res: Result<
    Vec<EntryPath>,
    DeletionRefused,
>)
    ensures
        match res {
            Ok(roots) => confirmed && path_views(roots@) == roots_of(path_views(paths@)),
            Err(_) => !confirmed,
        },
{
    if !confirmed {
        return Err(DeletionRefused);
    }
    Ok(root_paths(paths))
}

/// What to say after a deletion.
pub open spec fn deletion_text(permanent: bool, count: nat) -> Seq<char> {
    (if permanent {
        "Deleted permanently"@
    } else {
        "Moved to trash"@
    }) + " "@ + crate::text::decimal(count) + " item(s)"@
}

/// What to say after a deletion.
pub fn deletion_summary(permanent: bool, count: usize) -> (res: String)
    ensures
        res@ == deletion_text(permanent, count as nat),
{
    let action = if permanent {
        "Deleted permanently"
    } else {
        "Moved to trash"
    };
    let mut out = action.to_owned();
    out.append(" ");
    append_decimal(&mut out, count as u64);
    out.append(" item(s)");
    out
}

/// What to say after entries were shown in the file manager.
pub fn opened_summary(count: usize) -> (res: String)
    ensures
        res@ == "Opened "@ + crate::text::decimal(count as nat) + " item(s) in file manager"@,
{
    let mut out = "Opened ".to_owned();
    append_decimal(&mut out, count as u64);
    out.append(" item(s) in file manager");
    out
}

} // verus!
