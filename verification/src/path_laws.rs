//! What holds of paths and their parts, told by how paths are put together.

use vstd::prelude::*;

#[allow(unused_imports)]
use crate::paths::{DOT, SLASH};

verus! {

/// Whether a byte string can be one part of a path: it is not empty and has no
/// separator in it.
pub open spec fn is_piece(name: Seq<u8>) -> bool {
    name.len() > 0 && forall|i: int| 0 <= i < name.len() ==> #[trigger] name[i] != 0x2fu8
}

/// An empty path has no parts, and the path of the root one. A part by itself is
/// a path of that part.
pub proof fn lemma_single_parts(name: Seq<u8>)
    requires
        is_piece(name),
    ensures
        crate::paths::parts(Seq::empty()) == Seq::<Seq<u8>>::empty(),
        crate::paths::parts(seq![0x2fu8]) == seq![seq![0x2fu8]],
        crate::paths::parts(name) == seq![name],
{
    let none = Seq::<u8>::empty();
    crate::paths::lemma_piece_start_is(none, 0);
    assert(crate::paths::body_spans(none) =~= seq![]);
    assert(crate::paths::parts(none) =~= Seq::<Seq<u8>>::empty());
    let root = seq![0x2fu8];
    crate::paths::lemma_piece_start_is(root, 1);
    assert(root.take(0) =~= none);
    assert(crate::paths::body_spans(root) =~= seq![]);
    assert(crate::paths::spans(root) =~= seq![(0int, 1int)]);
    assert(root.subrange(0, 1) =~= root);
    assert(crate::paths::parts(root) =~= seq![root]);
    crate::paths::lemma_piece_start_is(name, 0);
    assert(name.subrange(0, name.len() as int) =~= name);
    assert(crate::paths::body_spans(name) =~= seq![(0int, name.len() as int)]);
    assert(crate::paths::spans(name) =~= seq![(0int, name.len() as int)]);
    assert(crate::paths::parts(name) =~= seq![name]);
}

/// A part behind a path is one more part of it. A single dot behind a path adds
/// nothing, and neither does a separator at its end.
pub proof fn lemma_one_more_part(b: Seq<u8>, name: Seq<u8>)
    requires
        b.len() > 0,
        is_piece(name),
    ensures
        crate::paths::parts(b.push(0x2fu8)) == crate::paths::parts(b),
        name == seq![0x2eu8] ==> crate::paths::parts(b.push(0x2fu8) + name) == crate::paths::parts(
            b,
        ),
        name != seq![0x2eu8] ==> crate::paths::parts(b.push(0x2fu8) + name) == crate::paths::parts(
            b,
        ).push(name),
{
    let ended = b.push(0x2fu8);
    let longer = ended + name;
    let k = ended.len() as int;
    let body = crate::paths::body_spans(b);
    crate::paths::lemma_piece_start_is(ended, k);
    crate::paths::lemma_piece_start_is(longer, k);
    assert(ended.take(k - 1) =~= b);
    assert(longer.take(k - 1) =~= b);
    assert(ended.subrange(k, k).len() == 0);
    assert(longer.subrange(k, longer.len() as int) =~= name);
    assert(crate::paths::body_spans(ended) == body);
    assert(seq![0x2eu8].len() == 1);
    assert(ended[0] == b[0] && longer[0] == b[0]);
    crate::paths::lemma_spans_within(b);
    let s = crate::paths::spans(b);
    assert(crate::paths::spans(ended) =~= s);
    assert forall|i: int| 0 <= i < s.len() implies ended.subrange(s[i].0, s[i].1) == b.subrange(
        s[i].0,
        s[i].1,
    ) && longer.subrange(s[i].0, s[i].1) == #[trigger] b.subrange(s[i].0, s[i].1) by {
        assert(0 <= s[i].0 < s[i].1 <= b.len());
        assert(ended.subrange(s[i].0, s[i].1) =~= b.subrange(s[i].0, s[i].1));
        assert(longer.subrange(s[i].0, s[i].1) =~= b.subrange(s[i].0, s[i].1));
    }
    assert(crate::paths::parts(ended) =~= crate::paths::parts(b));
    if name == seq![0x2eu8] {
        assert(crate::paths::spans(longer) =~= s);
        assert(crate::paths::parts(longer) =~= crate::paths::parts(b));
    } else {
        assert(crate::paths::body_spans(longer) == body.push((k, longer.len() as int)));
        assert(crate::paths::spans(longer) =~= s.push((k, longer.len() as int)));
        assert(crate::paths::parts(longer) =~= crate::paths::parts(b).push(name));
    }
}

/// Whether a part is a name: neither the current nor the parent directory.
pub open spec fn is_name(name: Seq<u8>) -> bool {
    is_piece(name) && name != seq![0x2eu8] && name != seq![0x2eu8, 0x2eu8]
}

/// An entry in a directory: its name is the name that its path ends in, it lies
/// below the directory and not the other way round, its parent is the directory,
/// and in a listing of the directory it shows as its name.
pub proof fn lemma_entry_in_directory(b: Seq<u8>, name: Seq<u8>)
    requires
        b.len() > 0,
        is_name(name),
    ensures
        ({
            let path = b.push(0x2fu8) + name;
            &&& crate::paths::file_name_of(path) == Some(name)
            &&& crate::paths::shown(name).len() > 0 ==> crate::paths::display_name_of(path)
                == crate::paths::shown(name)
            &&& crate::paths::lies_under(path, b) && !crate::paths::lies_under(b, path)
            &&& crate::paths::parent_of(path) is Some
            &&& crate::paths::parts(crate::paths::parent_of(path)->0) == crate::paths::parts(b)
            &&& crate::paths::displayed_path(b, path) == crate::paths::shown(name)
        }),
{
    let path = b.push(0x2fu8) + name;
    lemma_one_more_part(b, name);
    let p = crate::paths::parts(b);
    let q = crate::paths::parts(path);
    assert(seq![0x2fu8][0] == 0x2fu8);
    assert(p =~= q.subrange(0, p.len() as int));
    assert(crate::paths::part_rank(name) == 3) by {
        if name == seq![SLASH] {
            assert(name[0] == 0x2fu8);
        }
    }
    assert(q.last() == name);
    assert(crate::paths::spans(path).len() == q.len());
    crate::paths::lemma_parent(path);
    assert(q.drop_last() =~= p);
    let s = crate::paths::spans(path);
    crate::paths::lemma_spans_within(path);
    let k = b.len() as int + 1;
    crate::paths::lemma_piece_start_is(path, k);
    assert(path.subrange(k, path.len() as int) =~= name);
    assert(s.last() == (k, path.len() as int)) by {
        assert(crate::paths::body_spans(path).last() == (k, path.len() as int));
    }
    assert(crate::paths::behind_parts(path, p.len() as int) =~= name);
}

/// What shows of a path in the listing of a directory that it does not lie below
/// is the path itself.
pub proof fn lemma_displayed_elsewhere(base: Seq<u8>, path: Seq<u8>)
    requires
        !crate::paths::lies_under(path, base) || crate::paths::parts(path)
            == crate::paths::parts(base),
    ensures
        crate::paths::displayed_path(base, path) == crate::paths::shown(path),
{
    assert(crate::paths::spans(path).len() == crate::paths::parts(path).len());
}

/// Only the root and the empty path have no parent, and a path ends in a name
/// unless it ends in the root, a current or a parent directory.
pub proof fn lemma_parentless(b: Seq<u8>)
    ensures
        crate::paths::parent_of(b) is None <==> crate::paths::parts(b).len() == 0
            || crate::paths::parts(b).last() == seq![0x2fu8],
        crate::paths::file_name_of(b) is None <==> crate::paths::parts(b).len() == 0
            || crate::paths::parts(b).last() == seq![0x2fu8] || crate::paths::parts(b).last()
            == seq![0x2eu8] || crate::paths::parts(b).last() == seq![0x2eu8, 0x2eu8],
        crate::paths::file_name_of(b) matches Some(name) ==> name == crate::paths::parts(b).last(),
{
    assert(crate::paths::spans(b).len() == crate::paths::parts(b).len());
    let p = crate::paths::parts(b);
    if p.len() > 0 {
        assert(seq![SLASH].len() == 1 && seq![DOT].len() == 1 && seq![DOT, DOT].len() == 2);
        assert(seq![SLASH][0] == 0x2fu8 && seq![DOT][0] == 0x2eu8);
    }
}

/// A relative path taken from a base is the base and the path with one separator
/// between them; an absolute path is itself.
pub proof fn lemma_joined_bytes(base: Seq<u8>, path: Seq<u8>)
    ensures
        path.len() > 0 && path[0] == 0x2fu8 ==> crate::paths::joined(base, path) == path,
        !(path.len() > 0 && path[0] == 0x2fu8) ==> {
            let r = crate::paths::joined(base, path);
            let n = if base.len() > 0 && base.last() != 0x2fu8 {
                base.len() as int + 1
            } else {
                base.len() as int
            };
            &&& r.len() == n + path.len()
            &&& r.take(base.len() as int) == base
            &&& r.skip(n) == path
            &&& n > base.len() ==> r[base.len() as int] == 0x2fu8
        },
{
    let r = crate::paths::joined(base, path);
    if !(path.len() > 0 && path[0] == 0x2fu8) {
        let n = if base.len() > 0 && base.last() != 0x2fu8 {
            base.len() as int + 1
        } else {
            base.len() as int
        };
        assert(r.take(base.len() as int) =~= base);
        assert(r.skip(n) =~= path);
    }
}

/// Of two names the one is first that has the smaller byte in the first place in
/// which they differ, or that the other one starts with.
pub proof fn lemma_bytes_order(a: Seq<u8>, b: Seq<u8>, k: int)
    requires
        0 <= k <= a.len(),
        k <= b.len(),
        forall|i: int| 0 <= i < k ==> a[i] == b[i],
        k == a.len() || (k < b.len() && a[k] < b[k]),
    ensures
        crate::paths::bytes_le(a, b),
        a != b ==> !crate::paths::bytes_le(b, a),
{
    let le = |x: u8, y: u8| x <= y;
    crate::order::lemma_lex_common_prefix(a, b, k, le);
    crate::order::lemma_lex_common_prefix(b, a, k, le);
    if k == a.len() && k == b.len() {
        assert(a =~= b);
    }
}

/// Parts are in the order of the root, the current directory, the parent
/// directory and names, and names in the order of their bytes.
pub proof fn lemma_part_order(a: Seq<u8>, b: Seq<u8>)
    requires
        is_name(a),
        is_name(b),
    ensures
        ({
            let root = seq![0x2fu8];
            let here = seq![0x2eu8];
            let up = seq![0x2eu8, 0x2eu8];
            let le = |p: Seq<u8>, q: Seq<u8>| crate::paths::part_le(p, q);
            &&& le(root, here) && !le(here, root)
            &&& le(here, up) && !le(up, here)
            &&& le(up, a) && !le(a, up)
            &&& le(a, b) == crate::paths::bytes_le(a, b)
        }),
{
    let root = seq![0x2fu8];
    let here = seq![0x2eu8];
    let up = seq![0x2eu8, 0x2eu8];
    assert(root[0] == 0x2fu8 && here[0] == 0x2eu8 && up[0] == 0x2eu8);
    assert(root.len() == 1 && here.len() == 1 && up.len() == 2);
    assert(a[0] != 0x2fu8 && b[0] != 0x2fu8);
    assert(crate::paths::part_rank(a) == 3 && crate::paths::part_rank(b) == 3);
    assert(crate::paths::part_rank(root) == 0);
    assert(crate::paths::part_rank(here) == 1);
    assert(crate::paths::part_rank(up) == 2);
}

/// Of two lists of parts the one is first that has the earlier part in the first
/// place in which they differ, or that the other one starts with.
pub proof fn lemma_parts_order(a: Seq<Seq<u8>>, b: Seq<Seq<u8>>, k: int)
    requires
        0 <= k <= a.len(),
        k <= b.len(),
        forall|i: int| 0 <= i < k ==> a[i] == b[i],
        k == a.len() || (k < b.len() && a[k] != b[k] && crate::paths::part_le(a[k], b[k])),
    ensures
        crate::paths::parts_le(a, b),
        a != b ==> !crate::paths::parts_le(b, a),
{
    let le = |p: Seq<u8>, q: Seq<u8>| crate::paths::part_le(p, q);
    let lex = |p: Seq<Seq<u8>>, q: Seq<Seq<u8>>| crate::paths::parts_le(p, q);
    crate::paths::lemma_parts_le_total();
    crate::order::lemma_lex_common_prefix(a, b, k, le);
    if k == a.len() && k == b.len() {
        assert(a =~= b);
    }
    assert(lex(a, b));
    if crate::paths::parts_le(b, a) {
        assert(lex(b, a));
        assert(a == b);
    }
}

/// The paths that cover several come with those of fewer parts first, and those
/// of as many parts in their order.
pub proof fn lemma_roots_order(paths: Seq<Seq<u8>>, i: int, j: int)
    requires
        0 <= i < j < crate::ops::roots_of(paths).len(),
    ensures
        ({
            let a = crate::paths::parts(crate::ops::roots_of(paths)[i]);
            let b = crate::paths::parts(crate::ops::roots_of(paths)[j]);
            a.len() <= b.len() && (a.len() == b.len() ==> crate::paths::parts_le(a, b))
        }),
{
    crate::ops::lemma_roots_sorted(paths);
    assert(crate::ops::shallower(
        crate::ops::roots_of(paths)[i],
        crate::ops::roots_of(paths)[j],
    ));
}

/// What a file manager without selection is shown for an entry in a directory:
/// the directory, and for a directory itself that directory.
pub proof fn lemma_directory_to_show(b: Seq<u8>, name: Seq<u8>)
    requires
        b.len() > 0,
        is_name(name),
    ensures
        crate::ops::directory_to_show(b.push(0x2fu8) + name, true) == b.push(0x2fu8) + name,
        crate::paths::parts(b).len() > 0 ==> crate::paths::parts(
            crate::ops::directory_to_show(b.push(0x2fu8) + name, false),
        ) == crate::paths::parts(b),
        crate::ops::directory_to_show(name, false) == seq![0x2eu8],
{
    let path = b.push(0x2fu8) + name;
    lemma_entry_in_directory(b, name);
    lemma_single_parts(name);
    let up = crate::paths::parent_of(path)->0;
    if up.len() == 0 {
        assert(up =~= Seq::<u8>::empty());
    }
    assert(crate::paths::spans(name).len() == crate::paths::parts(name).len());
    assert(crate::paths::part_rank(name) == 3) by {
        assert(seq![SLASH][0] == 0x2fu8);
        if name == seq![SLASH] {
            assert(name[0] == 0x2fu8);
        }
    }
    assert(seq![DOT] =~= seq![0x2eu8]);
}

/// An entry is listed under the name that its path ends in, and under its whole
/// path where the path ends in none or the name shows as nothing.
pub proof fn lemma_display_name(b: Seq<u8>)
    ensures
        ({
            let p = crate::paths::parts(b);
            let named = p.len() > 0 && p.last() != seq![0x2fu8] && p.last() != seq![0x2eu8]
                && p.last() != seq![0x2eu8, 0x2eu8];
            &&& named && crate::paths::shown(p.last()).len() > 0
                ==> crate::paths::display_name_of(b) == crate::paths::shown(p.last())
            &&& !named || crate::paths::shown(p.last()).len() == 0
                ==> crate::paths::display_name_of(b) == crate::paths::shown(b)
        }),
{
    lemma_parentless(b);
}

/// What is said after a deletion and after a failure: how many entries it was,
/// how they were deleted, and with which path something failed.
pub proof fn lemma_deletion_told(count: nat, operation: crate::ops::FileOperation, path: Seq<u8>)
    ensures
        crate::ops::deletion_text(true, count) == "Deleted permanently"@ + " "@
            + crate::text::decimal(count) + " item(s)"@,
        crate::ops::deletion_text(false, count) == "Moved to trash"@ + " "@ + crate::text::decimal(
            count,
        ) + " item(s)"@,
        crate::text::has_infix(
            crate::ops::failure_of(operation, path),
            crate::paths::shown(path),
        ),
{
    let text = crate::ops::failure_of(operation, path);
    let shown = crate::paths::shown(path);
    let i: int = match operation {
        crate::ops::FileOperation::Trash => "failed to move "@.len() as int,
        crate::ops::FileOperation::Inspect => "failed to inspect "@.len() as int,
        crate::ops::FileOperation::DeleteDirectory => "failed to delete directory "@.len() as int,
        crate::ops::FileOperation::DeleteFile => "failed to delete file "@.len() as int,
        crate::ops::FileOperation::Open => "failed to open "@.len() as int,
    };
    assert(text.subrange(i, i + shown.len()) =~= shown);
}

/// A file manager is told the path where it can select an entry, in its last
/// argument, and otherwise the directory to show.
pub proof fn lemma_manager(desktop: crate::ops::Desktop, path: Seq<u8>, is_dir: bool)
    ensures
        ({
            let args = crate::ops::manager_args(desktop, path, is_dir);
            &&& args.len() > 0
            &&& desktop == crate::ops::Desktop::MacOs ==> args == seq![
                "-R"@,
                crate::paths::shown(path),
            ] && crate::ops::manager_of(desktop) == "open"@
            &&& desktop == crate::ops::Desktop::Windows ==> args.len() == 1 && args[0]
                == "/select,"@ + crate::paths::shown(path) && crate::ops::manager_of(desktop)
                == "explorer"@
            &&& desktop == crate::ops::Desktop::Freedesktop && is_dir ==> args == seq![
                crate::paths::shown(path),
            ]
            &&& desktop == crate::ops::Desktop::Freedesktop && !is_dir ==> (
            crate::paths::parent_of(path) matches Some(up) ==> up.len() > 0 ==> args == seq![
                crate::paths::shown(up),
            ])
            &&& desktop == crate::ops::Desktop::Freedesktop ==> crate::ops::manager_of(desktop)
                == "xdg-open"@
        }),
{
}

} // verus!
