//! What holds of every list of entries: which entries are in it, in which
//! order, how many, and what their rows say.

use vstd::prelude::*;

use crate::children::SortKey;
#[allow(unused_imports)]
use crate::listing::ListRequest;
#[allow(unused_imports)]
use crate::tree::{EntryKind, Tree};

verus! {

/// A list of children by size has the larger ones first, and those of one size
/// by their names without regard to case. In reverse it has the smaller ones
/// first.
pub proof fn lemma_listed_by_size(t: Tree, filter: Seq<char>)
    ensures
        ({
            let listed = crate::children::listed_children(t, SortKey::Size, false, filter);
            forall|i: int, j: int|
                0 <= i < j < listed.len() ==> (#[trigger] listed[i]).size >= (
                #[trigger] listed[j]).size && (listed[i].size == listed[j].size
                    ==> crate::text::text_le(
                    crate::text::lowercase(listed[i].name),
                    crate::text::lowercase(listed[j].name),
                ))
        }),
        ({
            let listed = crate::children::listed_children(t, SortKey::Size, true, filter);
            forall|i: int, j: int|
                0 <= i < j < listed.len() ==> (#[trigger] listed[i]).size <= (
                #[trigger] listed[j]).size
        }),
{
    crate::children::lemma_listed_children(t, SortKey::Size, false, filter);
    crate::children::lemma_listed_children(t, SortKey::Size, true, filter);
    let listed = crate::children::listed_children(t, SortKey::Size, false, filter);
    assert forall|i: int, j: int| 0 <= i < j < listed.len() implies (#[trigger] listed[i]).size
        >= (#[trigger] listed[j]).size && (listed[i].size == listed[j].size
        ==> crate::text::text_le(
        crate::text::lowercase(listed[i].name),
        crate::text::lowercase(listed[j].name),
    )) by {
        assert(crate::children::listed_before(SortKey::Size, listed[i], listed[j]));
    }
    let back = crate::children::listed_children(t, SortKey::Size, true, filter);
    assert forall|i: int, j: int| 0 <= i < j < back.len() implies (#[trigger] back[i]).size <= (
    #[trigger] back[j]).size by {
        assert(crate::children::listed_before(SortKey::Size, back[j], back[i]));
    }
}

/// A list of children by name has them in the order of their names without
/// regard to case, and those of one name with the larger ones first.
pub proof fn lemma_listed_by_name(t: Tree, filter: Seq<char>)
    ensures
        ({
            let listed = crate::children::listed_children(t, SortKey::Name, false, filter);
            forall|i: int, j: int|
                0 <= i < j < listed.len() ==> {
                    let x = crate::text::lowercase((#[trigger] listed[i]).name);
                    let y = crate::text::lowercase((#[trigger] listed[j]).name);
                    crate::text::text_le(x, y) && (x == y ==> listed[i].size >= listed[j].size)
                }
        }),
{
    crate::children::lemma_listed_children(t, SortKey::Name, false, filter);
    let listed = crate::children::listed_children(t, SortKey::Name, false, filter);
    let tl = |a: Seq<char>, b: Seq<char>| crate::text::text_le(a, b);
    crate::text::lemma_text_le_total();
    assert forall|i: int, j: int| 0 <= i < j < listed.len() implies ({
        let x = crate::text::lowercase((#[trigger] listed[i]).name);
        let y = crate::text::lowercase((#[trigger] listed[j]).name);
        crate::text::text_le(x, y) && (x == y ==> listed[i].size >= listed[j].size)
    }) by {
        let x = crate::text::lowercase(listed[i].name);
        assert(tl(x, x));
        assert(crate::children::listed_before(SortKey::Name, listed[i], listed[j]));
    }
}

/// Whether one kind comes before another in a list of children by kind, or is
/// the same: directories, files, links, other entries, errors.
pub open spec fn kind_not_behind(a: EntryKind, b: EntryKind) -> bool {
    &&& b == EntryKind::Directory ==> a == EntryKind::Directory
    &&& b == EntryKind::File ==> a == EntryKind::Directory || a == EntryKind::File
    &&& b == EntryKind::Symlink ==> a != EntryKind::Other && a != EntryKind::Error
    &&& b == EntryKind::Other ==> a != EntryKind::Error
}

/// A list of children by kind has directories, files, links, other entries and
/// errors in this order, those of one kind with the larger ones first, and
/// those of one kind and size by their names.
pub proof fn lemma_listed_by_kind(t: Tree, filter: Seq<char>)
    ensures
        ({
            let listed = crate::children::listed_children(t, SortKey::Kind, false, filter);
            forall|i: int, j: int|
                0 <= i < j < listed.len() ==> {
                    let (a, b) = (#[trigger] listed[i], #[trigger] listed[j]);
                    &&& kind_not_behind(a.kind, b.kind)
                    &&& a.kind == b.kind ==> a.size >= b.size
                    &&& a.kind == b.kind && a.size == b.size ==> crate::text::text_le(
                        crate::text::lowercase(a.name),
                        crate::text::lowercase(b.name),
                    )
                }
        }),
{
    crate::children::lemma_listed_children(t, SortKey::Kind, false, filter);
    let listed = crate::children::listed_children(t, SortKey::Kind, false, filter);
    assert forall|i: int, j: int| 0 <= i < j < listed.len() implies ({
        let (a, b) = (#[trigger] listed[i], #[trigger] listed[j]);
        &&& kind_not_behind(a.kind, b.kind)
        &&& a.kind == b.kind ==> a.size >= b.size
        &&& a.kind == b.kind && a.size == b.size ==> crate::text::text_le(
            crate::text::lowercase(a.name),
            crate::text::lowercase(b.name),
        )
    }) by {
        assert(crate::children::listed_before(SortKey::Kind, listed[i], listed[j]));
    }
}

/// Whether an entry is wanted by a text that may be spelled in any case: it has
/// the lowercase form of the text in that of its name or of its path.
pub open spec fn wanted_by(x: Tree, text: Seq<char>) -> bool {
    let low = crate::text::lowercase(text);
    ||| text.len() == 0
    ||| crate::text::has_infix(crate::text::lowercase(x.name), low)
    ||| crate::text::has_infix(crate::text::lowercase(crate::paths::shown(x.path)), low)
}

/// How often an item is in what is left of a sequence.
proof fn lemma_filter_counts(ts: Seq<Tree>, f: spec_fn(Tree) -> bool, x: Tree)
    ensures
        ts.filter(f).to_multiset().count(x) == if f(x) {
            ts.to_multiset().count(x)
        } else {
            0
        },
    decreases ts.len(),
{
    broadcast use vstd::seq_lib::group_to_multiset_ensures;

    reveal(Seq::filter);
    if ts.len() > 0 {
        let d = ts.drop_last();
        lemma_filter_counts(d, f, x);
        assert(ts =~= d.push(ts.last()));
    } else {
        assert(ts.filter(f) =~= ts);
    }
}

/// A list of children has exactly the children that have the filter's text in
/// their names or paths, white space around the text and its case left out of
/// account, each as often as it is among the children. Turned around it is the
/// list in reverse.
pub proof fn lemma_listed_which(t: Tree, sort: SortKey, reversed: bool, filter: Seq<char>, x: Tree)
    ensures
        ({
            let listed = crate::children::listed_children(t, sort, reversed, filter);
            &&& listed.to_multiset().count(x) == if wanted_by(x, crate::text::trimmed(filter)) {
                t.children.to_multiset().count(x)
            } else {
                0
            }
            &&& listed.contains(x) <==> t.children.contains(x) && wanted_by(
                x,
                crate::text::trimmed(filter),
            )
            &&& listed.len() <= t.children.len()
            &&& listed.reverse() == crate::children::listed_children(t, sort, !reversed, filter)
        }),
{
    broadcast use vstd::seq_lib::group_to_multiset_ensures;

    let trimmed = crate::text::trimmed(filter);
    let low = crate::text::lowercase(trimmed);
    let f = |n: Tree| crate::children::matches_filter(n, low);
    crate::children::lemma_listed_children(t, sort, reversed, filter);
    lemma_filter_counts(t.children, f, x);
    t.children.lemma_filter_len(f);
    let listed = crate::children::listed_children(t, sort, reversed, filter);
    assert(f(x) == wanted_by(x, trimmed)) by {
        lemma_no_text(x, trimmed);
    }
    assert(listed.contains(x) <==> listed.to_multiset().count(x) > 0);
    assert(t.children.contains(x) <==> t.children.to_multiset().count(x) > 0);
    assert(listed.reverse() =~= crate::children::listed_children(t, sort, !reversed, filter));
}

/// A text whose lowercase form is empty occurs everywhere.
proof fn lemma_no_text(x: Tree, text: Seq<char>)
    ensures
        crate::children::matches_filter(x, crate::text::lowercase(text)) == wanted_by(x, text),
{
    let low = crate::text::lowercase(text);
    if low.len() == 0 {
        let hay = crate::text::lowercase(x.name);
        let i: int = 0;
        assert(hay.subrange(i, i + low.len()) =~= low);
    }
}

/// Where two entries have names and paths with the same lowercase forms, a
/// filter lists both or neither.
pub proof fn lemma_filter_without_case(
    t: Tree,
    sort: SortKey,
    reversed: bool,
    filter: Seq<char>,
    x: Tree,
    y: Tree,
)
    requires
        t.children.contains(x),
        t.children.contains(y),
        crate::text::lowercase(x.name) == crate::text::lowercase(y.name),
        crate::text::lowercase(crate::paths::shown(x.path)) == crate::text::lowercase(
            crate::paths::shown(y.path),
        ),
    ensures
        ({
            let listed = crate::children::listed_children(t, sort, reversed, filter);
            listed.contains(x) <==> listed.contains(y)
        }),
{
    lemma_listed_which(t, sort, reversed, filter, x);
    lemma_listed_which(t, sort, reversed, filter, y);
}

/// The list of all entries has exactly the entries below the root that have the
/// filter's text in their names or paths, its case left out of account.
pub proof fn lemma_printed_which(
    t: Tree,
    sort: SortKey,
    reversed: bool,
    filter: Seq<char>,
    x: Tree,
)
    ensures
        ({
            let printed = crate::listing::printed_descendants(t, sort, reversed, filter);
            let all = crate::tree::preorder_all(t.children);
            &&& printed.to_multiset().count(x) == if wanted_by(x, filter) {
                all.to_multiset().count(x)
            } else {
                0
            }
            &&& printed.contains(x) <==> all.contains(x) && wanted_by(x, filter)
            &&& printed.reverse() == crate::listing::printed_descendants(
                t,
                sort,
                !reversed,
                filter,
            )
        }),
{
    broadcast use vstd::seq_lib::group_to_multiset_ensures;

    let all = crate::tree::preorder_all(t.children);
    let low = crate::text::lowercase(filter);
    let f = |n: Tree| crate::children::matches_filter(n, low);
    crate::listing::lemma_printed_descendants(t, sort, reversed, filter);
    lemma_filter_counts(all, f, x);
    lemma_no_text(x, filter);
    let printed = crate::listing::printed_descendants(t, sort, reversed, filter);
    assert(f(x) == wanted_by(x, filter));
    assert(printed.contains(x) <==> printed.to_multiset().count(x) > 0);
    assert(all.contains(x) <==> all.to_multiset().count(x) > 0);
    assert(printed.reverse() =~= crate::listing::printed_descendants(t, sort, !reversed, filter));
}

/// Whether one kind comes before another in the list of all entries, or is the
/// same: the kinds are in the order of their words, which are directory, error,
/// file, other and symlink.
pub open spec fn word_not_behind(a: EntryKind, b: EntryKind) -> bool {
    &&& b == EntryKind::Directory ==> a == EntryKind::Directory
    &&& b == EntryKind::Error ==> a == EntryKind::Directory || a == EntryKind::Error
    &&& b == EntryKind::File ==> a != EntryKind::Other && a != EntryKind::Symlink
    &&& b == EntryKind::Other ==> a != EntryKind::Symlink
}

/// The list of all entries has the larger ones first by size and those of one
/// size by their paths; by name it has them in the order of their names without
/// regard to case, the larger ones of one name first; by kind in the order of
/// the kinds' words, the larger ones of one kind first.
pub proof fn lemma_printed_order(t: Tree, filter: Seq<char>)
    ensures
        ({
            let printed = crate::listing::printed_descendants(t, SortKey::Size, false, filter);
            forall|i: int, j: int|
                0 <= i < j < printed.len() ==> (#[trigger] printed[i]).size >= (
                #[trigger] printed[j]).size && (printed[i].size == printed[j].size
                    ==> crate::text::text_le(
                    crate::paths::shown(printed[i].path),
                    crate::paths::shown(printed[j].path),
                ))
        }),
        ({
            let printed = crate::listing::printed_descendants(t, SortKey::Name, false, filter);
            forall|i: int, j: int|
                0 <= i < j < printed.len() ==> {
                    let x = crate::text::lowercase((#[trigger] printed[i]).name);
                    let y = crate::text::lowercase((#[trigger] printed[j]).name);
                    crate::text::text_le(x, y) && (x == y ==> printed[i].size >= printed[j].size)
                }
        }),
        ({
            let printed = crate::listing::printed_descendants(t, SortKey::Kind, false, filter);
            forall|i: int, j: int|
                0 <= i < j < printed.len() ==> {
                    let (a, b) = (#[trigger] printed[i], #[trigger] printed[j]);
                    &&& word_not_behind(a.kind, b.kind)
                    &&& a.kind == b.kind ==> a.size >= b.size
                }
        }),
{
    let tl = |a: Seq<char>, b: Seq<char>| crate::text::text_le(a, b);
    crate::text::lemma_text_le_total();
    crate::listing::lemma_printed_descendants(t, SortKey::Size, false, filter);
    crate::listing::lemma_printed_descendants(t, SortKey::Name, false, filter);
    crate::listing::lemma_printed_descendants(t, SortKey::Kind, false, filter);
    let printed = crate::listing::printed_descendants(t, SortKey::Size, false, filter);
    assert forall|i: int, j: int| 0 <= i < j < printed.len() implies (#[trigger] printed[i]).size
        >= (#[trigger] printed[j]).size && (printed[i].size == printed[j].size
        ==> crate::text::text_le(
        crate::paths::shown(printed[i].path),
        crate::paths::shown(printed[j].path),
    )) by {
        assert(crate::listing::printed_before(SortKey::Size, printed[i], printed[j]));
    }
    let named = crate::listing::printed_descendants(t, SortKey::Name, false, filter);
    assert forall|i: int, j: int| 0 <= i < j < named.len() implies ({
        let x = crate::text::lowercase((#[trigger] named[i]).name);
        let y = crate::text::lowercase((#[trigger] named[j]).name);
        crate::text::text_le(x, y) && (x == y ==> named[i].size >= named[j].size)
    }) by {
        let x = crate::text::lowercase(named[i].name);
        assert(tl(x, x));
        assert(crate::listing::printed_before(SortKey::Name, named[i], named[j]));
    }
    let kinds = crate::listing::printed_descendants(t, SortKey::Kind, false, filter);
    assert forall|i: int, j: int| 0 <= i < j < kinds.len() implies ({
        let (a, b) = (#[trigger] kinds[i], #[trigger] kinds[j]);
        &&& word_not_behind(a.kind, b.kind)
        &&& a.kind == b.kind ==> a.size >= b.size
    }) by {
        assert(crate::listing::printed_before(SortKey::Kind, kinds[i], kinds[j]));
        lemma_words_apart(kinds[i].kind, kinds[j].kind);
    }
}

/// The words for kinds differ, and are in the order that is said of them.
proof fn lemma_words_apart(a: EntryKind, b: EntryKind)
    ensures
        crate::listing::word_of_kind(a) == crate::listing::word_of_kind(b) <==> a == b,
        crate::text::text_le(crate::listing::word_of_kind(a), crate::listing::word_of_kind(b))
            ==> word_not_behind(a, b),
{
    reveal_strlit("directory");
    reveal_strlit("error");
    reveal_strlit("file");
    reveal_strlit("other");
    reveal_strlit("symlink");
    let x = crate::listing::word_of_kind(a);
    let y = crate::listing::word_of_kind(b);
    let le = |p: char, q: char| p <= q;
    if a != b {
        assert(x[0] != y[0]);
        crate::order::lemma_lex_common_prefix(x, y, 0, le);
    }
}

/// A request is answered with the first entries of the list that it asks for,
/// as many as it allows and there are: the children, or all entries below the
/// root.
pub proof fn lemma_requested(t: Tree, request: ListRequest)
    ensures
        ({
            let text = match request.filter {
                Some(text) => text@,
                None => Seq::empty(),
            };
            let whole = if request.all {
                crate::listing::printed_descendants(t, request.sort, request.reversed, text)
            } else {
                crate::children::listed_children(t, request.sort, request.reversed, text)
            };
            let answer = crate::listing::requested(t, request);
            &&& answer.is_prefix_of(whole)
            &&& answer.len() <= request.limit
            &&& answer.len() < whole.len() ==> answer.len() == request.limit
            &&& crate::listing::rows_of(answer).len() == answer.len()
            &&& forall|i: int|
                0 <= i < answer.len() ==> #[trigger] crate::listing::rows_of(answer)[i]
                    == crate::listing::row_of(answer[i])
        }),
{
    let text = match request.filter {
        Some(text) => text@,
        None => Seq::empty(),
    };
    let whole = if request.all {
        crate::listing::printed_descendants(t, request.sort, request.reversed, text)
    } else {
        crate::children::listed_children(t, request.sort, request.reversed, text)
    };
    let answer = crate::listing::requested(t, request);
    assert(answer =~= whole.subrange(0, answer.len() as int));
}

/// A row has the size on the right of ten columns, the word for the kind on the
/// left of the next but two, and ends in the path.
pub proof fn lemma_row(t: Tree)
    ensures
        ({
            let row = crate::listing::row_of(t);
            let size = crate::size::human(t.size);
            let word = crate::listing::word_of_kind(t.kind);
            let path = crate::paths::shown(t.path);
            let a = if size.len() < 10 {
                10
            } else {
                size.len() as int
            };
            let b = if word.len() < 7 {
                7
            } else {
                word.len() as int
            };
            &&& row.len() == a + 2 + b + 2 + path.len()
            &&& row.subrange(a - size.len(), a) == size
            &&& row.subrange(a + 2, a + 2 + word.len()) == word
            &&& row.skip(a + 2 + b + 2) == path
            &&& forall|i: int| 0 <= i < a - size.len() ==> row[i] == ' '
            &&& forall|i: int| a + 2 + word.len() <= i < a + 2 + b + 2 ==> row[i] == ' '
            &&& row[a] == ' ' && row[a + 1] == ' '
        }),
{
    reveal_strlit("  ");
    let row = crate::listing::row_of(t);
    let size = crate::size::human(t.size);
    let word = crate::listing::word_of_kind(t.kind);
    let path = crate::paths::shown(t.path);
    let a = if size.len() < 10 {
        10
    } else {
        size.len() as int
    };
    let b = if word.len() < 7 {
        7
    } else {
        word.len() as int
    };
    assert(row.subrange(a - size.len(), a) =~= size);
    assert(row.subrange(a + 2, a + 2 + word.len()) =~= word);
    assert(row.skip(a + 2 + b + 2) =~= path);
}

/// What is printed above the rows: the size, files, directories below the root
/// and errors of the root in one line, its path, an empty line, and the names of
/// the columns.
pub proof fn lemma_heading(t: Tree)
    ensures
        ({
            let lines = crate::listing::heading_of(t);
            let below = if t.dir_count == 0 {
                0
            } else {
                t.dir_count - 1
            };
            &&& lines.len() == 4
            &&& lines[0] == crate::size::human(t.size) + "  "@ + crate::text::decimal(
                t.file_count as nat,
            ) + " files  "@ + crate::text::decimal(below as nat) + " dirs  "@
                + crate::text::decimal(t.error_count as nat) + " errors"@
            &&& lines[1] == crate::paths::shown(t.path)
            &&& lines[2].len() == 0
        }),
{
}

/// The entries that search hits stand for: each is in the tree and has the path
/// of a hit.
pub proof fn lemma_hit_entries(t: Tree, paths: Seq<Seq<u8>>, i: int)
    requires
        0 <= i < crate::listing::hit_entries(t, paths).len(),
    ensures
        crate::tree::preorder(t).contains(crate::listing::hit_entries(t, paths)[i]),
        crate::state::path_among(crate::listing::hit_entries(t, paths)[i].path, paths),
    decreases paths.len(),
{
    let d = paths.drop_last();
    let earlier = crate::listing::hit_entries(t, d);
    let entry = crate::listing::hit_entries(t, paths)[i];
    if i < earlier.len() {
        lemma_hit_entries(t, d, i);
        let k = choose|k: int|
            0 <= k < d.len() && crate::paths::parts(#[trigger] d[k]) == crate::paths::parts(
                entry.path,
            );
        assert(paths[k] == d[k]);
    } else {
        lemma_first_found(crate::tree::preorder(t), paths.last());
        assert(crate::paths::parts(paths[paths.len() - 1]) == crate::paths::parts(entry.path));
    }
}

/// Each hit whose path the tree has stands for an entry with that path.
pub proof fn lemma_hit_has_entry(t: Tree, paths: Seq<Seq<u8>>, k: int, n: int) -> (i: int)
    requires
        0 <= k < paths.len(),
        0 <= n < crate::tree::preorder(t).len(),
        crate::paths::parts(crate::tree::preorder(t)[n].path) == crate::paths::parts(paths[k]),
    ensures
        0 <= i < crate::listing::hit_entries(t, paths).len(),
        crate::paths::parts(crate::listing::hit_entries(t, paths)[i].path) == crate::paths::parts(
            paths[k],
        ),
    decreases paths.len(),
{
    let d = paths.drop_last();
    let earlier = crate::listing::hit_entries(t, d);
    if k < d.len() {
        let i = lemma_hit_has_entry(t, d, k, n);
        assert(crate::listing::hit_entries(t, paths)[i] == earlier[i]);
        i
    } else {
        lemma_first_found(crate::tree::preorder(t), paths.last());
        earlier.len() as int
    }
}

/// One more hit changes nothing about the entries of those before.
pub proof fn lemma_hit_order(t: Tree, paths: Seq<Seq<u8>>, path: Seq<u8>)
    ensures
        ({
            let before = crate::listing::hit_entries(t, paths);
            let after = crate::listing::hit_entries(t, paths.push(path));
            after == before || (after.len() == before.len() + 1 && after.drop_last() == before)
        }),
{
    assert(paths.push(path).drop_last() =~= paths);
    let before = crate::listing::hit_entries(t, paths);
    let after = crate::listing::hit_entries(t, paths.push(path));
    if after != before {
        assert(after.drop_last() =~= before);
    }
}

/// The first entry with a path is one of the entries and has the path; there is
/// one where any entry has it.
proof fn lemma_first_found(ts: Seq<Tree>, path: Seq<u8>)
    ensures
        crate::tree::first_at(ts, path) matches Some(t) ==> ts.contains(t) && crate::paths::parts(
            t.path,
        ) == crate::paths::parts(path),
        crate::tree::first_at(ts, path) is None ==> forall|n: int|
            0 <= n < ts.len() ==> crate::paths::parts((#[trigger] ts[n]).path)
                != crate::paths::parts(path),
    decreases ts.len(),
{
    if ts.len() > 0 {
        let rest = ts.drop_first();
        lemma_first_found(rest, path);
        if crate::paths::parts(ts[0].path) == crate::paths::parts(path) {
            assert(ts.contains(ts[0]));
        } else {
            if let Some(t) = crate::tree::first_at(rest, path) {
                let k = choose|k: int| 0 <= k < rest.len() && rest[k] == t;
                assert(ts[k + 1] == t);
            } else {
                assert forall|n: int| 0 <= n < ts.len() implies crate::paths::parts(
                    (#[trigger] ts[n]).path,
                ) != crate::paths::parts(path) by {
                    if n > 0 {
                        assert(rest[n - 1] == ts[n]);
                    }
                }
            }
        }
    }
}

/// Whether the order of a list of children tells two entries apart in nothing.
pub open spec fn same_place(sort: SortKey, x: Tree, y: Tree) -> bool {
    x.size == y.size && crate::text::lowercase(x.name) == crate::text::lowercase(y.name) && (sort
        == SortKey::Kind ==> x.kind == y.kind)
}

/// Children that the order does not tell apart stay in the order in which they
/// are.
pub proof fn lemma_listed_stable(t: Tree, sort: SortKey, filter: Seq<char>, y: Tree)
    ensures
        ({
            let text = crate::text::trimmed(filter);
            let alike = |x: Tree| same_place(sort, x, y);
            crate::children::listed_children(t, sort, false, filter).filter(alike)
                == t.children.filter(|x: Tree| wanted_by(x, text)).filter(alike)
        }),
{
    let text = crate::text::trimmed(filter);
    let low = crate::text::lowercase(text);
    let alike = |x: Tree| same_place(sort, x, y);
    let f = |x: Tree| wanted_by(x, text);
    let g = |x: Tree| crate::children::matches_filter(x, low);
    let le = crate::children::listing(sort);
    let tl = |a: Seq<char>, b: Seq<char>| crate::text::text_le(a, b);
    crate::text::lemma_text_le_total();
    assert forall|x: Tree| #[trigger] f(x) == g(x) by {
        lemma_no_text(x, text);
    }
    assert(f =~= g);
    let ranks = crate::order::ranks_as(y, le);
    assert forall|x: Tree| #[trigger] ranks(x) == alike(x) by {
        let a = crate::text::lowercase(x.name);
        let b = crate::text::lowercase(y.name);
        assert(tl(a, b) && tl(b, a) ==> a == b);
        assert(tl(a, a));
        if x.kind != y.kind {
            assert(kind_not_behind(x.kind, y.kind) ==> !kind_not_behind(y.kind, x.kind));
        }
    }
    assert(ranks =~= alike);
    crate::children::lemma_listing_ranking(sort);
    crate::order::lemma_stable_sorted(crate::children::chosen(t.children, low), le);
}

/// In the list of all entries by size, those that the order does not tell apart
/// stay in the order of the tree.
pub proof fn lemma_printed_stable(t: Tree, filter: Seq<char>, y: Tree)
    ensures
        ({
            let alike = |x: Tree|
                x.size == y.size && crate::paths::shown(x.path) == crate::paths::shown(y.path);
            crate::listing::printed_descendants(t, SortKey::Size, false, filter).filter(alike)
                == crate::tree::preorder_all(t.children).filter(
                |x: Tree| wanted_by(x, filter),
            ).filter(alike)
        }),
{
    let low = crate::text::lowercase(filter);
    let alike = |x: Tree|
        x.size == y.size && crate::paths::shown(x.path) == crate::paths::shown(y.path);
    let f = |x: Tree| wanted_by(x, filter);
    let g = |x: Tree| crate::children::matches_filter(x, low);
    let le = crate::listing::printing(SortKey::Size);
    let tl = |a: Seq<char>, b: Seq<char>| crate::text::text_le(a, b);
    crate::text::lemma_text_le_total();
    assert forall|x: Tree| #[trigger] f(x) == g(x) by {
        lemma_no_text(x, filter);
    }
    assert(f =~= g);
    let ranks = crate::order::ranks_as(y, le);
    assert forall|x: Tree| #[trigger] ranks(x) == alike(x) by {
        let a = crate::paths::shown(x.path);
        let b = crate::paths::shown(y.path);
        assert(tl(a, b) && tl(b, a) ==> a == b);
        assert(tl(a, a));
    }
    assert(ranks =~= alike);
    crate::listing::lemma_printing_ranking(SortKey::Size);
    crate::order::lemma_stable_sorted(
        crate::children::chosen(crate::tree::preorder_all(t.children), low),
        le,
    );
}

/// In the list of all entries by name or by kind, those that the order does not
/// tell apart stay in the order of the tree.
pub proof fn lemma_printed_ties(t: Tree, filter: Seq<char>, y: Tree)
    ensures
        ({
            let alike = |x: Tree|
                x.size == y.size && crate::text::lowercase(x.name) == crate::text::lowercase(
                    y.name,
                );
            crate::listing::printed_descendants(t, SortKey::Name, false, filter).filter(alike)
                == crate::tree::preorder_all(t.children).filter(
                |x: Tree| wanted_by(x, filter),
            ).filter(alike)
        }),
        ({
            let alike = |x: Tree| x.size == y.size && x.kind == y.kind;
            crate::listing::printed_descendants(t, SortKey::Kind, false, filter).filter(alike)
                == crate::tree::preorder_all(t.children).filter(
                |x: Tree| wanted_by(x, filter),
            ).filter(alike)
        }),
{
    let low = crate::text::lowercase(filter);
    let named = |x: Tree|
        x.size == y.size && crate::text::lowercase(x.name) == crate::text::lowercase(y.name);
    let kinds = |x: Tree| x.size == y.size && x.kind == y.kind;
    let f = |x: Tree| wanted_by(x, filter);
    let g = |x: Tree| crate::children::matches_filter(x, low);
    let all = crate::children::chosen(crate::tree::preorder_all(t.children), low);
    let tl = |a: Seq<char>, b: Seq<char>| crate::text::text_le(a, b);
    crate::text::lemma_text_le_total();
    assert forall|x: Tree| #[trigger] f(x) == g(x) by {
        lemma_no_text(x, filter);
    }
    assert(f =~= g);
    let by_name = crate::order::ranks_as(y, crate::listing::printing(SortKey::Name));
    assert forall|x: Tree| #[trigger] by_name(x) == named(x) by {
        let a = crate::text::lowercase(x.name);
        let b = crate::text::lowercase(y.name);
        assert(tl(a, b) && tl(b, a) ==> a == b);
    }
    assert(by_name =~= named);
    let by_kind = crate::order::ranks_as(y, crate::listing::printing(SortKey::Kind));
    assert forall|x: Tree| #[trigger] by_kind(x) == kinds(x) by {
        let a = crate::listing::word_of_kind(x.kind);
        let b = crate::listing::word_of_kind(y.kind);
        assert(tl(a, b) && tl(b, a) ==> a == b);
        lemma_words_apart(x.kind, y.kind);
    }
    assert(by_kind =~= kinds);
    crate::listing::lemma_printing_ranking(SortKey::Name);
    crate::listing::lemma_printing_ranking(SortKey::Kind);
    crate::order::lemma_stable_sorted(all, crate::listing::printing(SortKey::Name));
    crate::order::lemma_stable_sorted(all, crate::listing::printing(SortKey::Kind));
}

} // verus!
