//! The printed list of entries: its heading, its rows and their order.

use vstd::prelude::*;

use crate::children::{entry_matches, sorted_children, SortKey};
use crate::order::{ranked_positions, Ranked};
use crate::search::SearchHit;
use crate::size::human_size;
use crate::text::{append_decimal, append_left_aligned, append_right_aligned, text_at_most};
use crate::tree::{find_by_path, flatten, EntryKind, EntryNode};
#[allow(unused_imports)]
use crate::tree::Tree;

verus! {

/// What is to be printed.
#[derive(Debug)]
pub struct ListRequest {
    pub sort: SortKey,
    pub reversed: bool,
    /// Only entries with this text in their names or paths are wanted.
    pub filter: Option<String>,
    /// How many entries are printed at most.
    pub limit: usize,
    /// Whether all entries below the root are wanted, or its children only.
    pub all: bool,
}

/// The word for a kind.
pub open spec fn word_of_kind(kind: EntryKind) -> Seq<char> {
    match kind {
        EntryKind::Directory => "directory"@,
        EntryKind::File => "file"@,
        EntryKind::Symlink => "symlink"@,
        EntryKind::Other => "other"@,
        EntryKind::Error => "error"@,
    }
}

/// The word for a kind.
pub fn kind_word(kind: EntryKind) -> (res: &'static str)
    ensures
        res@ == word_of_kind(kind),
{
    match kind {
        EntryKind::Directory => "directory",
        EntryKind::File => "file",
        EntryKind::Symlink => "symlink",
        EntryKind::Other => "other",
        EntryKind::Error => "error",
    }
}

/// A count without one, where there is one to leave out.
pub open spec fn without_one(n: u64) -> u64 {
    if n == 0 {
        0
    } else {
        (n - 1) as u64
    }
}

/// The counts of a scanned tree in one line. The root itself is not counted
/// as a directory.
pub open spec fn summary_of(t: Tree) -> Seq<char> {
    crate::size::human(t.size) + "  "@ + crate::text::decimal(t.file_count as nat) + " files  "@
        + crate::text::decimal(without_one(t.dir_count) as nat) + " dirs  "@
        + crate::text::decimal(t.error_count as nat) + " errors"@
}

/// A row of the list: three columns, the first two of fixed width.
pub open spec fn columns(size: Seq<char>, kind: Seq<char>, path: Seq<char>) -> Seq<char> {
    crate::text::right_aligned(size, 10) + "  "@ + crate::text::left_aligned(kind, 7) + "  "@
        + path
}

/// The row of an entry.
pub open spec fn row_of(t: Tree) -> Seq<char> {
    columns(crate::size::human(t.size), word_of_kind(t.kind), crate::paths::shown(t.path))
}

/// What is printed above the rows.
pub open spec fn heading_of(t: Tree) -> Seq<Seq<char>> {
    seq![
        summary_of(t),
        crate::paths::shown(t.path),
        Seq::empty(),
        columns("Size"@, "Kind"@, "Path"@),
    ]
}

/// Whether an entry is printed before another or ranks as high, among all
/// entries of a tree.
pub open spec fn printed_before(sort: SortKey, a: Tree, b: Tree) -> bool {
    match sort {
        SortKey::Size => a.size > b.size || (a.size == b.size && crate::text::text_le(
            crate::paths::shown(a.path),
            crate::paths::shown(b.path),
        )),
        SortKey::Name => crate::children::name_first(a, b),
        SortKey::Kind => {
            let x = word_of_kind(a.kind);
            let y = word_of_kind(b.kind);
            if x == y {
                a.size >= b.size
            } else {
                crate::text::text_le(x, y)
            }
        },
    }
}

/// The relation that all entries of a tree are sorted by.
pub open spec fn printing(sort: SortKey) -> spec_fn(Tree, Tree) -> bool {
    |a: Tree, b: Tree| printed_before(sort, a, b)
}

/// All entries below the root of a tree, as they are printed.
pub open spec fn printed_descendants(
    t: Tree,
    sort: SortKey,
    reversed: bool,
    filter: Seq<char>,
) -> Seq<Tree> {
    let wanted = crate::text::lowercase(filter);
    let kept = crate::children::chosen(crate::tree::preorder_all(t.children), wanted);
    let sorted = crate::order::stable_sorted(kept, printing(sort));
    if reversed {
        sorted.reverse()
    } else {
        sorted
    }
}

/// At most `limit` entries.
pub open spec fn first_entries(ts: Seq<Tree>, limit: usize) -> Seq<Tree> {
    if ts.len() <= limit {
        ts
    } else {
        ts.take(limit as int)
    }
}

/// The text that is filtered by; none where no filter was given.
pub open spec fn filter_text(filter: Option<String>) -> Seq<char> {
    match filter {
        Some(text) => text@,
        None => Seq::empty(),
    }
}

/// The text that a request filters by.
pub open spec fn filter_of(request: ListRequest) -> Seq<char> {
    filter_text(request.filter)
}

/// The entries that a request is answered with.
pub open spec fn requested(t: Tree, request: ListRequest) -> Seq<Tree> {
    let all = if request.all {
        printed_descendants(t, request.sort, request.reversed, filter_of(request))
    } else {
        crate::children::listed_children(t, request.sort, request.reversed, filter_of(request))
    };
    first_entries(all, request.limit)
}

/// The rows of entries.
pub open spec fn rows_of(ts: Seq<Tree>) -> Seq<Seq<char>> {
    ts.map_values(|t: Tree| row_of(t))
}

/// The entries of a tree that search hits stand for.
pub open spec fn hit_entries(t: Tree, paths: Seq<Seq<u8>>) -> Seq<Tree>
    decreases paths.len(),
{
    if paths.len() == 0 {
        Seq::empty()
    } else {
        let earlier = hit_entries(t, paths.drop_last());
        match crate::tree::first_at(crate::tree::preorder(t), paths.last()) {
            Some(entry) => earlier.push(entry),
            None => earlier,
        }
    }
}

/// The place of a kind among the kinds by their words.
spec fn word_rank(kind: EntryKind) -> u8 {
    match kind {
        EntryKind::Directory => 0,
        EntryKind::Error => 1,
        EntryKind::File => 2,
        EntryKind::Other => 3,
        EntryKind::Symlink => 4,
    }
}

/// The words for kinds are in the order of their places.
proof fn lemma_word_rank(a: EntryKind, b: EntryKind)
    ensures
        (word_of_kind(a) == word_of_kind(b)) == (word_rank(a) == word_rank(b)),
        crate::text::text_le(word_of_kind(a), word_of_kind(b)) == (word_rank(a) <= word_rank(b)),
{
    reveal_strlit("directory");
    reveal_strlit("error");
    reveal_strlit("file");
    reveal_strlit("other");
    reveal_strlit("symlink");
    let x = word_of_kind(a);
    let y = word_of_kind(b);
    let le = |p: char, q: char| p <= q;
    crate::text::lemma_text_le_total();
    let tl = |p: Seq<char>, q: Seq<char>| crate::text::text_le(p, q);
    assert(x.len() > 0 && y.len() > 0);
    if a == b {
        assert(tl(x, x));
    } else {
        assert(x[0] != y[0]);
        crate::order::lemma_lex_common_prefix(x, y, 0, le);
    }
}

fn rank_of_word(kind: EntryKind) -> (res: u8)
    ensures
        res == word_rank(kind),
{
    match kind {
        EntryKind::Directory => 0,
        EntryKind::Error => 1,
        EntryKind::File => 2,
        EntryKind::Other => 3,
        EntryKind::Symlink => 4,
    }
}

/// Any two entries are ranked, whatever they are sorted by.
pub proof fn lemma_printing_ranking(sort: SortKey)
    ensures
        crate::order::ranking(printing(sort)),
{
    let le = printing(sort);
    let tl = |a: Seq<char>, b: Seq<char>| crate::text::text_le(a, b);
    crate::text::lemma_text_le_total();
    assert forall|a: Tree, b: Tree, c: Tree| #[trigger]
        le(a, b) && #[trigger] le(b, c) implies le(a, c) by {
        let (x, y, z) = match sort {
            SortKey::Size => (
                crate::paths::shown(a.path),
                crate::paths::shown(b.path),
                crate::paths::shown(c.path),
            ),
            SortKey::Name => (
                crate::text::lowercase(a.name),
                crate::text::lowercase(b.name),
                crate::text::lowercase(c.name),
            ),
            SortKey::Kind => (word_of_kind(a.kind), word_of_kind(b.kind), word_of_kind(c.kind)),
        };
        assert(tl(x, y) && tl(y, z) ==> tl(x, z));
        assert(tl(x, y) && tl(y, x) ==> x == y);
        assert(tl(z, y) && tl(y, z) ==> z == y);
    }
    assert forall|a: Tree, b: Tree| #[trigger] le(a, b) || #[trigger] le(b, a) by {
        let (x, y) = match sort {
            SortKey::Size => (crate::paths::shown(a.path), crate::paths::shown(b.path)),
            SortKey::Name => (crate::text::lowercase(a.name), crate::text::lowercase(b.name)),
            SortKey::Kind => (word_of_kind(a.kind), word_of_kind(b.kind)),
        };
        assert(tl(x, y) || tl(y, x));
    }
}

/// A printed list holds the entries below the root that the filter chooses,
/// each as often as there are such entries, and has them in the order asked
/// for.
pub proof fn lemma_printed_descendants(t: Tree, sort: SortKey, reversed: bool, filter: Seq<char>)
    ensures
        ({
            let wanted = crate::text::lowercase(filter);
            let all = crate::tree::preorder_all(t.children);
            let printed = printed_descendants(t, sort, reversed, filter);
            &&& printed.to_multiset() == crate::children::chosen(all, wanted).to_multiset()
            &&& forall|x: Tree| #[trigger]
                printed.contains(x) <==> all.contains(x) && crate::children::matches_filter(
                    x,
                    wanted,
                )
            &&& forall|i: int, j: int|
                0 <= i < j < printed.len() ==> if reversed {
                    printed_before(sort, #[trigger] printed[j], #[trigger] printed[i])
                } else {
                    printed_before(sort, printed[i], printed[j])
                }
        }),
{
    broadcast use vstd::seq_lib::group_to_multiset_ensures;

    let wanted = crate::text::lowercase(filter);
    let f = |x: Tree| crate::children::matches_filter(x, wanted);
    let all = crate::tree::preorder_all(t.children);
    let kept = crate::children::chosen(all, wanted);
    let le = printing(sort);
    let sorted = crate::order::stable_sorted(kept, le);
    lemma_printing_ranking(sort);
    crate::order::lemma_stable_sorted(kept, le);
    let printed = printed_descendants(t, sort, reversed, filter);
    sorted.lemma_reverse_to_multiset();
    assert forall|x: Tree| #[trigger] printed.contains(x) <==> all.contains(x)
        && crate::children::matches_filter(x, wanted) by {
        assert(printed.contains(x) <==> printed.to_multiset().count(x) > 0);
        assert(kept.contains(x) <==> kept.to_multiset().count(x) > 0);
        if kept.contains(x) {
            all.lemma_filter_contains_rev(f, x);
            let k = choose|k: int| 0 <= k < kept.len() && kept[k] == x;
            all.lemma_filter_pred(f, k);
        }
        if all.contains(x) && crate::children::matches_filter(x, wanted) {
            let k = choose|k: int| 0 <= k < all.len() && all[k] == x;
            all.lemma_filter_contains(f, k);
        }
    }
    assert forall|i: int, j: int| 0 <= i < j < printed.len() implies if reversed {
        printed_before(sort, #[trigger] printed[j], #[trigger] printed[i])
    } else {
        printed_before(sort, printed[i], printed[j])
    } by {
        if reversed {
            let n = sorted.len() as int;
            assert(printed[i] == sorted[n - 1 - i] && printed[j] == sorted[n - 1 - j]);
            assert(le(sorted[n - 1 - j], sorted[n - 1 - i]));
        } else {
            assert(le(sorted[i], sorted[j]));
        }
    }
}

/// What entries are sorted by, taken once for each.
struct PrintKeys {
    sort: SortKey,
    sizes: Vec<u64>,
    kinds: Vec<EntryKind>,
    texts: Vec<String>,
    trees: Ghost<Seq<Tree>>,
}

/// The text that an entry is sorted by.
spec fn sort_text(sort: SortKey, t: Tree) -> Seq<char> {
    match sort {
        SortKey::Size => crate::paths::shown(t.path),
        SortKey::Name => crate::text::lowercase(t.name),
        SortKey::Kind => Seq::empty(),
    }
}

impl PrintKeys {
    spec fn holds(&self) -> bool {
        let n = self.trees@.len();
        &&& self.sizes@.len() == n
        &&& self.kinds@.len() == n
        &&& self.texts@.len() == n
        &&& forall|i: int|
            0 <= i < n ==> #[trigger] self.sizes@[i] == self.trees@[i].size && self.kinds@[i]
                == self.trees@[i].kind && self.texts@[i]@ == sort_text(self.sort, self.trees@[i])
    }

    fn add_entry(&mut self, node: &EntryNode)
        requires
            old(self).holds(),
        ensures
            final(self).holds(),
            final(self).sort == old(self).sort,
            final(self).trees@ == old(self).trees@.push(node@),
    {
        self.sizes.push(node.size);
        self.kinds.push(node.kind);
        let text = match self.sort {
            SortKey::Size => node.path.display(),
            SortKey::Name => node.name.to_lowercase(),
            SortKey::Kind => String::new(),
        };
        self.texts.push(text);
        self.trees = Ghost(self.trees@.push(node@));
        assert forall|i: int| 0 <= i < self.trees@.len() implies #[trigger] self.sizes@[i]
            == self.trees@[i].size && self.kinds@[i] == self.trees@[i].kind && self.texts@[i]@
            == sort_text(self.sort, self.trees@[i]) by {
            if i < old(self).trees@.len() {
                assert(old(self).sizes@[i] == old(self).trees@[i].size);
            }
        }
    }
}

impl Ranked for PrintKeys {
    closed spec fn count(&self) -> nat {
        if self.holds() {
            self.trees@.len()
        } else {
            0
        }
    }

    closed spec fn at_most(&self, i: int, j: int) -> bool {
        printed_before(self.sort, self.trees@[i], self.trees@[j])
    }

    proof fn lemma_ranking(&self) {
        let le = |i: int, j: int| self.at_most(i, j);
        let tl = printing(self.sort);
        lemma_printing_ranking(self.sort);
        assert forall|a: int, b: int, c: int| #[trigger]
            le(a, b) && #[trigger] le(b, c) implies le(a, c) by {
            assert(tl(self.trees@[a], self.trees@[b]) && tl(self.trees@[b], self.trees@[c]));
            assert(tl(self.trees@[a], self.trees@[c]));
        }
        assert forall|a: int, b: int| #[trigger] le(a, b) || #[trigger] le(b, a) by {
            assert(tl(self.trees@[a], self.trees@[b]) || tl(self.trees@[b], self.trees@[a]));
        }
    }

    fn ranks_at_most(&self, i: usize, j: usize) -> (res: bool) {
        proof {
            assert(self.sizes@[i as int] == self.trees@[i as int].size);
            assert(self.sizes@[j as int] == self.trees@[j as int].size);
            lemma_word_rank(self.trees@[i as int].kind, self.trees@[j as int].kind);
        }
        let a: u64 = self.sizes[i];
        let b: u64 = self.sizes[j];
        match self.sort {
            SortKey::Size => a > b || (a == b && text_at_most(
                self.texts[i].as_str(),
                self.texts[j].as_str(),
            )),
            SortKey::Name => {
                if self.texts[i] == self.texts[j] {
                    a >= b
                } else {
                    text_at_most(self.texts[i].as_str(), self.texts[j].as_str())
                }
            },
            SortKey::Kind => {
                let p = rank_of_word(self.kinds[i]);
                let q = rank_of_word(self.kinds[j]);
                p < q || (p == q && a >= b)
            },
        }
    }
}

/// All entries below the root of a tree, as they are printed.
fn printed_list<'a>(root: &'a EntryNode, sort: SortKey, reversed: bool, filter: &str) -> (res: Vec<
    &'a EntryNode,
>)
    ensures
        crate::tree::borrowed(res@) == printed_descendants(root@, sort, reversed, filter@),
{
    let wanted = filter.to_lowercase();
    let ghost f = |t: Tree| crate::children::matches_filter(t, wanted@);
    let ghost all = crate::tree::preorder_all(root@.children);
    let mut entries: Vec<&'a EntryNode> = Vec::new();
    flatten(root, &mut entries);
    proof {
        let list = crate::tree::borrowed(entries@);
        assert(list =~= seq![root@] + all);
        assert(list.len() == entries@.len());
        assert forall|k: int| 0 <= k < all.len() implies (#[trigger] entries@[k + 1])@ == all[k] by {
            assert(list[k + 1] == entries@[k + 1]@);
        }
    }
    let mut kept: Vec<&'a EntryNode> = Vec::new();
    let mut keys = PrintKeys {
        sort,
        sizes: Vec::new(),
        kinds: Vec::new(),
        texts: Vec::new(),
        trees: Ghost(Seq::empty()),
    };
    let mut i: usize = 1;
    proof {
        reveal(Seq::filter);
        assert(all.take(0).filter(f) =~= Seq::<Tree>::empty());
        assert(crate::tree::borrowed(kept@) =~= Seq::<Tree>::empty());
    }
    while i < entries.len()
        invariant
            entries@.len() == all.len() + 1,
            forall|k: int| 0 <= k < all.len() ==> (#[trigger] entries@[k + 1])@ == all[k],
            f == (|t: Tree| crate::children::matches_filter(t, wanted@)),
            1 <= i <= entries@.len(),
            keys.holds(),
            keys.sort == sort,
            keys.trees@ == all.take(i - 1).filter(f),
            crate::tree::borrowed(kept@) == keys.trees@,
        decreases entries@.len() - i,
    {
        let entry = entries[i];
        proof {
            reveal(Seq::filter);
            assert(entries@[(i - 1) + 1]@ == all[i - 1]);
            assert(all.take(i as int).drop_last() =~= all.take(i - 1));
            assert(all.take(i as int).last() == entry@);
        }
        if entry_matches(entry, wanted.as_str()) {
            let ghost before = kept@;
            kept.push(entry);
            keys.add_entry(entry);
            assert(crate::tree::borrowed(kept@) =~= crate::tree::borrowed(before).push(entry@));
        }
        i = i + 1;
    }
    assert(all.take(i - 1) =~= all);
    assert(crate::tree::borrowed(kept@).len() == kept@.len());
    let order = ranked_positions(&keys, kept.len());
    let ghost sorted = crate::order::stable_sorted(keys.trees@, printing(sort));
    proof {
        let g = |i: int| keys.trees@[i];
        let n = crate::order::numbers(0, keys.trees@.len() as int);
        let le = printing(sort);
        assert(n.map_values(g) =~= keys.trees@);
        crate::order::lemma_stable_sorted_map(n, g, le);
        assert((|i: int, j: int| le(g(i), g(j))) =~= (|i: int, j: int| keys.at_most(i, j)));
        assert forall|k: int| 0 <= k < order@.len() implies #[trigger] sorted[k]
            == keys.trees@[order@[k] as int] by {
            assert(crate::order::positions(order@)[k] == order@[k] as int);
        }
        assert(sorted.len() == order@.len());
    }
    let count = order.len();
    let mut out: Vec<&'a EntryNode> = Vec::with_capacity(count);
    let mut n: usize = 0;
    while n < count
        invariant
            count == order@.len(),
            count == kept@.len(),
            forall|k: int| 0 <= k < order@.len() ==> #[trigger] order@[k] < kept@.len(),
            crate::tree::borrowed(kept@) == keys.trees@,
            sorted.len() == count,
            forall|k: int|
                0 <= k < order@.len() ==> #[trigger] sorted[k] == keys.trees@[order@[k] as int],
            n <= count,
            out@.len() == n,
            forall|k: int|
                0 <= k < n ==> (#[trigger] out@[k])@ == sorted[if reversed {
                    count - 1 - k
                } else {
                    k
                }],
        decreases count - n,
    {
        let at: usize = if reversed {
            order[count - 1 - n]
        } else {
            order[n]
        };
        assert(crate::tree::borrowed(kept@)[at as int] == kept@[at as int]@);
        out.push(kept[at]);
        n = n + 1;
    }
    proof {
        if reversed {
            assert(crate::tree::borrowed(out@) =~= sorted.reverse());
        } else {
            assert(crate::tree::borrowed(out@) =~= sorted);
        }
    }
    out
}

fn append_columns(out: &mut String, size: &str, kind: &str, path: &str)
    requires
        old(out)@.len() == 0,
    ensures
        final(out)@ == columns(size@, kind@, path@),
{
    append_right_aligned(out, size, 10);
    assert(out@ =~= crate::text::right_aligned(size@, 10));
    out.append("  ");
    append_left_aligned(out, kind, 7);
    out.append("  ");
    out.append(path);
}

/// The row of an entry.
pub fn entry_row(node: &EntryNode) -> (res: String)
    ensures
        res@ == row_of(node@),
{
    let mut out = String::new();
    append_columns(
        &mut out,
        human_size(node.size).as_str(),
        kind_word(node.kind),
        node.path.display().as_str(),
    );
    out
}

/// What is printed above the rows.
pub fn heading_lines(root: &EntryNode) -> (res: Vec<String>)
    ensures
        crate::text::texts(res@) == heading_of(root@),
{
    let mut summary = human_size(root.size);
    summary.append("  ");
    append_decimal(&mut summary, root.file_count);
    summary.append(" files  ");
    append_decimal(&mut summary, root.dir_count.saturating_sub(1));
    summary.append(" dirs  ");
    append_decimal(&mut summary, root.error_count);
    summary.append(" errors");
    let mut names = String::new();
    append_columns(&mut names, "Size", "Kind", "Path");
    let mut out: Vec<String> = Vec::new();
    out.push(summary);
    out.push(root.path.display());
    out.push(String::new());
    out.push(names);
    assert(crate::text::texts(out@) =~= heading_of(root@));
    out
}

/// The rows that answer a request.
pub fn list_rows(root: &EntryNode, request: &ListRequest) -> (res: Vec<String>)
    ensures
        crate::text::texts(res@) == rows_of(requested(root@, *request)),
{
    let empty = String::new();
    let filter: &str = match &request.filter {
        Some(text) => text.as_str(),
        None => empty.as_str(),
    };
    let entries = if request.all {
        printed_list(root, request.sort, request.reversed, filter)
    } else {
        sorted_children(root, request.sort, request.reversed, filter)
    };
    let ghost all = crate::tree::borrowed(entries@);
    let ghost wanted = requested(root@, *request);
    let mut out: Vec<String> = Vec::new();
    let mut i: usize = 0;
    while i < entries.len() && i < request.limit
        invariant
            all == crate::tree::borrowed(entries@),
            i <= entries@.len(),
            i <= request.limit,
            out@.len() == i,
            forall|k: int| 0 <= k < i ==> (#[trigger] out@[k])@ == row_of(all[k]),
        decreases entries@.len() - i,
    {
        assert(all[i as int] == entries@[i as int]@);
        out.push(entry_row(entries[i]));
        i = i + 1;
    }
    assert(crate::text::texts(out@) =~= rows_of(wanted));
    out
}

/// The rows of the entries that search hits stand for, in the order of the
/// hits, as far as they have the filter's text in their names or paths. The
/// search has ranked the hits and cut them to its limit before: no sort order
/// applies to them, and where the filter drops some, none from beyond the limit
/// take their places.
pub fn search_rows(root: &EntryNode, hits: &Vec<SearchHit>, filter: &Option<String>) -> (res: Vec<
    String,
>)
    ensures
        crate::text::texts(res@) == rows_of(
            crate::children::chosen(
                hit_entries(root@, crate::search::hit_paths(hits@)),
                crate::text::lowercase(filter_text(*filter)),
            ),
        ),
{
    let empty = String::new();
    let wanted = match filter {
        Some(text) => text.to_lowercase(),
        None => empty.to_lowercase(),
    };
    let ghost f = |t: Tree| crate::children::matches_filter(t, wanted@);
    let ghost paths = crate::search::hit_paths(hits@);
    let mut out: Vec<String> = Vec::new();
    let mut i: usize = 0;
    proof {
        reveal(Seq::filter);
        assert(paths.take(0) =~= Seq::<Seq<u8>>::empty());
        assert(hit_entries(root@, paths.take(0)).filter(f) =~= Seq::<Tree>::empty());
        assert(crate::text::texts(out@) =~= rows_of(
            hit_entries(root@, paths.take(0)).filter(f),
        ));
    }
    while i < hits.len()
        invariant
            f == (|t: Tree| crate::children::matches_filter(t, wanted@)),
            paths == crate::search::hit_paths(hits@),
            i <= hits@.len(),
            crate::text::texts(out@) == rows_of(
                hit_entries(root@, paths.take(i as int)).filter(f),
            ),
        decreases hits@.len() - i,
    {
        let ghost earlier = hit_entries(root@, paths.take(i as int));
        proof {
            assert(paths.take(i + 1).drop_last() =~= paths.take(i as int));
            assert(paths.take(i + 1).last() == hits@[i as int].path@);
        }
        if let Some(entry) = find_by_path(root, &hits[i].path) {
            proof {
                reveal(Seq::filter);
                assert(earlier.push(entry@).drop_last() =~= earlier);
            }
            if entry_matches(entry, wanted.as_str()) {
                let ghost before = out@;
                let row = entry_row(entry);
                out.push(row);
                proof {
                    let kept = earlier.filter(f);
                    assert(crate::text::texts(out@) =~= crate::text::texts(before).push(row@));
                    assert(rows_of(kept.push(entry@)) =~= rows_of(kept).push(row@));
                }
            }
        }
        i = i + 1;
    }
    assert(paths.take(i as int) =~= paths);
    out
}

} // verus!
