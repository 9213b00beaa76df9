//! Searching a scanned tree for names and paths.

use vstd::prelude::*;

use crate::order::{ranked_positions, Ranked};
use crate::paths::{parts_at_most, EntryPath};
use crate::text::{chars_of, contains_text, split_words};
use crate::tree::{flatten, EntryNode};
#[allow(unused_imports)]
use crate::tree::Tree;

verus! {

/// An entry that a search found.
#[derive(Debug)]
pub struct SearchHit {
    pub path: EntryPath,
}

/// What a search found: the first entries, and how many there are.
#[derive(Debug)]
pub struct SearchHits {
    pub hits: Vec<SearchHit>,
    pub total_matched: usize,
}

/// The paths of search hits.
pub open spec fn hit_paths(v: Seq<SearchHit>) -> Seq<Seq<u8>> {
    v.map_values(|h: SearchHit| h.path@)
}

/// The words of a query, lowercase and without empty ones.
pub open spec fn query_tokens(query: Seq<char>) -> Seq<Seq<char>> {
    crate::text::words(query).map_values(|w: Seq<char>| crate::text::lowercase(w)).filter(
        |w: Seq<char>| w.len() > 0,
    )
}

/// Whether a query is about whole paths: it has a separator in it.
pub open spec fn about_paths(query: Seq<char>) -> bool {
    query.contains('/') || query.contains('\\')
}

/// Whether an entry has all words of a query in its name, or in its path
/// where the query is about paths. A query without words matches nothing.
pub open spec fn entry_found(t: Tree, query: Seq<char>) -> bool {
    let tokens = query_tokens(query);
    let hay = if about_paths(query) {
        crate::text::lowercase(crate::paths::shown(t.path))
    } else {
        crate::text::lowercase(t.name)
    };
    &&& tokens.len() > 0
    &&& forall|i: int|
        0 <= i < tokens.len() ==> crate::text::has_infix(hay, #[trigger] tokens[i])
}

/// The entries below the root of a tree that a query finds, in the order of
/// the tree.
pub open spec fn entries_found(t: Tree, query: Seq<char>) -> Seq<Tree> {
    crate::tree::preorder_all(t.children).filter(|n: Tree| entry_found(n, query))
}

/// The paths of entries.
pub open spec fn tree_paths(ts: Seq<Tree>) -> Seq<Seq<u8>> {
    ts.map_values(|t: Tree| t.path)
}

/// Whether the path at `i` occurs in no earlier place.
pub open spec fn occurs_first(s: Seq<Seq<u8>>, i: int) -> bool {
    forall|j: int|
        0 <= j < i ==> crate::paths::parts(#[trigger] s[j]) != crate::paths::parts(s[i])
}

/// Paths without those that occurred before.
pub open spec fn first_occurrences(s: Seq<Seq<u8>>) -> Seq<Seq<u8>>
    decreases s.len(),
{
    if s.len() == 0 {
        s
    } else {
        let earlier = first_occurrences(s.drop_last());
        if occurs_first(s, s.len() - 1) {
            earlier.push(s.last())
        } else {
            earlier
        }
    }
}

/// The different paths that a query finds in a tree.
pub open spec fn paths_found(t: Tree, query: Seq<char>) -> Seq<Seq<u8>> {
    first_occurrences(tree_paths(entries_found(t, query)))
}

/// At most `limit` of several paths.
pub open spec fn at_most(s: Seq<Seq<u8>>, limit: usize) -> Seq<Seq<u8>> {
    if s.len() <= limit {
        s
    } else {
        s.take(limit as int)
    }
}

/// The words of a query, lowercase and without empty ones.
pub fn search_tokens(query: &str) -> (res: Vec<String>)
    ensures
        crate::text::texts(res@) == query_tokens(query@),
{
    let list = split_words(query);
    let ghost lower = |w: Seq<char>| crate::text::lowercase(w);
    let ghost kept = |w: Seq<char>| w.len() > 0;
    let ghost all = crate::text::words(query@).map_values(lower);
    let mut out: Vec<String> = Vec::new();
    let mut i: usize = 0;
    proof {
        reveal(Seq::filter);
        assert(all.take(0).filter(kept) =~= Seq::<Seq<char>>::empty());
        assert(crate::text::texts(out@) =~= Seq::<Seq<char>>::empty());
    }
    while i < list.len()
        invariant
            crate::text::texts(list@) == crate::text::words(query@),
            lower == (|w: Seq<char>| crate::text::lowercase(w)),
            kept == (|w: Seq<char>| w.len() > 0),
            all == crate::text::words(query@).map_values(lower),
            i <= list@.len(),
            crate::text::texts(out@) == all.take(i as int).filter(kept),
        decreases list@.len() - i,
    {
        let token = list[i].to_lowercase();
        proof {
            reveal(Seq::filter);
            assert(all.take(i + 1).drop_last() =~= all.take(i as int));
            assert(crate::text::texts(list@)[i as int] == list@[i as int]@);
            assert(all[i as int] == token@);
            assert(all.take(i + 1).last() == token@);
        }
        if !token.as_str().is_empty() {
            let ghost before = out@;
            out.push(token);
            assert(crate::text::texts(out@) =~= crate::text::texts(before).push(token@));
        }
        i = i + 1;
    }
    proof {
        assert(crate::text::texts(list@).len() == list@.len());
        assert(all.take(i as int) =~= all);
    }
    out
}

/// A query, prepared for many entries.
pub struct TreeQuery {
    tokens: Vec<String>,
    path_like: bool,
}

impl TreeQuery {
    /// Whether this is the given query.
    pub closed spec fn is_for(&self, query: Seq<char>) -> bool {
        &&& crate::text::texts(self.tokens@) == query_tokens(query)
        &&& self.path_like == about_paths(query)
    }

    /// Prepares a query.
    pub fn new(query: &str) -> (res: Self)
        ensures
            res.is_for(query@),
    {
        let chars = chars_of(query);
        let mut path_like: bool = false;
        let mut i: usize = 0;
        while i < chars.len()
            invariant
                chars@ == query@,
                i <= chars@.len(),
                path_like == exists|k: int|
                    0 <= k < i && (#[trigger] chars@[k] == '/' || chars@[k] == '\\'),
            decreases chars@.len() - i,
        {
            if chars[i] == '/' || chars[i] == '\\' {
                path_like = true;
            }
            i = i + 1;
        }
        proof {
            if path_like {
                let k = choose|k: int|
                    0 <= k < i && (#[trigger] chars@[k] == '/' || chars@[k] == '\\');
                assert(query@.contains(chars@[k]));
            }
        }
        TreeQuery { tokens: search_tokens(query), path_like }
    }
}

/// Whether a query finds an entry.
pub fn tree_entry_matches(node: &EntryNode, query: &TreeQuery) -> (res: bool)
    ensures
        forall|q: Seq<char>| #[trigger] query.is_for(q) ==> res == entry_found(node@, q),
{
    if query.tokens.len() == 0 {
        assert(crate::text::texts(query.tokens@).len() == 0);
        return false;
    }
    let hay = if query.path_like {
        node.path.display().to_lowercase()
    } else {
        node.name.to_lowercase()
    };
    let ghost tokens = crate::text::texts(query.tokens@);
    let mut i: usize = 0;
    while i < query.tokens.len()
        invariant
            tokens == crate::text::texts(query.tokens@),
            hay@ == (if query.path_like {
                crate::text::lowercase(crate::paths::shown(node@.path))
            } else {
                crate::text::lowercase(node@.name)
            }),
            i <= query.tokens@.len(),
            forall|k: int| 0 <= k < i ==> crate::text::has_infix(hay@, #[trigger] tokens[k]),
        decreases query.tokens@.len() - i,
    {
        let ghost token = tokens[i as int];
        assert(token == query.tokens@[i as int]@);
        if !contains_text(hay.as_str(), query.tokens[i].as_str()) {
            return false;
        }
        i = i + 1;
    }
    true
}

struct PathOrder<'a> {
    paths: &'a Vec<&'a EntryPath>,
    parts: Vec<Vec<Vec<u8>>>,
}

impl<'a> PathOrder<'a> {
    spec fn holds(&self) -> bool {
        &&& self.parts@.len() == self.paths@.len()
        &&& forall|k: int|
            0 <= k < self.paths@.len() ==> crate::paths::byte_strings(#[trigger] self.parts@[k]@)
                == crate::paths::parts(self.paths@[k]@)
    }

    spec fn key(&self, i: int) -> Seq<Seq<u8>> {
        crate::paths::parts(self.paths@[i]@)
    }
}

impl<'a> Ranked for PathOrder<'a> {
    closed spec fn count(&self) -> nat {
        if self.holds() {
            self.paths@.len()
        } else {
            0
        }
    }

    closed spec fn at_most(&self, i: int, j: int) -> bool {
        crate::paths::parts_le(self.key(i), self.key(j))
    }

    proof fn lemma_ranking(&self) {
        let le = |i: int, j: int| self.at_most(i, j);
        let pl = |a: Seq<Seq<u8>>, b: Seq<Seq<u8>>| crate::paths::parts_le(a, b);
        crate::paths::lemma_parts_le_total();
        assert forall|a: int, b: int, c: int| #[trigger]
            le(a, b) && #[trigger] le(b, c) implies le(a, c) by {
            assert(pl(self.key(a), self.key(b)) && pl(self.key(b), self.key(c)));
            assert(pl(self.key(a), self.key(c)));
        }
        assert forall|a: int, b: int| #[trigger] le(a, b) || #[trigger] le(b, a) by {
            assert(pl(self.key(a), self.key(b)) || pl(self.key(b), self.key(a)));
        }
    }

    fn ranks_at_most(&self, i: usize, j: usize) -> (res: bool) {
        proof {
            assert(crate::paths::byte_strings(self.parts@[i as int]@) == self.key(i as int));
            assert(crate::paths::byte_strings(self.parts@[j as int]@) == self.key(j as int));
        }
        parts_at_most(&self.parts[i], &self.parts[j])
    }
}

/// The contents of borrowed paths.
pub open spec fn borrowed_paths(v: Seq<&EntryPath>) -> Seq<Seq<u8>> {
    v.map_values(|p: &EntryPath| p@)
}

/// Marks the paths that occur in no earlier place.
fn mark_first(paths: &Vec<&EntryPath>) -> (res: Vec<bool>)
    ensures
        res@.len() == paths@.len(),
        forall|i: int|
            0 <= i < res@.len() ==> #[trigger] res@[i] == occurs_first(borrowed_paths(paths@), i),
{
    let ghost s = borrowed_paths(paths@);
    let count = paths.len();
    let mut parts: Vec<Vec<Vec<u8>>> = Vec::with_capacity(count);
    let mut flags: Vec<bool> = Vec::with_capacity(count);
    let mut i: usize = 0;
    while i < count
        invariant
            count == paths@.len(),
            i <= count,
            parts@.len() == i,
            flags@.len() == i,
            forall|k: int|
                0 <= k < i ==> crate::paths::byte_strings(#[trigger] parts@[k]@)
                    == crate::paths::parts(paths@[k]@),
        decreases count - i,
    {
        parts.push(paths[i].parts());
        flags.push(true);
        i = i + 1;
    }
    let order = PathOrder { paths, parts };
    let sorted = ranked_positions(&order, count);
    let mut n: usize = 0;
    while n < count
        invariant
            count == paths@.len(),
            s == borrowed_paths(paths@),
            order.paths@ == paths@,
            order.holds(),
            sorted@.len() == count,
            flags@.len() == count,
            sorted@.no_duplicates(),
            forall|k: int| 0 <= k < sorted@.len() ==> #[trigger] sorted@[k] < count,
            forall|k: int, m: int|
                0 <= k < m < count ==> order.at_most(
                    #[trigger] sorted@[k] as int,
                    #[trigger] sorted@[m] as int,
                ) && (order.at_most(sorted@[m] as int, sorted@[k] as int) ==> sorted@[k]
                    < sorted@[m]),
            n <= count,
            forall|k: int|
                0 <= k < n ==> flags@[#[trigger] sorted@[k] as int] == occurs_first(
                    s,
                    sorted@[k] as int,
                ),
        decreases count - n,
    {
        let at = sorted[n];
        let first: bool = if n == 0 {
            true
        } else {
            let before = sorted[n - 1];
            !(order.ranks_at_most(before, at) && order.ranks_at_most(at, before))
        };
        proof {
            lemma_first_in_order(paths@, order, sorted@, n as int, first);
        }
        let ghost old_flags = flags@;
        flags.set(at, first);
        proof {
            assert forall|k: int| 0 <= k < n + 1 implies flags@[#[trigger] sorted@[k] as int]
                == occurs_first(s, sorted@[k] as int) by {
                if k < n {
                    assert(sorted@[k] != sorted@[n as int]);
                }
            }
        }
        n = n + 1;
    }
    proof {
        assert forall|i: int| 0 <= i < flags@.len() implies #[trigger] flags@[i] == occurs_first(
            s,
            i,
        ) by {
            crate::order::lemma_hits_all(sorted@, i as usize);
            let k = choose|k: int| 0 <= k < sorted@.len() && sorted@[k] == i;
            assert(flags@[sorted@[k] as int] == occurs_first(s, sorted@[k] as int));
        }
    }
    flags
}

proof fn lemma_first_in_order(
    paths: Seq<&EntryPath>,
    order: PathOrder,
    sorted: Seq<usize>,
    n: int,
    first: bool,
)
    requires
        order.paths@ == paths,
        order.holds(),
        sorted.len() == paths.len(),
        sorted.len() <= usize::MAX,
        sorted.no_duplicates(),
        forall|k: int| 0 <= k < sorted.len() ==> #[trigger] sorted[k] < paths.len(),
        forall|k: int, m: int|
            0 <= k < m < sorted.len() ==> order.at_most(
                #[trigger] sorted[k] as int,
                #[trigger] sorted[m] as int,
            ) && (order.at_most(sorted[m] as int, sorted[k] as int) ==> sorted[k] < sorted[m]),
        0 <= n < sorted.len(),
        first == (n == 0 || !(order.at_most(sorted[n - 1] as int, sorted[n] as int)
            && order.at_most(sorted[n] as int, sorted[n - 1] as int))),
    ensures
        first == occurs_first(borrowed_paths(paths), sorted[n] as int),
{
    let s = borrowed_paths(paths);
    let at = sorted[n] as int;
    let pl = |a: Seq<Seq<u8>>, b: Seq<Seq<u8>>| crate::paths::parts_le(a, b);
    crate::paths::lemma_parts_le_total();
    if !first {
        let before = sorted[n - 1] as int;
        assert(pl(order.key(before), order.key(at)) && pl(order.key(at), order.key(before)));
        assert(crate::paths::parts(s[before]) == crate::paths::parts(s[at]));
        assert(before < at);
    } else {
        assert forall|j: int| 0 <= j < at implies crate::paths::parts(#[trigger] s[j])
            != crate::paths::parts(s[at]) by {
            if crate::paths::parts(s[j]) == crate::paths::parts(s[at]) {
                crate::order::lemma_hits_all(sorted, j as usize);
                let m = choose|m: int| 0 <= m < sorted.len() && sorted[m] == j;
                assert(order.key(j) == order.key(at));
                assert(pl(order.key(j), order.key(at)));
                if m > n {
                    assert(order.at_most(sorted[m] as int, sorted[n] as int));
                    assert(sorted[n] < sorted[m]);
                }
                assert(m < n);
                let before = sorted[n - 1] as int;
                assert(order.at_most(sorted[n - 1] as int, sorted[n] as int));
                if m < n - 1 {
                    assert(order.at_most(sorted[m] as int, sorted[n - 1] as int));
                    assert(pl(order.key(at), order.key(before)));
                } else {
                    assert(pl(order.key(at), order.key(before)));
                }
            }
        }
    }
}

/// The first `limit` different paths among the given ones, and the number of
/// different ones.
fn distinct_hits(paths: &Vec<&EntryPath>, limit: usize) -> (res: (Vec<SearchHit>, usize))
    ensures
        hit_paths(res.0@) == at_most(first_occurrences(borrowed_paths(paths@)), limit),
        res.1 == first_occurrences(borrowed_paths(paths@)).len(),
{
    let flags = mark_first(paths);
    let ghost s = borrowed_paths(paths@);
    let mut hits: Vec<SearchHit> = Vec::new();
    let mut matched: usize = 0;
    let mut i: usize = 0;
    proof {
        assert(s.take(0) =~= Seq::<Seq<u8>>::empty());
        assert(hit_paths(hits@) =~= at_most(first_occurrences(s.take(0)), limit));
    }
    while i < paths.len()
        invariant
            s == borrowed_paths(paths@),
            flags@.len() == paths@.len(),
            forall|k: int| 0 <= k < flags@.len() ==> #[trigger] flags@[k] == occurs_first(s, k),
            i <= paths@.len(),
            matched <= i,
            matched == first_occurrences(s.take(i as int)).len(),
            hit_paths(hits@) == at_most(first_occurrences(s.take(i as int)), limit),
        decreases paths@.len() - i,
    {
        let ghost earlier = first_occurrences(s.take(i as int));
        proof {
            let t = s.take(i + 1);
            assert(t.drop_last() =~= s.take(i as int));
            assert(t.last() == paths@[i as int]@);
            assert(flags@[i as int] == occurs_first(s, i as int));
            assert(occurs_first(t, i as int) == occurs_first(s, i as int)) by {
                assert(forall|j: int| 0 <= j <= i ==> t[j] == s[j]);
                if occurs_first(t, i as int) {
                    assert forall|j: int| 0 <= j < i implies crate::paths::parts(#[trigger] s[j])
                        != crate::paths::parts(s[i as int]) by {
                        assert(t[j] == s[j]);
                    }
                }
            }
        }
        if flags[i] {
            matched = matched + 1;
            assert(hit_paths(hits@).len() == hits@.len());
            if hits.len() < limit {
                let ghost before = hits@;
                hits.push(SearchHit { path: paths[i].clone() });
                assert(hit_paths(hits@) =~= hit_paths(before).push(paths@[i as int]@));
            } else {
                assert(earlier.push(paths@[i as int]@).take(limit as int) =~= at_most(
                    earlier,
                    limit,
                ));
            }
        }
        i = i + 1;
    }
    assert(s.take(i as int) =~= s);
    (hits, matched)
}

/// The entries of a tree that a query finds, at most `limit` of them. There
/// is no result where it finds none; then an index of the files on the disk
/// is to be asked.
pub fn search_paths(tree: &EntryNode, query: &str, limit: usize) -> (res: Option<SearchHits>)
    ensures
        match res {
            Some(found) => {
                &&& found.total_matched > 0
                &&& found.total_matched == paths_found(tree@, query@).len()
                &&& hit_paths(found.hits@) == at_most(paths_found(tree@, query@), limit)
            },
            None => paths_found(tree@, query@).len() == 0,
        },
{
    broadcast use crate::tree::lemma_children;

    let prepared = TreeQuery::new(query);
    let ghost found = |n: Tree| entry_found(n, query@);
    let ghost children = tree@.children;
    let mut all: Vec<&EntryNode> = Vec::new();
    let mut i: usize = 0;
    assert(crate::tree::borrowed(all@) =~= crate::tree::preorder_all(children.take(0)));
    while i < tree.children.len()
        invariant
            children == tree@.children,
            children.len() == tree.children@.len(),
            i <= tree.children@.len(),
            crate::tree::borrowed(all@) == crate::tree::preorder_all(children.take(i as int)),
        decreases tree.children@.len() - i,
    {
        flatten(&tree.children[i], &mut all);
        proof {
            assert(children.take(i + 1).drop_last() =~= children.take(i as int));
            assert(children.take(i + 1).last() == children[i as int]);
        }
        i = i + 1;
    }
    assert(children.take(i as int) =~= children);
    let ghost entries = crate::tree::preorder_all(children);
    let mut paths: Vec<&EntryPath> = Vec::new();
    let mut n: usize = 0;
    proof {
        reveal(Seq::filter);
        assert(entries.take(0).filter(found) =~= Seq::<Tree>::empty());
        assert(borrowed_paths(paths@) =~= tree_paths(entries.take(0).filter(found)));
    }
    while n < all.len()
        invariant
            prepared.is_for(query@),
            found == (|n: Tree| entry_found(n, query@)),
            crate::tree::borrowed(all@) == entries,
            n <= all@.len(),
            borrowed_paths(paths@) == tree_paths(entries.take(n as int).filter(found)),
        decreases all@.len() - n,
    {
        let node = all[n];
        proof {
            reveal(Seq::filter);
            assert(entries.take(n + 1).drop_last() =~= entries.take(n as int));
            assert(crate::tree::borrowed(all@)[n as int] == node@);
            assert(entries.take(n + 1).last() == node@);
        }
        if tree_entry_matches(node, &prepared) {
            let ghost before = paths@;
            paths.push(&node.path);
            proof {
                assert(borrowed_paths(paths@) =~= borrowed_paths(before).push(node@.path));
                let earlier = entries.take(n as int).filter(found);
                assert(tree_paths(earlier.push(node@)) =~= tree_paths(earlier).push(node@.path));
            }
        }
        n = n + 1;
    }
    proof {
        assert(crate::tree::borrowed(all@).len() == all@.len());
        assert(entries.take(n as int) =~= entries);
    }
    let (hits, total_matched) = distinct_hits(&paths, limit);
    if total_matched > 0 {
        Some(SearchHits { hits, total_matched })
    } else {
        None
    }
}

/// What an index of the files on the disk found, at most `limit` of it and
/// without paths that it gave before.
pub fn index_hits(paths: &Vec<EntryPath>, total_matched: usize, limit: usize) -> (res: SearchHits)
    ensures
        hit_paths(res.hits@) == at_most(
            first_occurrences(crate::ops::path_views(paths@)),
            limit,
        ),
        res.total_matched == total_matched,
{
    let mut list: Vec<&EntryPath> = Vec::with_capacity(paths.len());
    let mut i: usize = 0;
    while i < paths.len()
        invariant
            i <= paths@.len(),
            list@.len() == i,
            forall|k: int| 0 <= k < i ==> (#[trigger] list@[k])@ == paths@[k]@,
        decreases paths@.len() - i,
    {
        list.push(&paths[i]);
        i = i + 1;
    }
    assert(borrowed_paths(list@) =~= crate::ops::path_views(paths@));
    let (hits, _) = distinct_hits(&list, limit);
    SearchHits { hits, total_matched }
}

/// First occurrences are of the given paths, each path is among them, and none
/// is twice.
pub proof fn lemma_first_occurrences(s: Seq<Seq<u8>>)
    ensures
        forall|i: int|
            0 <= i < first_occurrences(s).len() ==> s.contains(#[trigger] first_occurrences(s)[i]),
        forall|i: int|
            0 <= i < s.len() ==> crate::state::path_among(
                #[trigger] s[i],
                first_occurrences(s),
            ),
        forall|i: int, j: int|
            0 <= i < j < first_occurrences(s).len() ==> crate::paths::parts(
                #[trigger] first_occurrences(s)[i],
            ) != crate::paths::parts(#[trigger] first_occurrences(s)[j]),
    decreases s.len(),
{
    if s.len() > 0 {
        let d = s.drop_last();
        let earlier = first_occurrences(d);
        let all = first_occurrences(s);
        lemma_first_occurrences(d);
        assert forall|i: int| 0 <= i < all.len() implies s.contains(#[trigger] all[i]) by {
            if i < earlier.len() {
                assert(d.contains(earlier[i]));
                let k = choose|k: int| 0 <= k < d.len() && d[k] == earlier[i];
                assert(s[k] == all[i]);
            } else {
                assert(s[s.len() - 1] == all[i]);
            }
        }
        assert forall|i: int| 0 <= i < s.len() implies crate::state::path_among(
            #[trigger] s[i],
            all,
        ) by {
            let n = if i < s.len() - 1 {
                i
            } else if occurs_first(s, s.len() - 1) {
                -1
            } else {
                choose|j: int|
                    0 <= j < s.len() - 1 && crate::paths::parts(#[trigger] s[j])
                        == crate::paths::parts(s[s.len() - 1])
            };
            if n < 0 {
                assert(all[all.len() - 1] == s[i]);
            } else {
                assert(d[n] == s[n]);
                assert(crate::state::path_among(d[n], earlier));
                let k = choose|k: int|
                    0 <= k < earlier.len() && crate::paths::parts(#[trigger] earlier[k])
                        == crate::paths::parts(d[n]);
                assert(all[k] == earlier[k]);
            }
        }
        assert forall|i: int, j: int| 0 <= i < j < all.len() implies crate::paths::parts(
            #[trigger] all[i],
        ) != crate::paths::parts(#[trigger] all[j]) by {
            if j == earlier.len() {
                assert(d.contains(earlier[i]));
                let k = choose|k: int| 0 <= k < d.len() && d[k] == earlier[i];
                assert(crate::paths::parts(s[k]) != crate::paths::parts(s[s.len() - 1]));
            }
        }
    }
}

/// A search of a tree finds the entries that have all words of the query, each
/// path once, and nothing else.
pub proof fn lemma_paths_found(t: Tree, query: Seq<char>)
    ensures
        forall|i: int|
            0 <= i < paths_found(t, query).len() ==> exists|k: int|
                0 <= k < crate::tree::preorder_all(t.children).len()
                    && entry_found(#[trigger] crate::tree::preorder_all(t.children)[k], query)
                    && crate::tree::preorder_all(t.children)[k].path == #[trigger] paths_found(
                    t,
                    query,
                )[i],
        forall|k: int|
            0 <= k < crate::tree::preorder_all(t.children).len() && entry_found(
                #[trigger] crate::tree::preorder_all(t.children)[k],
                query,
            ) ==> crate::state::path_among(
                crate::tree::preorder_all(t.children)[k].path,
                paths_found(t, query),
            ),
        forall|i: int, j: int|
            0 <= i < j < paths_found(t, query).len() ==> crate::paths::parts(
                #[trigger] paths_found(t, query)[i],
            ) != crate::paths::parts(#[trigger] paths_found(t, query)[j]),
{
    let all = crate::tree::preorder_all(t.children);
    let f = |n: Tree| entry_found(n, query);
    let found = entries_found(t, query);
    let paths = tree_paths(found);
    let res = paths_found(t, query);
    lemma_first_occurrences(paths);
    assert forall|i: int| 0 <= i < res.len() implies exists|k: int|
        0 <= k < all.len() && entry_found(#[trigger] all[k], query) && all[k].path
            == #[trigger] res[i] by {
        assert(paths.contains(res[i]));
        let n = choose|n: int| 0 <= n < paths.len() && paths[n] == res[i];
        all.lemma_filter_pred(f, n);
        assert(found.contains(found[n]));
        all.lemma_filter_contains_rev(f, found[n]);
        let k = choose|k: int| 0 <= k < all.len() && all[k] == found[n];
        assert(entry_found(all[k], query));
    }
    assert forall|k: int| 0 <= k < all.len() && entry_found(
        #[trigger] all[k],
        query,
    ) implies crate::state::path_among(all[k].path, res) by {
        assert(f(all[k]));
        all.lemma_filter_contains(f, k);
        let n = choose|n: int| 0 <= n < found.len() && found[n] == all[k];
        assert(paths[n] == all[k].path);
        assert(crate::state::path_among(paths[n], res));
    }
}

/// A query without words finds nothing.
pub proof fn lemma_blank_query(t: Tree, query: Seq<char>)
    requires
        crate::text::words(query).len() == 0,
    ensures
        paths_found(t, query).len() == 0,
{
    assert(query_tokens(query).len() == 0) by {
        reveal(Seq::filter);
    }
    lemma_paths_found(t, query);
    if paths_found(t, query).len() > 0 {
        assert(paths_found(t, query)[0] == paths_found(t, query)[0]);
    }
}

} // verus!
