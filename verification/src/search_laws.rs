//! What holds of every search of a scanned tree.

use vstd::prelude::*;

#[allow(unused_imports)]
use crate::tree::Tree;

verus! {

/// Whether a character separates the parts of a path, on any system.
pub open spec fn separates(c: char) -> bool {
    c == '/' || c == '\\'
}

/// Whether a query has a separator in it.
pub open spec fn has_separator(query: Seq<char>) -> bool {
    exists|i: int| 0 <= i < query.len() && separates(#[trigger] query[i])
}

/// The text in which a query looks for its words: the lowercase form of an
/// entry's path where the query has a separator, and else that of its name.
pub open spec fn searched_text(x: Tree, query: Seq<char>) -> Seq<char> {
    if has_separator(query) {
        crate::text::lowercase(crate::paths::shown(x.path))
    } else {
        crate::text::lowercase(x.name)
    }
}

/// Whether every word of a query is in the text in which it looks for them,
/// whatever the case of the words.
pub open spec fn has_all_words(x: Tree, query: Seq<char>) -> bool {
    forall|i: int|
        0 <= i < crate::text::words(query).len() ==> crate::text::has_infix(
            searched_text(x, query),
            crate::text::lowercase(#[trigger] crate::text::words(query)[i]),
        )
}

/// Whether a query has a word to look for.
pub open spec fn looks_for_something(query: Seq<char>) -> bool {
    exists|i: int|
        0 <= i < crate::text::words(query).len() && crate::text::lowercase(
            #[trigger] crate::text::words(query)[i],
        ).len() > 0
}

/// A query finds an entry exactly where it has a word to look for and the entry
/// has all of its words.
proof fn lemma_entry_found(x: Tree, query: Seq<char>)
    ensures
        crate::search::entry_found(x, query) <==> looks_for_something(query) && has_all_words(
            x,
            query,
        ),
{
    let words = crate::text::words(query);
    let lower = |w: Seq<char>| crate::text::lowercase(w);
    let kept = |w: Seq<char>| w.len() > 0;
    let all = words.map_values(lower);
    let tokens = crate::search::query_tokens(query);
    let hay = searched_text(x, query);
    assert(crate::search::about_paths(query) == has_separator(query)) by {
        if query.contains('/') {
            let i = choose|i: int| 0 <= i < query.len() && query[i] == '/';
            assert(separates(query[i]));
        }
        if query.contains('\\') {
            let i = choose|i: int| 0 <= i < query.len() && query[i] == '\\';
            assert(separates(query[i]));
        }
        if has_separator(query) {
            let i = choose|i: int| 0 <= i < query.len() && separates(#[trigger] query[i]);
            assert(query.contains(query[i]));
        }
    }
    assert(tokens == all.filter(kept));
    if crate::search::entry_found(x, query) {
        all.lemma_filter_pred(kept, 0);
        assert(tokens.contains(tokens[0]));
        all.lemma_filter_contains_rev(kept, tokens[0]);
        let n = choose|n: int| 0 <= n < all.len() && all[n] == tokens[0];
        assert(crate::text::lowercase(words[n]).len() > 0);
        assert forall|i: int| 0 <= i < words.len() implies crate::text::has_infix(
            hay,
            crate::text::lowercase(#[trigger] words[i]),
        ) by {
            let w = crate::text::lowercase(words[i]);
            assert(all[i] == w);
            if w.len() > 0 {
                all.lemma_filter_contains(kept, i);
                let k = choose|k: int| 0 <= k < tokens.len() && tokens[k] == w;
                assert(crate::text::has_infix(hay, tokens[k]));
            } else {
                let z: int = 0;
                assert(hay.subrange(z, z + w.len()) =~= w);
            }
        }
    }
    if looks_for_something(query) && has_all_words(x, query) {
        let n = choose|n: int|
            0 <= n < words.len() && crate::text::lowercase(#[trigger] words[n]).len() > 0;
        assert(all[n] == crate::text::lowercase(words[n]));
        all.lemma_filter_contains(kept, n);
        assert(tokens.len() > 0);
        assert forall|i: int| 0 <= i < tokens.len() implies crate::text::has_infix(
            hay,
            #[trigger] tokens[i],
        ) by {
            assert(tokens.contains(tokens[i]));
            all.lemma_filter_contains_rev(kept, tokens[i]);
            let k = choose|k: int| 0 <= k < all.len() && all[k] == tokens[i];
            assert(all[k] == crate::text::lowercase(words[k]));
        }
    }
}

/// An entry below the root of a tree is found where every word of the query is
/// in its name, or in its path where the query has a separator, and no case is
/// told apart.
pub proof fn lemma_search_finds(t: Tree, query: Seq<char>, k: int)
    requires
        0 <= k < crate::tree::preorder_all(t.children).len(),
        looks_for_something(query),
        has_all_words(crate::tree::preorder_all(t.children)[k], query),
    ensures
        crate::state::path_among(
            crate::tree::preorder_all(t.children)[k].path,
            crate::search::paths_found(t, query),
        ),
{
    lemma_entry_found(crate::tree::preorder_all(t.children)[k], query);
    crate::search::lemma_paths_found(t, query);
}

/// Every path that a search finds is that of an entry below the root that has
/// every word of the query.
pub proof fn lemma_search_found(t: Tree, query: Seq<char>, i: int) -> (k: int)
    requires
        0 <= i < crate::search::paths_found(t, query).len(),
    ensures
        0 <= k < crate::tree::preorder_all(t.children).len(),
        crate::tree::preorder_all(t.children)[k].path == crate::search::paths_found(t, query)[i],
        looks_for_something(query),
        has_all_words(crate::tree::preorder_all(t.children)[k], query),
{
    crate::search::lemma_paths_found(t, query);
    let all = crate::tree::preorder_all(t.children);
    let path = crate::search::paths_found(t, query)[i];
    let k = choose|k: int|
        0 <= k < all.len() && crate::search::entry_found(#[trigger] all[k], query) && all[k].path
            == path;
    lemma_entry_found(all[k], query);
    k
}

/// A query of one word with a separator finds every entry whose path has the
/// word in any case: its lowercase form is in that of the path.
pub proof fn lemma_search_path(t: Tree, query: Seq<char>, word: Seq<char>, k: int)
    requires
        crate::text::words(query) == seq![word],
        has_separator(query),
        crate::text::lowercase(word).len() > 0,
        0 <= k < crate::tree::preorder_all(t.children).len(),
        crate::text::has_infix(
            crate::text::lowercase(
                crate::paths::shown(crate::tree::preorder_all(t.children)[k].path),
            ),
            crate::text::lowercase(word),
        ),
    ensures
        crate::state::path_among(
            crate::tree::preorder_all(t.children)[k].path,
            crate::search::paths_found(t, query),
        ),
{
    assert(crate::text::words(query)[0] == word);
    lemma_search_finds(t, query, k);
}

/// Two entries whose paths have the same lowercase form are found by the same
/// queries with a separator, and two whose names have it by the same other
/// queries.
pub proof fn lemma_search_without_case(t: Tree, query: Seq<char>, j: int, k: int)
    requires
        0 <= j < crate::tree::preorder_all(t.children).len(),
        0 <= k < crate::tree::preorder_all(t.children).len(),
        ({
            let x = crate::tree::preorder_all(t.children)[j];
            let y = crate::tree::preorder_all(t.children)[k];
            if has_separator(query) {
                crate::text::lowercase(crate::paths::shown(x.path)) == crate::text::lowercase(
                    crate::paths::shown(y.path),
                )
            } else {
                crate::text::lowercase(x.name) == crate::text::lowercase(y.name)
            }
        }),
        crate::search::entry_found(crate::tree::preorder_all(t.children)[j], query),
    ensures
        crate::state::path_among(
            crate::tree::preorder_all(t.children)[k].path,
            crate::search::paths_found(t, query),
        ),
{
    let x = crate::tree::preorder_all(t.children)[j];
    let y = crate::tree::preorder_all(t.children)[k];
    lemma_entry_found(x, query);
    assert(searched_text(x, query) == searched_text(y, query));
    lemma_search_finds(t, query, k);
}

/// Two queries whose words have the same lowercase forms, both with a separator
/// or both without, find the same.
pub proof fn lemma_query_without_case(t: Tree, a: Seq<char>, b: Seq<char>)
    requires
        has_separator(a) == has_separator(b),
        crate::text::words(a).len() == crate::text::words(b).len(),
        forall|i: int|
            0 <= i < crate::text::words(a).len() ==> crate::text::lowercase(
                #[trigger] crate::text::words(a)[i],
            ) == crate::text::lowercase(crate::text::words(b)[i]),
    ensures
        crate::search::paths_found(t, a) == crate::search::paths_found(t, b),
{
    let f = |n: Tree| crate::search::entry_found(n, a);
    let g = |n: Tree| crate::search::entry_found(n, b);
    assert forall|n: Tree| #[trigger] f(n) == g(n) by {
        lemma_entry_found(n, a);
        lemma_entry_found(n, b);
        let (u, v) = (crate::text::words(a), crate::text::words(b));
        assert(searched_text(n, a) == searched_text(n, b));
        if looks_for_something(a) {
            let i = choose|i: int| 0 <= i < u.len() && crate::text::lowercase(#[trigger] u[i]).len()
                > 0;
            assert(crate::text::lowercase(v[i]).len() > 0);
        }
        if looks_for_something(b) {
            let i = choose|i: int| 0 <= i < v.len() && crate::text::lowercase(#[trigger] v[i]).len()
                > 0;
            assert(crate::text::lowercase(u[i]).len() > 0);
        }
        if has_all_words(n, a) {
            assert forall|i: int| 0 <= i < v.len() implies crate::text::has_infix(
                searched_text(n, b),
                crate::text::lowercase(#[trigger] v[i]),
            ) by {
                assert(crate::text::lowercase(u[i]) == crate::text::lowercase(v[i]));
            }
        }
        if has_all_words(n, b) {
            assert forall|i: int| 0 <= i < u.len() implies crate::text::has_infix(
                searched_text(n, a),
                crate::text::lowercase(#[trigger] u[i]),
            ) by {
                assert(crate::text::lowercase(v[i]) == crate::text::lowercase(u[i]));
            }
        }
    }
    assert(f =~= g);
}

/// First occurrences keep their order: one more path is behind those before it,
/// or was there already.
pub proof fn lemma_first_occurrences_order(s: Seq<Seq<u8>>, path: Seq<u8>)
    ensures
        ({
            let before = crate::search::first_occurrences(s);
            let after = crate::search::first_occurrences(s.push(path));
            if crate::state::path_among(path, s) {
                after == before
            } else {
                after == before.push(path)
            }
        }),
{
    let p = s.push(path);
    assert(p.drop_last() =~= s);
    let last = p.len() - 1;
    if crate::state::path_among(path, s) {
        let i = choose|i: int|
            0 <= i < s.len() && crate::paths::parts(#[trigger] s[i]) == crate::paths::parts(path);
        assert(crate::paths::parts(p[i]) == crate::paths::parts(p[last]));
        assert(!crate::search::occurs_first(p, last));
    } else {
        assert forall|j: int| 0 <= j < last implies crate::paths::parts(#[trigger] p[j])
            != crate::paths::parts(p[last]) by {
            assert(p[j] == s[j]);
            assert(crate::paths::parts(s[j]) != crate::paths::parts(path));
        }
        assert(crate::search::occurs_first(p, last));
    }
}

/// A limit cuts paths behind the first ones, and only where there are more.
pub proof fn lemma_search_limit(s: Seq<Seq<u8>>, limit: usize)
    ensures
        crate::search::at_most(s, limit).is_prefix_of(s),
        crate::search::at_most(s, limit).len() <= limit,
        crate::search::at_most(s, limit).len() < s.len() ==> crate::search::at_most(s, limit).len()
            == limit,
{
    let cut = crate::search::at_most(s, limit);
    assert(cut =~= s.subrange(0, cut.len() as int));
}

/// Every path that a search finds leads to an entry below the root of the tree
/// that was searched, and lies at or below the root's path where the tree's
/// paths are nested.
pub proof fn lemma_search_stays_below(t: Tree, query: Seq<char>, i: int) -> (at: Seq<usize>)
    requires
        crate::tree::countable(t),
        0 <= i < crate::search::paths_found(t, query).len(),
    ensures
        at.len() > 0,
        crate::tree::node_at(t, at) is Some,
        crate::tree::node_at(t, at)->0.path == crate::search::paths_found(t, query)[i],
        crate::tree_laws::nested(t) ==> crate::paths::lies_under(
            crate::search::paths_found(t, query)[i],
            t.path,
        ),
{
    let k = lemma_search_found(t, query, i);
    assert(crate::tree::preorder(t)[k + 1] == crate::tree::preorder_all(t.children)[k]);
    let at = crate::tree_laws::lemma_preorder_reached(t, k + 1);
    if crate::tree_laws::nested(t) {
        crate::tree_laws::lemma_nested(t, at);
    }
    at
}

} // verus!
