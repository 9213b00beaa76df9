//! Lexicographic order and stable sorting.

use vstd::prelude::*;
use vstd::relations::{sorted_by, strongly_connected, total_ordering, transitive};

verus! {

/// Whether one sequence comes before another or equals it: a proper prefix
/// comes first, otherwise the first pair of different items decides.
pub open spec fn lex_le<A>(a: Seq<A>, b: Seq<A>, le: spec_fn(A, A) -> bool) -> bool
    decreases a.len(),
{
    if a.len() == 0 {
        true
    } else if b.len() == 0 {
        false
    } else if a[0] == b[0] {
        lex_le(a.drop_first(), b.drop_first(), le)
    } else {
        le(a[0], b[0])
    }
}

proof fn lemma_lex_reflexive<A>(a: Seq<A>, le: spec_fn(A, A) -> bool)
    ensures
        lex_le(a, a, le),
    decreases a.len(),
{
    if a.len() > 0 {
        lemma_lex_reflexive(a.drop_first(), le);
    }
}

proof fn lemma_lex_antisymmetric<A>(a: Seq<A>, b: Seq<A>, le: spec_fn(A, A) -> bool)
    requires
        total_ordering(le),
        lex_le(a, b, le),
        lex_le(b, a, le),
    ensures
        a == b,
    decreases a.len(),
{
    if a.len() > 0 && b.len() > 0 {
        if a[0] == b[0] {
            lemma_lex_antisymmetric(a.drop_first(), b.drop_first(), le);
            assert(a =~= seq![a[0]] + a.drop_first());
            assert(b =~= seq![b[0]] + b.drop_first());
        }
    } else {
        assert(a =~= b);
    }
}

proof fn lemma_lex_transitive<A>(a: Seq<A>, b: Seq<A>, c: Seq<A>, le: spec_fn(A, A) -> bool)
    requires
        total_ordering(le),
        lex_le(a, b, le),
        lex_le(b, c, le),
    ensures
        lex_le(a, c, le),
    decreases a.len(),
{
    if a.len() > 0 && b.len() > 0 && c.len() > 0 {
        if a[0] == b[0] && b[0] == c[0] {
            lemma_lex_transitive(a.drop_first(), b.drop_first(), c.drop_first(), le);
        } else {
            assert(le(a[0], b[0]) && le(b[0], c[0]));
            assert(le(a[0], c[0]));
            if a[0] == c[0] {
                assert(a[0] == b[0]);
            }
        }
    }
}

proof fn lemma_lex_connected<A>(a: Seq<A>, b: Seq<A>, le: spec_fn(A, A) -> bool)
    requires
        total_ordering(le),
    ensures
        lex_le(a, b, le) || lex_le(b, a, le),
    decreases a.len(),
{
    if a.len() > 0 && b.len() > 0 {
        if a[0] == b[0] {
            lemma_lex_connected(a.drop_first(), b.drop_first(), le);
        } else {
            assert(le(a[0], b[0]) || le(b[0], a[0]));
        }
    }
}

/// The lexicographic order of a total order is a total order.
pub proof fn lemma_lex_total<A>(le: spec_fn(A, A) -> bool)
    requires
        total_ordering(le),
    ensures
        total_ordering(|a: Seq<A>, b: Seq<A>| lex_le(a, b, le)),
{
    let lex = |a: Seq<A>, b: Seq<A>| lex_le(a, b, le);
    assert forall|a: Seq<A>| #[trigger] lex(a, a) by {
        lemma_lex_reflexive(a, le);
    }
    assert forall|a: Seq<A>, b: Seq<A>| #[trigger] lex(a, b) && #[trigger] lex(b, a) implies a
        == b by {
        lemma_lex_antisymmetric(a, b, le);
    }
    assert forall|a: Seq<A>, b: Seq<A>, c: Seq<A>| #[trigger]
        lex(a, b) && #[trigger] lex(b, c) implies lex(a, c) by {
        lemma_lex_transitive(a, b, c, le);
    }
    assert forall|a: Seq<A>, b: Seq<A>| #[trigger] lex(a, b) || #[trigger] lex(b, a) by {
        lemma_lex_connected(a, b, le);
    }
}

/// Two sequences that agree in their first `k` items are ordered by the rest.
pub(crate) proof fn lemma_lex_common_prefix<A>(
    a: Seq<A>,
    b: Seq<A>,
    k: int,
    le: spec_fn(A, A) -> bool,
)
    requires
        0 <= k <= a.len(),
        k <= b.len(),
        forall|i: int| 0 <= i < k ==> a[i] == b[i],
    ensures
        lex_le(a, b, le) == lex_le(a.skip(k), b.skip(k), le),
    decreases k,
{
    if k == 0 {
        assert(a.skip(0) =~= a);
        assert(b.skip(0) =~= b);
    } else {
        assert(a[0] == b[0]);
        assert forall|i: int| 0 <= i < k - 1 implies a.drop_first()[i] == b.drop_first()[i] by {
            assert(a[i + 1] == b[i + 1]);
        }
        lemma_lex_common_prefix(a.drop_first(), b.drop_first(), k - 1, le);
        assert(a.drop_first().skip(k - 1) =~= a.skip(k));
        assert(b.drop_first().skip(k - 1) =~= b.skip(k));
    }
}

/// Whether a relation ranks any two items and does so consistently; items may
/// rank equal.
pub open spec fn ranking<A>(le: spec_fn(A, A) -> bool) -> bool {
    &&& transitive(le)
    &&& strongly_connected(le)
}

/// The items that rank as high as `y`.
pub open spec fn ranks_as<A>(y: A, le: spec_fn(A, A) -> bool) -> spec_fn(A) -> bool {
    |z: A| le(y, z) && le(z, y)
}

/// A sorted sequence with one more item, placed behind all that rank at most
/// as high.
pub open spec fn inserted<A>(s: Seq<A>, x: A, le: spec_fn(A, A) -> bool) -> Seq<A>
    decreases s.len(),
{
    if s.len() == 0 || le(s.last(), x) {
        s.push(x)
    } else {
        inserted(s.drop_last(), x, le).push(s.last())
    }
}

/// The items in the order of their ranks; those that rank equal keep the
/// order they had.
pub open spec fn stable_sorted<A>(s: Seq<A>, le: spec_fn(A, A) -> bool) -> Seq<A>
    decreases s.len(),
{
    if s.len() == 0 {
        s
    } else {
        inserted(stable_sorted(s.drop_last(), le), s.last(), le)
    }
}

proof fn lemma_filter_push<A>(s: Seq<A>, x: A, p: spec_fn(A) -> bool)
    ensures
        s.push(x).filter(p) == if p(x) {
            s.filter(p).push(x)
        } else {
            s.filter(p)
        },
{
    reveal(Seq::filter);
    assert(s.push(x).drop_last() =~= s);
}

proof fn lemma_inserted<A>(s: Seq<A>, x: A, le: spec_fn(A, A) -> bool)
    requires
        ranking(le),
        sorted_by(s, le),
    ensures
        sorted_by(inserted(s, x, le), le),
        inserted(s, x, le).to_multiset() == s.to_multiset().insert(x),
        forall|y: A| #[trigger]
            inserted(s, x, le).filter(ranks_as(y, le)) == s.push(x).filter(
                ranks_as(y, le),
            ),
    decreases s.len(),
{
    broadcast use vstd::seq_lib::group_to_multiset_ensures;
    broadcast use vstd::multiset::group_multiset_axioms;

    if s.len() == 0 || le(s.last(), x) {
        assert forall|i: int, j: int| 0 <= i < j < s.push(x).len() implies #[trigger] le(
            s.push(x)[i],
            s.push(x)[j],
        ) by {
            if j == s.len() && i < s.len() - 1 {
                assert(le(s[i], s.last()));
            }
        }
    } else {
        let t = s.drop_last();
        lemma_inserted(t, x, le);
        let u = inserted(t, x, le);
        let r = u.push(s.last());
        assert(s =~= t.push(s.last()));
        assert(r.to_multiset() == t.to_multiset().insert(x).insert(s.last()));
        assert(s.to_multiset() == t.to_multiset().insert(s.last()));
        assert(t.to_multiset().insert(x).insert(s.last()) =~= t.to_multiset().insert(
            s.last(),
        ).insert(x));
        assert(le(x, s.last()));
        assert forall|i: int| 0 <= i < u.len() implies le(#[trigger] u[i], s.last()) by {
            assert(u.to_multiset().count(u[i]) > 0);
            if u[i] != x {
                assert(t.to_multiset().count(u[i]) > 0);
                assert(t.contains(u[i]));
                let k = choose|k: int| 0 <= k < t.len() && t[k] == u[i];
                assert(le(s[k], s[s.len() - 1]));
            }
        }
        assert forall|i: int, j: int| 0 <= i < j < r.len() implies #[trigger] le(r[i], r[j]) by {
            if j < u.len() {
                assert(le(u[i], u[j]));
            } else {
                assert(le(u[i], s.last()));
            }
        }
        assert forall|y: A| #[trigger] r.filter(ranks_as(y, le)) == s.push(x).filter(
            ranks_as(y, le),
        ) by {
            let p = ranks_as(y, le);
            lemma_filter_push(u, s.last(), p);
            lemma_filter_push(t, x, p);
            lemma_filter_push(t, s.last(), p);
            lemma_filter_push(s, x, p);
            assert(u.filter(ranks_as(y, le)) == t.push(x).filter(p));
            if p(s.last()) && p(x) {
                assert(le(s.last(), y) && le(y, x));
                assert(le(s.last(), x));
            }
        }
    }
}

/// A stable sort ranks its items, keeps every item as often as it occurred,
/// and keeps the order of those that rank equal.
pub proof fn lemma_stable_sorted<A>(s: Seq<A>, le: spec_fn(A, A) -> bool)
    requires
        ranking(le),
    ensures
        sorted_by(stable_sorted(s, le), le),
        stable_sorted(s, le).to_multiset() == s.to_multiset(),
        stable_sorted(s, le).len() == s.len(),
        forall|y: A| #[trigger]
            stable_sorted(s, le).filter(ranks_as(y, le)) == s.filter(
                ranks_as(y, le),
            ),
    decreases s.len(),
{
    broadcast use vstd::seq_lib::group_to_multiset_ensures;

    if s.len() > 0 {
        let t = s.drop_last();
        lemma_stable_sorted(t, le);
        let u = stable_sorted(t, le);
        lemma_inserted(u, s.last(), le);
        assert(s =~= t.push(s.last()));
        assert forall|y: A| #[trigger]
            stable_sorted(s, le).filter(ranks_as(y, le)) == s.filter(
                ranks_as(y, le),
            ) by {
            let p = ranks_as(y, le);
            lemma_filter_push(u, s.last(), p);
            lemma_filter_push(t, s.last(), p);
            assert(inserted(u, s.last(), le).filter(ranks_as(y, le)) == u.push(s.last()).filter(p));
            assert(u.filter(ranks_as(y, le)) == t.filter(p));
        }
        assert(s.to_multiset().len() == s.len());
        assert(stable_sorted(s, le).to_multiset().len() == stable_sorted(s, le).len());
    }
}

proof fn lemma_inserted_map<A>(s: Seq<int>, x: int, f: spec_fn(int) -> A, le: spec_fn(A, A) -> bool)
    ensures
        inserted(s.map_values(f), f(x), le) == inserted(
            s,
            x,
            |i: int, j: int| le(f(i), f(j)),
        ).map_values(f),
    decreases s.len(),
{
    let g = |i: int, j: int| le(f(i), f(j));
    if s.len() == 0 || g(s.last(), x) {
        assert(s.map_values(f).push(f(x)) =~= s.push(x).map_values(f));
    } else {
        lemma_inserted_map(s.drop_last(), x, f, le);
        assert(s.map_values(f).drop_last() =~= s.drop_last().map_values(f));
        assert(inserted(s.drop_last(), x, g).map_values(f).push(f(s.last())) =~= inserted(
            s.drop_last(),
            x,
            g,
        ).push(s.last()).map_values(f));
    }
}

/// Sorting the images of positions is sorting the positions by their images.
pub(crate) proof fn lemma_stable_sorted_map<A>(
    s: Seq<int>,
    f: spec_fn(int) -> A,
    le: spec_fn(A, A) -> bool,
)
    ensures
        stable_sorted(s.map_values(f), le) == stable_sorted(
            s,
            |i: int, j: int| le(f(i), f(j)),
        ).map_values(f),
    decreases s.len(),
{
    let g = |i: int, j: int| le(f(i), f(j));
    if s.len() == 0 {
        assert(s.map_values(f) =~= stable_sorted(s, g).map_values(f));
    } else {
        lemma_stable_sorted_map(s.drop_last(), f, le);
        assert(s.map_values(f).drop_last() =~= s.drop_last().map_values(f));
        lemma_inserted_map(stable_sorted(s.drop_last(), g), s.last(), f, le);
    }
}

/// Relations that agree sort alike.
pub(crate) proof fn lemma_stable_sorted_agree(
    s: Seq<int>,
    f: spec_fn(int, int) -> bool,
    g: spec_fn(int, int) -> bool,
)
    requires
        forall|i: int, j: int| s.contains(i) && s.contains(j) ==> #[trigger] f(i, j) == g(i, j),
    ensures
        stable_sorted(s, f) == stable_sorted(s, g),
        forall|i: int| stable_sorted(s, f).contains(i) ==> s.contains(i),
    decreases s.len(),
{
    if s.len() > 0 {
        let d = s.drop_last();
        assert forall|i: int| d.contains(i) implies s.contains(i) by {
            let k = choose|k: int| 0 <= k < d.len() && d[k] == i;
            assert(s[k] == i);
        }
        lemma_stable_sorted_agree(d, f, g);
        assert(s[s.len() - 1] == s.last());
        assert(s.contains(s.last()));
        lemma_inserted_agree(stable_sorted(d, f), s.last(), f, g);
    }
}

proof fn lemma_inserted_agree(
    s: Seq<int>,
    x: int,
    f: spec_fn(int, int) -> bool,
    g: spec_fn(int, int) -> bool,
)
    requires
        forall|i: int| s.contains(i) ==> #[trigger] f(i, x) == g(i, x),
    ensures
        inserted(s, x, f) == inserted(s, x, g),
        forall|i: int| inserted(s, x, f).contains(i) ==> s.contains(i) || i == x,
    decreases s.len(),
{
    if s.len() > 0 {
        let d = s.drop_last();
        assert(s[s.len() - 1] == s.last());
        assert(s.contains(s.last()));
        assert forall|i: int| d.contains(i) implies s.contains(i) by {
            let k = choose|k: int| 0 <= k < d.len() && d[k] == i;
            assert(s[k] == i);
        }
        lemma_inserted_agree(d, x, f, g);
        assert(f(s.last(), x) == g(s.last(), x));
    }
    assert forall|i: int| inserted(s, x, f).contains(i) implies s.contains(i) || i == x by {
        let r = inserted(s, x, f);
        let k = choose|k: int| 0 <= k < r.len() && r[k] == i;
        if s.len() == 0 || f(s.last(), x) {
            if k < s.len() {
                assert(s[k] == i);
            }
        } else {
            let u = inserted(s.drop_last(), x, f);
            if k < u.len() {
                assert(u[k] == i);
                assert(u.contains(i));
            } else {
                assert(s[s.len() - 1] == i);
            }
        }
    }
}

/// The numbers from `lo` up to but without `hi`.
pub open spec fn numbers(lo: int, hi: int) -> Seq<int> {
    Seq::new((hi - lo) as nat, |i: int| lo + i)
}

/// Machine positions as mathematical ones.
pub open spec fn positions(s: Seq<usize>) -> Seq<int> {
    s.map_values(|i: usize| i as int)
}

/// A ranking of positions in which the lower position comes first where two
/// rank equal.
spec fn tie_broken(le: spec_fn(int, int) -> bool) -> spec_fn(int, int) -> bool {
    |i: int, j: int| le(i, j) && (!le(j, i) || i <= j)
}

proof fn lemma_tie_broken_total(le: spec_fn(int, int) -> bool)
    requires
        ranking(le),
    ensures
        total_ordering(tie_broken(le)),
{
    let t = tie_broken(le);
    assert forall|i: int| #[trigger] t(i, i) by {
        assert(le(i, i) || le(i, i));
    }
    assert forall|i: int, j: int| #[trigger] t(i, j) || #[trigger] t(j, i) by {
        assert(le(i, j) || le(j, i));
    }
    assert forall|i: int, j: int, k: int| #[trigger] t(i, j) && #[trigger] t(j, k) implies t(
        i,
        k,
    ) by {
        assert(le(i, j) && le(j, k));
        assert(le(i, k));
        if le(k, i) {
            assert(le(k, j));
            assert(le(j, i));
        }
    }
}

proof fn lemma_inserted_last(s: Seq<int>, x: int, le: spec_fn(int, int) -> bool)
    requires
        ranking(le),
        sorted_by(s, tie_broken(le)),
        forall|k: int| 0 <= k < s.len() ==> #[trigger] s[k] < x,
    ensures
        sorted_by(inserted(s, x, le), tie_broken(le)),
        inserted(s, x, le).to_multiset() == s.to_multiset().insert(x),
    decreases s.len(),
{
    broadcast use vstd::seq_lib::group_to_multiset_ensures;
    broadcast use vstd::multiset::group_multiset_axioms;

    let t = tie_broken(le);
    lemma_tie_broken_total(le);
    if s.len() == 0 || le(s.last(), x) {
        assert forall|i: int, j: int| 0 <= i < j < s.push(x).len() implies #[trigger] t(
            s.push(x)[i],
            s.push(x)[j],
        ) by {
            if j == s.len() {
                if i < s.len() - 1 {
                    assert(t(s[i], s.last()));
                    assert(le(s[i], s.last()));
                    assert(le(s[i], x));
                }
            } else {
                assert(t(s[i], s[j]));
            }
        }
    } else {
        let d = s.drop_last();
        lemma_inserted_last(d, x, le);
        let u = inserted(d, x, le);
        let r = u.push(s.last());
        assert(s =~= d.push(s.last()));
        assert(r.to_multiset() == d.to_multiset().insert(x).insert(s.last()));
        assert(s.to_multiset() == d.to_multiset().insert(s.last()));
        assert(d.to_multiset().insert(x).insert(s.last()) =~= d.to_multiset().insert(
            s.last(),
        ).insert(x));
        assert(le(x, s.last()));
        assert forall|i: int| 0 <= i < u.len() implies t(#[trigger] u[i], s.last()) by {
            assert(u.to_multiset().count(u[i]) > 0);
            if u[i] != x {
                assert(d.to_multiset().count(u[i]) > 0);
                assert(d.contains(u[i]));
                let k = choose|k: int| 0 <= k < d.len() && d[k] == u[i];
                assert(t(s[k], s[s.len() - 1]));
            }
        }
        assert forall|i: int, j: int| 0 <= i < j < r.len() implies #[trigger] t(r[i], r[j]) by {
            if j < u.len() {
                assert(t(u[i], u[j]));
            } else {
                assert(t(u[i], s.last()));
            }
        }
    }
}

proof fn lemma_sorted_numbers(n: int, le: spec_fn(int, int) -> bool)
    requires
        ranking(le),
        0 <= n,
    ensures
        sorted_by(stable_sorted(numbers(0, n), le), tie_broken(le)),
        stable_sorted(numbers(0, n), le).to_multiset() == numbers(0, n).to_multiset(),
    decreases n,
{
    broadcast use vstd::seq_lib::group_to_multiset_ensures;

    if n > 0 {
        lemma_sorted_numbers(n - 1, le);
        let s = numbers(0, n);
        assert(s.drop_last() =~= numbers(0, n - 1));
        let u = stable_sorted(numbers(0, n - 1), le);
        assert forall|k: int| 0 <= k < u.len() implies #[trigger] u[k] < n - 1 by {
            assert(u.to_multiset().count(u[k]) > 0);
            assert(numbers(0, n - 1).contains(u[k]));
        }
        lemma_inserted_last(u, n - 1, le);
        assert(s =~= numbers(0, n - 1).push(n - 1));
    }
}

/// A collection whose items have ranks, known by their positions.
pub(crate) trait Ranked {
    /// How many items there are.
    spec fn count(&self) -> nat;

    /// Whether the item at `i` ranks at most as high as the item at `j`.
    spec fn at_most(&self, i: int, j: int) -> bool;

    /// Any two items are ranked, consistently.
    proof fn lemma_ranking(&self)
        ensures
            ranking(|i: int, j: int| self.at_most(i, j)),
    ;

    /// Compares two items by their ranks.
    fn ranks_at_most(&self, i: usize, j: usize) -> (res: bool)
        requires
            i < self.count(),
            j < self.count(),
        ensures
            res == self.at_most(i as int, j as int),
    ;
}

spec fn by_rank<R: Ranked>(r: R) -> spec_fn(int, int) -> bool {
    |i: int, j: int| r.at_most(i, j)
}

fn merge_runs<R: Ranked>(r: &R, left: &Vec<usize>, right: &Vec<usize>) -> (out: Vec<usize>)
    requires
        sorted_by(positions(left@), tie_broken(by_rank(*r))),
        sorted_by(positions(right@), tie_broken(by_rank(*r))),
        forall|k: int| 0 <= k < left@.len() ==> #[trigger] left@[k] < r.count(),
        forall|k: int| 0 <= k < right@.len() ==> #[trigger] right@[k] < r.count(),
        forall|i: int, j: int|
            0 <= i < left@.len() && 0 <= j < right@.len() ==> #[trigger] left@[i]
                < #[trigger] right@[j],
    ensures
        sorted_by(positions(out@), tie_broken(by_rank(*r))),
        positions(out@).to_multiset() == (positions(left@) + positions(right@)).to_multiset(),
{
    let ghost t = tie_broken(by_rank(*r));
    let ghost le = by_rank(*r);
    proof {
        r.lemma_ranking();
        assert(le =~= (|i: int, j: int| r.at_most(i, j)));
        lemma_tie_broken_total(le);
    }
    let mut out: Vec<usize> = Vec::with_capacity(left.len());
    let mut i: usize = 0;
    let mut j: usize = 0;
    assert(positions(out@) =~= positions(left@).take(0) + positions(right@).take(0));
    while i < left.len() || j < right.len()
        invariant
            i <= left@.len(),
            j <= right@.len(),
            t == tie_broken(le),
            le == by_rank(*r),
            ranking(le),
            total_ordering(t),
            sorted_by(positions(left@), t),
            sorted_by(positions(right@), t),
            forall|k: int| 0 <= k < left@.len() ==> #[trigger] left@[k] < r.count(),
            forall|k: int| 0 <= k < right@.len() ==> #[trigger] right@[k] < r.count(),
            forall|a: int, b: int|
                0 <= a < left@.len() && 0 <= b < right@.len() ==> #[trigger] left@[a]
                    < #[trigger] right@[b],
            sorted_by(positions(out@), t),
            positions(out@).to_multiset() == (positions(left@).take(i as int) + positions(
                right@,
            ).take(j as int)).to_multiset(),
            forall|a: int, b: int|
                0 <= a < out@.len() && i <= b < left@.len() ==> t(
                    #[trigger] out@[a] as int,
                    #[trigger] left@[b] as int,
                ),
            forall|a: int, b: int|
                0 <= a < out@.len() && j <= b < right@.len() ==> t(
                    #[trigger] out@[a] as int,
                    #[trigger] right@[b] as int,
                ),
        decreases left@.len() - i + right@.len() - j,
    {
        let take_left: bool = if i >= left.len() {
            false
        } else if j >= right.len() {
            true
        } else {
            r.ranks_at_most(left[i], right[j])
        };
        let ghost before = out@;
        let ghost pl = positions(left@);
        let ghost pr = positions(right@);
        if take_left {
            proof {
                let x = left@[i as int] as int;
                assert forall|b: int| i < b < left@.len() implies t(x, #[trigger] left@[b] as int) by {
                    assert(t(pl[i as int], pl[b]));
                }
                assert forall|b: int| j <= b < right@.len() implies t(
                    x,
                    #[trigger] right@[b] as int,
                ) by {
                    let y = right@[j as int] as int;
                    assert(le(x, y));
                    assert(left@[i as int] < right@[j as int]);
                    assert(t(x, y));
                    if j < b {
                        assert(t(pr[j as int], pr[b]));
                    }
                }
                assert(pl.take(i + 1) =~= pl.take(i as int).push(x));
                lemma_push_multiset(positions(before), pl.take(i as int), pr.take(j as int), x);
            }
            out.push(left[i]);
            i = i + 1;
            proof {
                assert(positions(out@) =~= positions(before).push(left@[i - 1] as int));
                lemma_push_sorted(positions(before), left@[i - 1] as int, t);
            }
        } else {
            proof {
                let y = right@[j as int] as int;
                assert forall|b: int| j < b < right@.len() implies t(y, #[trigger] right@[b] as int) by {
                    assert(t(pr[j as int], pr[b]));
                }
                assert forall|b: int| i <= b < left@.len() implies t(y, #[trigger] left@[b] as int) by {
                    let x = left@[i as int] as int;
                    assert(!le(x, y));
                    assert(le(x, y) || le(y, x));
                    assert(t(y, x));
                    if i < b {
                        assert(t(pl[i as int], pl[b]));
                    }
                }
                assert(pr.take(j + 1) =~= pr.take(j as int).push(y));
                assert(pl.take(i as int) + pr.take(j + 1) =~= (pl.take(i as int) + pr.take(
                    j as int,
                )).push(y));
                broadcast use vstd::seq_lib::group_to_multiset_ensures;

                assert(positions(before).push(y).to_multiset() == positions(
                    before,
                ).to_multiset().insert(y));
            }
            out.push(right[j]);
            j = j + 1;
            proof {
                assert(positions(out@) =~= positions(before).push(right@[j - 1] as int));
                lemma_push_sorted(positions(before), right@[j - 1] as int, t);
            }
        }
    }
    proof {
        assert(positions(left@).take(i as int) =~= positions(left@));
        assert(positions(right@).take(j as int) =~= positions(right@));
    }
    out
}

proof fn lemma_push_multiset(out: Seq<int>, left: Seq<int>, right: Seq<int>, x: int)
    requires
        out.to_multiset() == (left + right).to_multiset(),
    ensures
        out.push(x).to_multiset() == (left.push(x) + right).to_multiset(),
{
    broadcast use vstd::seq_lib::group_to_multiset_ensures;
    broadcast use vstd::multiset::group_multiset_axioms;

    vstd::seq_lib::lemma_multiset_commutative(left, right);
    vstd::seq_lib::lemma_multiset_commutative(left.push(x), right);
    assert(left.to_multiset().insert(x).add(right.to_multiset()) =~= left.to_multiset().add(
        right.to_multiset(),
    ).insert(x));
}

proof fn lemma_push_sorted(s: Seq<int>, x: int, t: spec_fn(int, int) -> bool)
    requires
        sorted_by(s, t),
        forall|a: int| 0 <= a < s.len() ==> t(#[trigger] s[a], x),
    ensures
        sorted_by(s.push(x), t),
{
    assert forall|a: int, b: int| 0 <= a < b < s.push(x).len() implies #[trigger] t(
        s.push(x)[a],
        s.push(x)[b],
    ) by {
        if b < s.len() {
            assert(t(s[a], s[b]));
        } else {
            assert(t(s[a], x));
        }
    }
}

fn sorted_range<R: Ranked>(r: &R, lo: usize, hi: usize) -> (out: Vec<usize>)
    requires
        lo <= hi <= r.count(),
    ensures
        sorted_by(positions(out@), tie_broken(by_rank(*r))),
        positions(out@).to_multiset() == numbers(lo as int, hi as int).to_multiset(),
    decreases hi - lo,
{
    if hi - lo <= 1 {
        let mut out: Vec<usize> = Vec::new();
        if lo < hi {
            out.push(lo);
        }
        assert(positions(out@) =~= numbers(lo as int, hi as int));
        out
    } else {
        let mid = lo + (hi - lo) / 2;
        let left = sorted_range(r, lo, mid);
        let right = sorted_range(r, mid, hi);
        proof {
            lemma_range_members(left@, lo as int, mid as int);
            lemma_range_members(right@, mid as int, hi as int);
            vstd::seq_lib::lemma_multiset_commutative(positions(left@), positions(right@));
            vstd::seq_lib::lemma_multiset_commutative(
                numbers(lo as int, mid as int),
                numbers(mid as int, hi as int),
            );
            assert(numbers(lo as int, hi as int) =~= numbers(lo as int, mid as int) + numbers(
                mid as int,
                hi as int,
            ));
        }
        merge_runs(r, &left, &right)
    }
}

proof fn lemma_range_members(s: Seq<usize>, lo: int, hi: int)
    requires
        lo <= hi,
        positions(s).to_multiset() == numbers(lo, hi).to_multiset(),
    ensures
        forall|k: int| 0 <= k < s.len() ==> lo <= #[trigger] s[k] < hi,
        s.len() == hi - lo,
{
    broadcast use vstd::seq_lib::group_to_multiset_ensures;

    assert forall|k: int| 0 <= k < s.len() implies lo <= #[trigger] s[k] < hi by {
        assert(positions(s)[k] == s[k]);
        assert(positions(s).contains(s[k] as int));
        assert(numbers(lo, hi).to_multiset().count(s[k] as int) > 0);
        assert(numbers(lo, hi).contains(s[k] as int));
        let m = choose|m: int| 0 <= m < numbers(lo, hi).len() && numbers(lo, hi)[m] == s[k] as int;
        assert(numbers(lo, hi)[m] == lo + m);
    }
    assert(positions(s).to_multiset().len() == positions(s).len());
    assert(numbers(lo, hi).to_multiset().len() == numbers(lo, hi).len());
}

proof fn lemma_range_distinct(s: Seq<usize>, n: int)
    requires
        0 <= n,
        positions(s).to_multiset() == numbers(0, n).to_multiset(),
    ensures
        s.no_duplicates(),
{
    assert(numbers(0, n).no_duplicates());
    numbers(0, n).lemma_multiset_has_no_duplicates();
    positions(s).lemma_multiset_has_no_duplicates_conv();
    assert forall|i: int, j: int| 0 <= i < s.len() && 0 <= j < s.len() && i != j implies s[i]
        != s[j] by {
        assert(positions(s)[i] != positions(s)[j]);
    }
}

/// Different positions below `n`, as many as `n`, are all of them.
pub(crate) proof fn lemma_hits_all(s: Seq<usize>, x: usize)
    requires
        s.no_duplicates(),
        forall|k: int| 0 <= k < s.len() ==> #[trigger] s[k] < s.len(),
        x < s.len(),
        s.len() <= usize::MAX,
    ensures
        s.contains(x),
{
    let n = s.len();
    s.unique_seq_to_set();
    let all = Set::new(|i: usize| i < n);
    lemma_below_finite(n);
    assert(s.to_set().subset_of(all));
    vstd::set_lib::lemma_subset_equality(s.to_set(), all);
    assert(s.to_set().contains(x));
}

proof fn lemma_below_finite(n: nat)
    requires
        n <= usize::MAX,
    ensures
        Set::new(|i: usize| i < n).finite(),
        Set::new(|i: usize| i < n).len() == n,
    decreases n,
{
    let all = Set::new(|i: usize| i < n);
    if n == 0 {
        assert(all =~= Set::empty());
    } else {
        lemma_below_finite((n - 1) as nat);
        let fewer = Set::new(|i: usize| i < n - 1);
        assert(fewer =~= Set::new(|i: usize| i < (n - 1) as nat));
        assert(all =~= fewer.insert((n - 1) as usize));
    }
}

/// The positions of the first `n` items in the order of their ranks, stably.
pub(crate) fn ranked_positions<R: Ranked>(r: &R, n: usize) -> (out: Vec<usize>)
    requires
        n == r.count(),
    ensures
        positions(out@) == stable_sorted(
            numbers(0, n as int),
            |i: int, j: int| r.at_most(i, j),
        ),
        forall|k: int| 0 <= k < out@.len() ==> #[trigger] out@[k] < n,
        out@.len() == n,
        out@.no_duplicates(),
        forall|k: int, m: int|
            0 <= k < m < n ==> r.at_most(#[trigger] out@[k] as int, #[trigger] out@[m] as int) && (
            r.at_most(out@[m] as int, out@[k] as int) ==> out@[k] < out@[m]),
{
    let out = sorted_range(r, 0, n);
    proof {
        assert forall|k: int, m: int| 0 <= k < m < out@.len() implies r.at_most(
            #[trigger] out@[k] as int,
            #[trigger] out@[m] as int,
        ) && (r.at_most(out@[m] as int, out@[k] as int) ==> out@[k] <= out@[m]) by {
            let p = positions(out@);
            assert(tie_broken(by_rank(*r))(p[k], p[m]));
        }
        lemma_range_distinct(out@, n as int);
        let le = |i: int, j: int| r.at_most(i, j);
        r.lemma_ranking();
        lemma_range_members(out@, 0, n as int);
        assert(le =~= by_rank(*r));
        lemma_tie_broken_total(le);
        lemma_sorted_numbers(n as int, le);
        vstd::seq_lib::lemma_sorted_unique(
            positions(out@),
            stable_sorted(numbers(0, n as int), le),
            tie_broken(le),
        );
    }
    out
}

} // verus!
