//! What holds of trees and of the positions in them.

use vstd::prelude::*;

#[allow(unused_imports)]
use crate::tree::Tree;

verus! {

/// Positions one behind the other lead from one entry on to the next.
pub proof fn lemma_node_at_further(t: Tree, a: Seq<usize>, b: Seq<usize>)
    requires
        crate::tree::node_at(t, a) is Some,
    ensures
        crate::tree::node_at(t, a + b) == crate::tree::node_at(crate::tree::node_at(t, a)->0, b),
    decreases a.len(),
{
    if a.len() == 0 {
        assert(a + b =~= b);
    } else {
        assert((a + b).drop_first() =~= a.drop_first() + b);
        lemma_node_at_further(t.children[a[0] as int], a.drop_first(), b);
    }
}

/// No positions lead to the entry itself, and one position to the child at it.
pub proof fn lemma_node_at(t: Tree, i: usize)
    ensures
        crate::tree::node_at(t, Seq::empty()) == Some(t),
        crate::tree::node_at(t, seq![i]) == if i < t.children.len() {
            Some(t.children[i as int])
        } else {
            None
        },
{
    assert(seq![i].drop_first() =~= Seq::<usize>::empty());
    if i < t.children.len() {
        assert(crate::tree::node_at(t.children[i as int], seq![i].drop_first()) == Some(
            t.children[i as int],
        ));
    }
}

/// The entries of a tree are the entry itself and then those of its children,
/// child by child.
pub proof fn lemma_preorder(t: Tree)
    ensures
        crate::tree::preorder(t) == seq![t] + t.children.map_values(
            |c: Tree| crate::tree::preorder(c),
        ).flatten(),
{
    lemma_preorder_flat(t.children);
}

proof fn lemma_preorder_flat(ts: Seq<Tree>)
    ensures
        crate::tree::preorder_all(ts) == ts.map_values(
            |c: Tree| crate::tree::preorder(c),
        ).flatten(),
    decreases ts.len(),
{
    let f = |c: Tree| crate::tree::preorder(c);
    let all = ts.map_values(f);
    all.lemma_flatten_and_flatten_alt_are_equivalent();
    if ts.len() > 0 {
        let d = ts.drop_last();
        lemma_preorder_flat(d);
        assert(all.drop_last() =~= d.map_values(f));
        d.map_values(f).lemma_flatten_and_flatten_alt_are_equivalent();
        assert(all.last() == crate::tree::preorder(ts.last()));
    } else {
        assert(all.len() == 0);
    }
}

/// Every entry that positions lead to is among the entries of the tree.
pub proof fn lemma_listed_in_preorder(t: Tree, at: Seq<usize>)
    requires
        crate::tree::node_at(t, at) is Some,
    ensures
        crate::tree::preorder(t).contains(crate::tree::node_at(t, at)->0),
        at.len() > 0 ==> crate::tree::preorder_all(t.children).contains(
            crate::tree::node_at(t, at)->0,
        ),
    decreases at.len(),
{
    let all = crate::tree::preorder(t);
    let below = crate::tree::preorder_all(t.children);
    if at.len() == 0 {
        assert(all[0] == t);
    } else {
        let n = crate::tree::node_at(t, at)->0;
        let i = at[0] as int;
        lemma_listed_in_preorder(t.children[i], at.drop_first());
        lemma_among(t.children, i, n);
        let k = choose|k: int| 0 <= k < below.len() && below[k] == n;
        assert(all[k + 1] == n);
    }
}

proof fn lemma_among(ts: Seq<Tree>, i: int, n: Tree)
    requires
        0 <= i < ts.len(),
        crate::tree::preorder(ts[i]).contains(n),
    ensures
        crate::tree::preorder_all(ts).contains(n),
    decreases ts.len(),
{
    let d = ts.drop_last();
    let earlier = crate::tree::preorder_all(d);
    let last = crate::tree::preorder(ts.last());
    let all = crate::tree::preorder_all(ts);
    if i < d.len() {
        lemma_among(d, i, n);
        let k = choose|k: int| 0 <= k < earlier.len() && earlier[k] == n;
        assert(all[k] == n);
    } else {
        let k = choose|k: int| 0 <= k < last.len() && last[k] == n;
        assert(all[earlier.len() + k] == n);
    }
}

/// To every entry of a tree positions lead, and to every entry below the root at
/// least one.
pub proof fn lemma_preorder_reached(t: Tree, k: int) -> (at: Seq<usize>)
    requires
        crate::tree::countable(t),
        0 <= k < crate::tree::preorder(t).len(),
    ensures
        crate::tree::node_at(t, at) == Some(crate::tree::preorder(t)[k]),
        k > 0 <==> at.len() > 0,
    decreases t, 1int,
{
    if k == 0 {
        Seq::empty()
    } else {
        let (i, below) = lemma_forest_reached(t.children, k - 1);
        let at = seq![i as usize] + below;
        assert(at.drop_first() =~= below);
        at
    }
}

proof fn lemma_forest_reached(ts: Seq<Tree>, k: int) -> (res: (int, Seq<usize>))
    requires
        forall|i: int| 0 <= i < ts.len() ==> crate::tree::countable(#[trigger] ts[i]),
        0 <= k < crate::tree::preorder_all(ts).len(),
    ensures
        0 <= res.0 < ts.len(),
        crate::tree::node_at(ts[res.0], res.1) == Some(crate::tree::preorder_all(ts)[k]),
    decreases ts, 0int,
{
    let d = ts.drop_last();
    let earlier = crate::tree::preorder_all(d);
    if k < earlier.len() {
        assert forall|i: int| 0 <= i < d.len() implies crate::tree::countable(#[trigger] d[i]) by {
            assert(ts[i] == d[i]);
        }
        lemma_forest_reached(d, k)
    } else {
        assert(crate::tree::countable(ts[ts.len() - 1]));
        let at = lemma_preorder_reached(ts.last(), k - earlier.len());
        (ts.len() - 1, at)
    }
}

/// Whether every entry of a tree has a path below that of the entry it lies in,
/// as the entries of a scanned directory have.
pub open spec fn nested(t: Tree) -> bool
    decreases t,
{
    forall|i: int|
        0 <= i < t.children.len() ==> crate::paths::lies_under(
            (#[trigger] t.children[i]).path,
            t.path,
        ) && nested(t.children[i])
}

/// In such a tree, what positions lead to has a path at or below that of every
/// entry on the way.
pub proof fn lemma_nested(t: Tree, at: Seq<usize>)
    requires
        nested(t),
        crate::tree::node_at(t, at) is Some,
    ensures
        crate::paths::lies_under(crate::tree::node_at(t, at)->0.path, t.path),
        nested(crate::tree::node_at(t, at)->0),
    decreases at.len(),
{
    if at.len() == 0 {
        crate::paths::lemma_lies_under(t.path, t.path, t.path);
    } else {
        let child = t.children[at[0] as int];
        lemma_nested(child, at.drop_first());
        crate::paths::lemma_lies_under(
            crate::tree::node_at(t, at)->0.path,
            child.path,
            t.path,
        );
    }
}

/// In such a tree, entries of which neither path is at or below the other stand
/// apart: neither lies within the other.
pub proof fn lemma_nested_apart(t: Tree, a: Seq<usize>, b: Seq<usize>)
    requires
        nested(t),
        crate::tree::node_at(t, a) is Some,
        crate::tree::node_at(t, b) is Some,
        !crate::paths::lies_under(
            crate::tree::node_at(t, a)->0.path,
            crate::tree::node_at(t, b)->0.path,
        ),
    ensures
        !b.is_prefix_of(a),
{
    if b.is_prefix_of(a) {
        let rest = a.skip(b.len() as int);
        assert(a =~= b + rest) by {
            assert forall|i: int| 0 <= i < b.len() implies a[i] == b[i] by {
                assert(a.subrange(0, b.len() as int)[i] == b[i]);
            }
        }
        lemma_node_at_further(t, b, rest);
        lemma_nested(t, b);
        lemma_nested(crate::tree::node_at(t, b)->0, rest);
    }
}

/// Positions that do not all exist lead to the last entry on their way: the
/// longest part of them that exists cannot be made longer.
pub proof fn lemma_valid_prefix_longest(t: Tree, indices: Seq<usize>, k: int)
    requires
        0 <= k <= indices.len(),
        crate::tree::node_at(t, indices.take(k)) is Some,
    ensures
        k <= crate::tree::valid_prefix(t, indices).len(),
    decreases k,
{
    if k > 0 {
        assert(indices.take(k).drop_first() =~= indices.drop_first().take(k - 1));
        lemma_valid_prefix_longest(
            t.children[indices[0] as int],
            indices.drop_first(),
            k - 1,
        );
    }
}

/// The first entry with a path is the one before which no entry has it, and
/// there is one where any entry has it.
pub proof fn lemma_first_at(ts: Seq<Tree>, path: Seq<u8>, n: int) -> (k: int)
    requires
        0 <= n < ts.len(),
        crate::paths::parts(ts[n].path) == crate::paths::parts(path),
    ensures
        0 <= k <= n,
        crate::tree::first_at(ts, path) == Some(ts[k]),
        crate::paths::parts(ts[k].path) == crate::paths::parts(path),
        forall|i: int|
            0 <= i < k ==> crate::paths::parts((#[trigger] ts[i]).path) != crate::paths::parts(
                path,
            ),
    decreases ts.len(),
{
    if crate::paths::parts(ts[0].path) == crate::paths::parts(path) {
        0
    } else {
        let rest = ts.drop_first();
        assert(rest[n - 1] == ts[n]);
        let k = lemma_first_at(rest, path, n - 1) + 1;
        assert(rest[k - 1] == ts[k]);
        assert forall|i: int| 0 <= i < k implies crate::paths::parts((#[trigger] ts[i]).path)
            != crate::paths::parts(path) by {
            if i > 0 {
                assert(rest[i - 1] == ts[i]);
            }
        }
        k
    }
}

} // verus!
