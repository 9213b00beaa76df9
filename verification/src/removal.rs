//! Removing entries from a scanned tree without scanning it again.

use vstd::prelude::*;

use crate::order::{ranked_positions, Ranked};
use crate::paths::EntryPath;
use crate::tree::EntryNode;
#[allow(unused_imports)]
use crate::tree::Tree;

verus! {

/// An entry to delete: its path, where it stands in the tree, and what it
/// adds to the totals of the entries above it.
#[derive(Debug)]
pub struct DeleteTarget {
    pub path: EntryPath,
    pub indices: Vec<usize>,
    pub size: u64,
    pub file_count: u64,
    pub dir_count: u64,
    pub error_count: u64,
}

/// The contents of an entry to delete.
pub struct Target {
    pub path: Seq<u8>,
    pub indices: Seq<usize>,
    pub size: u64,
    pub file_count: u64,
    pub dir_count: u64,
    pub error_count: u64,
}

impl View for DeleteTarget {
    type V = Target;

    open spec fn view(&self) -> Target {
        Target {
            path: self.path@,
            indices: self.indices@,
            size: self.size,
            file_count: self.file_count,
            dir_count: self.dir_count,
            error_count: self.error_count,
        }
    }
}

/// The contents of several entries to delete.
pub open spec fn targets(v: Seq<DeleteTarget>) -> Seq<Target> {
    v.map_values(|t: DeleteTarget| t@)
}

impl Clone for DeleteTarget {
    fn clone(&self) -> (res: Self)
        ensures
            res@ == self@,
    {
        DeleteTarget {
            path: self.path.clone(),
            indices: vstd::slice::slice_to_vec(self.indices.as_slice()),
            size: self.size,
            file_count: self.file_count,
            dir_count: self.dir_count,
            error_count: self.error_count,
        }
    }
}

/// A difference of counts, zero where it would be negative.
pub open spec fn less(a: u64, b: u64) -> u64 {
    if a < b {
        0
    } else {
        (a - b) as u64
    }
}

/// An entry without what a deleted entry added to its totals.
pub open spec fn without_totals(t: Tree, gone: Target) -> Tree {
    Tree {
        size: less(t.size, gone.size),
        file_count: less(t.file_count, gone.file_count),
        dir_count: less(t.dir_count, gone.dir_count),
        error_count: less(t.error_count, gone.error_count),
        ..t
    }
}

/// A tree without the entry at the given child positions, if that entry has
/// the path of the deleted one. All entries above it lose its totals.
pub open spec fn removed_at(t: Tree, gone: Target, indices: Seq<usize>) -> Option<Tree>
    decreases indices.len(),
{
    if indices.len() == 0 || indices[0] >= t.children.len() {
        None
    } else {
        let i = indices[0] as int;
        if indices.len() == 1 {
            if crate::paths::parts(t.children[i].path) == crate::paths::parts(gone.path) {
                Some(without_totals(Tree { children: t.children.remove(i), ..t }, gone))
            } else {
                None
            }
        } else {
            match removed_at(t.children[i], gone, indices.drop_first()) {
                Some(child) => Some(
                    without_totals(Tree { children: t.children.update(i, child), ..t }, gone),
                ),
                None => None,
            }
        }
    }
}

/// A tree without one deleted entry; the same tree where that entry does not
/// stand where it should.
pub open spec fn removed_one(t: Tree, gone: Target) -> Tree {
    match removed_at(t, gone, gone.indices) {
        Some(r) => r,
        None => t,
    }
}

/// A tree without several deleted entries, removed one after the other.
pub open spec fn removed_in_turn(t: Tree, gone: Seq<Target>) -> Tree
    decreases gone.len(),
{
    if gone.len() == 0 {
        t
    } else {
        removed_one(removed_in_turn(t, gone.drop_last()), gone.last())
    }
}

/// Whether child positions come before others or equal them.
pub open spec fn indices_le(a: Seq<usize>, b: Seq<usize>) -> bool {
    crate::order::lex_le(a, b, |x: usize, y: usize| x <= y)
}

/// Deleted entries from the last in the tree to the first, so that removing
/// one moves none that is still to be removed.
pub open spec fn removal_order(gone: Seq<Target>) -> Seq<Target> {
    crate::order::stable_sorted(
        gone,
        |a: Target, b: Target| indices_le(b.indices, a.indices),
    )
}

/// A tree without several deleted entries.
pub open spec fn removed_all(t: Tree, gone: Seq<Target>) -> Tree {
    removed_in_turn(t, removal_order(gone))
}

/// Child positions after the entry at `gone` was removed: those at or below
/// it lead to where it was listed, and a later sibling moves up.
pub open spec fn adjusted(current: Seq<usize>, gone: Seq<usize>) -> Seq<usize> {
    if gone.is_prefix_of(current) {
        current.take(if gone.len() > 0 {
            gone.len() - 1
        } else {
            0
        })
    } else {
        let d = gone.len() - 1;
        if d < current.len() && gone.drop_last().is_prefix_of(current) && gone.last()
            < current[d] {
            current.update(d, (current[d] - 1) as usize)
        } else {
            current
        }
    }
}

/// Child positions after several entries were removed, taken in order.
pub open spec fn adjusted_in_turn(current: Seq<usize>, gone: Seq<Target>) -> Seq<usize>
    decreases gone.len(),
{
    if gone.len() == 0 {
        current
    } else {
        adjusted(adjusted_in_turn(current, gone.drop_last()), gone.last().indices)
    }
}

/// Whether the first child positions start with the second.
fn starts_with_indices(current: &Vec<usize>, prefix: &[usize], count: usize) -> (res: bool)
    requires
        count <= prefix@.len(),
    ensures
        res == prefix@.take(count as int).is_prefix_of(current@),
{
    let ghost p = prefix@.take(count as int);
    if count > current.len() {
        return false;
    }
    let mut i: usize = 0;
    while i < count
        invariant
            count <= prefix@.len(),
            count <= current@.len(),
            p == prefix@.take(count as int),
            i <= count,
            forall|k: int| 0 <= k < i ==> p[k] == current@[k],
        decreases count - i,
    {
        if prefix[i] != current[i] {
            proof {
                if p.is_prefix_of(current@) {
                    assert(current@.subrange(0, p.len() as int)[i as int] == current@[i as int]);
                }
            }
            return false;
        }
        i = i + 1;
    }
    assert(p =~= current@.subrange(0, p.len() as int));
    true
}

/// Child positions after entries were removed from the tree.
pub fn adjust_indices_after_removals(current: &[usize], removed: &[DeleteTarget]) -> (res: Vec<
    usize,
>)
    ensures
        res@ == adjusted_in_turn(current@, targets(removed@)),
{
    let mut next: Vec<usize> = vstd::slice::slice_to_vec(current);
    let ghost all = targets(removed@);
    let mut n: usize = 0;
    assert(all.take(0) =~= Seq::<Target>::empty());
    while n < removed.len()
        invariant
            all == targets(removed@),
            n <= removed@.len(),
            next@ == adjusted_in_turn(current@, all.take(n as int)),
        decreases removed@.len() - n,
    {
        let gone = &removed[n].indices;
        let ghost before = next@;
        proof {
            assert(all.take(n + 1).drop_last() =~= all.take(n as int));
            assert(all.take(n + 1).last().indices == gone@);
            assert(gone@.take(gone@.len() as int) =~= gone@);
        }
        if starts_with_indices(&next, gone.as_slice(), gone.len()) {
            if gone.len() > 0 {
                next.truncate(gone.len() - 1);
            } else {
                next.truncate(0);
            }
            proof {
                let k: int = if gone@.len() > 0 {
                    gone@.len() - 1
                } else {
                    0
                };
                assert(gone@.len() <= before.len());
                assert(next@ =~= before.take(k));
            }
        } else if gone.len() > 0 {
            let d: usize = gone.len() - 1;
            let at = gone[d];
            assert(gone@.drop_last() =~= gone@.take(d as int));
            if d < next.len() && starts_with_indices(&next, gone.as_slice(), d) && at < next[d] {
                let moved = next[d] - 1;
                next.set(d, moved);
            }
        } else {
            assert(gone@.is_prefix_of(before)) by {
                assert(gone@ =~= before.subrange(0, 0));
            }
        }
        n = n + 1;
    }
    assert(all.take(n as int) =~= all);
    next
}

fn subtract_target_totals(node: &mut EntryNode, target: &DeleteTarget)
    ensures
        final(node)@ == without_totals(old(node)@, target@),
{
    broadcast use crate::tree::lemma_children;

    let ghost before = node@;
    node.size = node.size.saturating_sub(target.size);
    node.file_count = node.file_count.saturating_sub(target.file_count);
    node.dir_count = node.dir_count.saturating_sub(target.dir_count);
    node.error_count = node.error_count.saturating_sub(target.error_count);
    assert(node@.children =~= before.children);
}

fn remove_target(node: &mut EntryNode, target: &DeleteTarget, indices: &[usize], at: usize) -> (res:
    bool)
    requires
        at <= indices@.len(),
    ensures
        match removed_at(old(node)@, target@, indices@.skip(at as int)) {
            Some(t) => res && final(node)@ == t,
            None => !res && final(node)@ == old(node)@,
        },
    decreases indices@.len() - at,
{
    broadcast use crate::tree::lemma_children;

    if at == indices.len() {
        return false;
    }
    let i = indices[at];
    let ghost before = node@;
    assert(indices@.skip(at as int).drop_first() =~= indices@.skip(at + 1));
    if i >= node.children.len() {
        return false;
    }
    let removed: bool = if at + 1 == indices.len() {
        if node.children[i].path.same_path(&target.path) {
            let gone = node.children.remove(i);
            assert(node@.children =~= before.children.remove(i as int));
            true
        } else {
            false
        }
    } else {
        let inner = remove_target(&mut node.children[i], target, indices, at + 1);
        proof {
            assert(node@.children =~= before.children.update(i as int, node@.children[i as int]));
            if !inner {
                assert(node@.children =~= before.children);
            }
        }
        inner
    };
    if removed {
        subtract_target_totals(node, target);
    }
    removed
}

struct RemovalOrder<'a> {
    targets: &'a [DeleteTarget],
}

impl<'a> RemovalOrder<'a> {
    spec fn key(&self, i: int) -> Seq<usize> {
        self.targets@[i].indices@
    }
}

proof fn lemma_indices_le_total()
    ensures
        vstd::relations::total_ordering(|a: Seq<usize>, b: Seq<usize>| indices_le(a, b)),
{
    let le = |x: usize, y: usize| x <= y;
    crate::order::lemma_lex_total(le);
    assert((|a: Seq<usize>, b: Seq<usize>| indices_le(a, b)) =~= (|a: Seq<usize>, b: Seq<usize>|
        crate::order::lex_le(a, b, le)));
}

/// Whether child positions come before others or equal them.
fn indices_at_most(a: &Vec<usize>, b: &Vec<usize>) -> (res: bool)
    ensures
        res == indices_le(a@, b@),
{
    let ghost le = |x: usize, y: usize| x <= y;
    let mut i: usize = 0;
    while i < a.len() && i < b.len() && a[i] == b[i]
        invariant
            i <= a@.len(),
            i <= b@.len(),
            forall|k: int| 0 <= k < i ==> a@[k] == b@[k],
        decreases a@.len() - i,
    {
        i = i + 1;
    }
    proof {
        crate::order::lemma_lex_common_prefix(a@, b@, i as int, le);
    }
    if i >= a.len() {
        true
    } else if i >= b.len() {
        false
    } else {
        a[i] < b[i]
    }
}

impl<'a> Ranked for RemovalOrder<'a> {
    closed spec fn count(&self) -> nat {
        self.targets@.len()
    }

    closed spec fn at_most(&self, i: int, j: int) -> bool {
        indices_le(self.key(j), self.key(i))
    }

    proof fn lemma_ranking(&self) {
        let le = |i: int, j: int| self.at_most(i, j);
        let il = |a: Seq<usize>, b: Seq<usize>| indices_le(a, b);
        lemma_indices_le_total();
        assert forall|a: int, b: int, c: int| #[trigger]
            le(a, b) && #[trigger] le(b, c) implies le(a, c) by {
            assert(il(self.key(b), self.key(a)) && il(self.key(c), self.key(b)));
            assert(il(self.key(c), self.key(a)));
        }
        assert forall|a: int, b: int| #[trigger] le(a, b) || #[trigger] le(b, a) by {
            assert(il(self.key(a), self.key(b)) || il(self.key(b), self.key(a)));
        }
    }

    fn ranks_at_most(&self, i: usize, j: usize) -> (res: bool) {
        indices_at_most(&self.targets[j].indices, &self.targets[i].indices)
    }
}

/// Removes deleted entries from the tree and from the totals above them.
pub fn remove_targets_from_tree(root: &mut EntryNode, gone: &[DeleteTarget])
    ensures
        final(root)@ == removed_all(old(root)@, targets(gone@)),
{
    let order = RemovalOrder { targets: gone };
    let sorted = ranked_positions(&order, gone.len());
    let ghost start = root@;
    let ghost le = |a: Target, b: Target| indices_le(b.indices, a.indices);
    let ghost turn = removal_order(targets(gone@));
    proof {
        let f = |i: int| gone@[i]@;
        let n = crate::order::numbers(0, gone@.len() as int);
        let by_target = |i: int, j: int| le(f(i), f(j));
        let by_key = |i: int, j: int| order.at_most(i, j);
        assert(n.map_values(f) =~= targets(gone@));
        crate::order::lemma_stable_sorted_map(n, f, le);
        assert(by_target =~= by_key);
        assert forall|k: int| 0 <= k < sorted@.len() implies #[trigger] turn[k]
            == gone@[sorted@[k] as int]@ by {
            assert(crate::order::positions(sorted@)[k] == sorted@[k] as int);
        }
        assert(turn.len() == sorted@.len());
        assert(turn.take(0) =~= Seq::<Target>::empty());
    }
    let mut n: usize = 0;
    while n < sorted.len()
        invariant
            turn.len() == sorted@.len(),
            forall|k: int| 0 <= k < sorted@.len() ==> #[trigger] sorted@[k] < gone@.len(),
            forall|k: int|
                0 <= k < sorted@.len() ==> #[trigger] turn[k] == gone@[sorted@[k] as int]@,
            n <= sorted@.len(),
            root@ == removed_in_turn(start, turn.take(n as int)),
        decreases sorted@.len() - n,
    {
        let at = sorted[n];
        let target = &gone[at];
        proof {
            assert(turn.take(n + 1).drop_last() =~= turn.take(n as int));
            assert(turn.take(n + 1).last() == target@);
            assert(target.indices@.skip(0) =~= target.indices@);
        }
        remove_target(root, target, target.indices.as_slice(), 0);
        n = n + 1;
    }
    assert(turn.take(n as int) =~= turn);
}

/// Whether neither of two lists of child positions starts with the other: of
/// the entries at them, neither lies within the other.
pub open spec fn apart(a: Seq<usize>, b: Seq<usize>) -> bool {
    !a.is_prefix_of(b) && !b.is_prefix_of(a)
}

/// Whether of several deleted entries none is within another.
pub open spec fn all_apart(gone: Seq<Target>) -> bool {
    forall|i: int, j: int|
        0 <= i < gone.len() && 0 <= j < gone.len() && i != j ==> apart(
            (#[trigger] gone[i]).indices,
            (#[trigger] gone[j]).indices,
        )
}

/// Whether the entry to delete stands where it should.
pub open spec fn stands(t: Tree, gone: Target) -> bool {
    gone.indices.len() > 0 && (crate::tree::node_at(t, gone.indices) matches Some(n) && crate::paths::parts(
        n.path,
    ) == crate::paths::parts(gone.path))
}

/// Whether two entries are the same but for what is below them and the totals.
pub open spec fn same_entry(a: Tree, b: Tree) -> bool {
    &&& a.path == b.path
    &&& a.name == b.name
    &&& a.kind == b.kind
    &&& a.direct_size == b.direct_size
    &&& a.error == b.error
}

/// An entry that stands where it should is removed, and only such an entry.
pub proof fn lemma_removed(t: Tree, gone: Target)
    ensures
        stands(t, gone) <==> removed_at(t, gone, gone.indices) is Some,
        !stands(t, gone) ==> removed_one(t, gone) == t,
{
    lemma_removed_at(t, gone, gone.indices);
}

proof fn lemma_removed_at(t: Tree, gone: Target, indices: Seq<usize>)
    ensures
        removed_at(t, gone, indices) is Some <==> indices.len() > 0 && (crate::tree::node_at(
            t,
            indices,
        ) matches Some(n) && crate::paths::parts(n.path) == crate::paths::parts(gone.path)),
    decreases indices.len(),
{
    if indices.len() > 0 && indices[0] < t.children.len() {
        let child = t.children[indices[0] as int];
        let rest = indices.drop_first();
        if indices.len() > 1 {
            lemma_removed_at(child, gone, rest);
        } else {
            assert(crate::tree::node_at(child, rest) == Some(child));
        }
    }
}

/// Adjusting positions goes down the tree with the entry that was removed.
proof fn lemma_adjusted_below(current: Seq<usize>, gone: Seq<usize>)
    requires
        gone.len() > 1,
        current.len() > 0,
        current[0] == gone[0],
    ensures
        adjusted(current, gone) == seq![gone[0]] + adjusted(
            current.drop_first(),
            gone.drop_first(),
        ),
{
    let c = current.drop_first();
    let g = gone.drop_first();
    crate::tree::lemma_prefix_step(gone, current);
    assert(gone.drop_last().drop_first() =~= g.drop_last());
    if gone.drop_last().len() > 0 {
        crate::tree::lemma_prefix_step(gone.drop_last(), current);
    }
    let d = gone.len() - 1;
    if gone.is_prefix_of(current) {
        assert(current.take(gone.len() - 1) =~= seq![gone[0]] + c.take(g.len() - 1));
    } else if d < current.len() && gone.drop_last().is_prefix_of(current) && gone.last()
        < current[d] {
        assert(c[d - 1] == current[d]);
        assert(g.last() == gone.last());
        assert(current.update(d, (current[d] - 1) as usize) =~= seq![gone[0]] + c.update(
            d - 1,
            (c[d - 1] - 1) as usize,
        ));
    } else {
        assert(g.last() == gone.last());
        if d < current.len() {
            assert(c[d - 1] == current[d]);
        }
        assert(current =~= seq![gone[0]] + c);
    }
}

/// Removing an entry leaves every entry outside of it. Those that it did not
/// lie in stay as they are, at their adjusted positions; those that it lay in
/// keep all but their totals and their children.
pub proof fn lemma_removed_elsewhere(t: Tree, gone: Target, other: Seq<usize>)
    requires
        stands(t, gone),
        crate::tree::node_at(t, other) is Some,
        !gone.indices.is_prefix_of(other),
    ensures
        ({
            let after = crate::tree::node_at(removed_one(t, gone), adjusted(other, gone.indices));
            &&& after is Some
            &&& same_entry(after->0, crate::tree::node_at(t, other)->0)
            &&& !other.is_prefix_of(gone.indices) ==> after == crate::tree::node_at(t, other)
        }),
{
    lemma_removed(t, gone);
    lemma_elsewhere(t, gone, gone.indices, other);
}

proof fn lemma_elsewhere(t: Tree, gone: Target, indices: Seq<usize>, other: Seq<usize>)
    requires
        removed_at(t, gone, indices) is Some,
        crate::tree::node_at(t, other) is Some,
        !indices.is_prefix_of(other),
    ensures
        ({
            let after = crate::tree::node_at(removed_at(t, gone, indices)->0, adjusted(other, indices));
            &&& after is Some
            &&& same_entry(after->0, crate::tree::node_at(t, other)->0)
            &&& !other.is_prefix_of(indices) ==> after == crate::tree::node_at(t, other)
        }),
    decreases indices.len(),
{
    let r = removed_at(t, gone, indices)->0;
    let i = indices[0] as int;
    let moved = adjusted(other, indices);
    if other.len() == 0 {
        assert(other =~= indices.subrange(0, 0));
        assert(moved =~= other);
    } else {
        crate::tree::lemma_prefix_step(indices, other);
        if indices.len() == 1 {
            assert(indices.drop_first() =~= other.drop_first().subrange(0, 0));
            assert(indices.drop_first().is_prefix_of(other.drop_first()));
            assert(other[0] != i);
            assert(indices.drop_last() =~= other.subrange(0, 0));
            assert(moved.drop_first() =~= other.drop_first());
        } else if other[0] == i {
            let child = t.children[i];
            lemma_adjusted_below(other, indices);
            crate::tree::lemma_prefix_step(other, indices);
            lemma_elsewhere(child, gone, indices.drop_first(), other.drop_first());
            assert(moved.drop_first() =~= adjusted(other.drop_first(), indices.drop_first()));
        } else {
            assert(indices.drop_last()[0] == indices[0]);
            crate::tree::lemma_prefix_step(indices.drop_last(), other);
            assert(moved == other);
        }
    }
}

/// Where the entry at given positions, or one that it lay in, was removed, the
/// adjusted positions lead to the entry that the removed one was listed in.
pub proof fn lemma_removed_around(t: Tree, gone: Target, other: Seq<usize>)
    requires
        stands(t, gone),
        gone.indices.is_prefix_of(other),
    ensures
        adjusted(other, gone.indices) == gone.indices.drop_last(),
        crate::tree::node_at(removed_one(t, gone), gone.indices.drop_last()) is Some,
        crate::tree::node_at(t, gone.indices.drop_last()) is Some,
        same_entry(
            crate::tree::node_at(removed_one(t, gone), gone.indices.drop_last())->0,
            crate::tree::node_at(t, gone.indices.drop_last())->0,
        ),
{
    let g = gone.indices;
    let up = g.drop_last();
    assert(adjusted(other, g) =~= up) by {
        assert forall|k: int| 0 <= k < up.len() implies other.take(g.len() - 1)[k] == up[k] by {
            assert(g[k] == other.subrange(0, g.len() as int)[k]);
        }
    }
    lemma_parent_stands(t, g);
    assert(!g.is_prefix_of(up));
    lemma_removed_elsewhere(t, gone, up);
    assert(adjusted(up, g) == up) by {
        assert(!(g.len() - 1 < up.len()));
    }
}

/// The entry that a removed one was listed in has all its other children, in
/// their order, and not the removed one.
pub proof fn lemma_removed_children(t: Tree, gone: Target)
    requires
        stands(t, gone),
    ensures
        ({
            let up = gone.indices.drop_last();
            let before = crate::tree::node_at(t, up);
            let after = crate::tree::node_at(removed_one(t, gone), up);
            &&& before is Some && after is Some
            &&& gone.indices.last() < before->0.children.len()
            &&& after->0.children == before->0.children.remove(gone.indices.last() as int)
        }),
{
    lemma_removed(t, gone);
    lemma_children_without(t, gone, gone.indices);
}

proof fn lemma_children_without(t: Tree, gone: Target, indices: Seq<usize>)
    requires
        removed_at(t, gone, indices) is Some,
    ensures
        ({
            let up = indices.drop_last();
            let before = crate::tree::node_at(t, up);
            let after = crate::tree::node_at(removed_at(t, gone, indices)->0, up);
            &&& before is Some && after is Some
            &&& indices.last() < before->0.children.len()
            &&& after->0.children == before->0.children.remove(indices.last() as int)
        }),
    decreases indices.len(),
{
    if indices.len() > 1 {
        let child = t.children[indices[0] as int];
        lemma_children_without(child, gone, indices.drop_first());
        assert(indices.drop_last().drop_first() =~= indices.drop_first().drop_last());
        assert(indices.drop_first().last() == indices.last());
    }
}

/// Where there is an entry, there is the one that it lies in.
pub(crate) proof fn lemma_parent_stands(t: Tree, indices: Seq<usize>)
    requires
        indices.len() > 0,
        crate::tree::node_at(t, indices) is Some,
    ensures
        crate::tree::node_at(t, indices.drop_last()) is Some,
    decreases indices.len(),
{
    if indices.len() > 1 {
        lemma_parent_stands(t.children[indices[0] as int], indices.drop_first());
        assert(indices.drop_last().drop_first() =~= indices.drop_first().drop_last());
    }
}

/// Whether deleted entries are listed from the last in the tree to the first,
/// none of them within another.
pub open spec fn removable(gone: Seq<Target>) -> bool {
    forall|i: int, j: int|
        0 <= i < j < gone.len() ==> indices_le(
            (#[trigger] gone[j]).indices,
            (#[trigger] gone[i]).indices,
        ) && apart(gone[i].indices, gone[j].indices)
}

/// Where two lists of positions part, and how.
proof fn lemma_apart(a: Seq<usize>, b: Seq<usize>) -> (d: int)
    requires
        apart(a, b),
        indices_le(a, b),
    ensures
        0 <= d < a.len(),
        d < b.len(),
        a[d] < b[d],
        forall|k: int| 0 <= k < d ==> a[k] == b[k],
    decreases a.len(),
{
    let le = |x: usize, y: usize| x <= y;
    if a.len() == 0 {
        assert(a =~= b.subrange(0, 0));
        0
    } else if b.len() == 0 {
        assert(b =~= a.subrange(0, 0));
        0
    } else if a[0] == b[0] {
        crate::tree::lemma_prefix_step(a, b);
        crate::tree::lemma_prefix_step(b, a);
        crate::order::lemma_lex_common_prefix(a, b, 1, le);
        assert(a.skip(1) =~= a.drop_first());
        assert(b.skip(1) =~= b.drop_first());
        let d = lemma_apart(a.drop_first(), b.drop_first());
        assert forall|k: int| 0 <= k < d + 1 implies a[k] == b[k] by {
            if k > 0 {
                assert(a.drop_first()[k - 1] == b.drop_first()[k - 1]);
            }
        }
        d + 1
    } else {
        crate::order::lemma_lex_common_prefix(a, b, 0, le);
        0
    }
}

/// Removing a later entry moves no earlier one.
proof fn lemma_earlier_stays(a: Seq<usize>, b: Seq<usize>)
    requires
        apart(a, b),
        indices_le(a, b),
    ensures
        adjusted(a, b) == a,
{
    let d = lemma_apart(a, b);
    if b.drop_last().is_prefix_of(a) && b.len() - 1 < a.len() {
        let last = b.len() - 1;
        if d < last {
            assert(b.drop_last()[d] == a.subrange(0, last)[d]);
        }
        assert(d == last);
    }
}

/// Removing a later entry brings no position below an earlier one.
proof fn lemma_stays_outside(a: Seq<usize>, b: Seq<usize>, other: Seq<usize>)
    requires
        apart(a, b),
        indices_le(a, b),
        !a.is_prefix_of(other),
        !b.is_prefix_of(other),
    ensures
        !a.is_prefix_of(adjusted(other, b)),
{
    let d = lemma_apart(a, b);
    let moved = adjusted(other, b);
    let last = b.len() - 1;
    if a.is_prefix_of(moved) {
        assert forall|k: int| 0 <= k < a.len() implies a[k] == moved[k] by {
            assert(a[k] == moved.subrange(0, a.len() as int)[k]);
        }
        if moved != other {
            assert(b.drop_last().is_prefix_of(other));
            assert forall|k: int| 0 <= k < last implies b[k] == other[k] by {
                assert(b.drop_last()[k] == other.subrange(0, last)[k]);
            }
            if d < last {
                assert(a[d] == moved[d]);
                assert(moved[d] == other[d]);
            }
            assert(d == last);
        }
    }
}

/// Deleted entries, none within another, leave every entry outside of them:
/// where the positions are adjusted in the order in which the entries are
/// removed, they lead to the entry that they led to before.
pub proof fn lemma_removed_in_turn(t: Tree, gone: Seq<Target>, other: Seq<usize>)
    requires
        removable(gone),
        forall|i: int| 0 <= i < gone.len() ==> stands(t, #[trigger] gone[i]),
        crate::tree::node_at(t, other) is Some,
        forall|i: int| 0 <= i < gone.len() ==> !(#[trigger] gone[i]).indices.is_prefix_of(other),
    ensures
        crate::tree::node_at(removed_in_turn(t, gone), adjusted_in_turn(other, gone)) is Some,
        same_entry(
            crate::tree::node_at(removed_in_turn(t, gone), adjusted_in_turn(other, gone))->0,
            crate::tree::node_at(t, other)->0,
        ),
{
    lemma_turn(t, gone, gone.len() as int, other);
    assert(gone.take(gone.len() as int) =~= gone);
}

/// After the first `k` of several entries were removed, the others stand where
/// they should, and positions outside of all of them are so still.
pub(crate) proof fn lemma_turn(t: Tree, gone: Seq<Target>, k: int, other: Seq<usize>)
    requires
        removable(gone),
        forall|i: int| 0 <= i < gone.len() ==> stands(t, #[trigger] gone[i]),
        0 <= k <= gone.len(),
        crate::tree::node_at(t, other) is Some,
        forall|i: int| 0 <= i < gone.len() ==> !(#[trigger] gone[i]).indices.is_prefix_of(other),
    ensures
        ({
            let now = removed_in_turn(t, gone.take(k));
            let at = adjusted_in_turn(other, gone.take(k));
            &&& crate::tree::node_at(now, at) is Some
            &&& same_entry(crate::tree::node_at(now, at)->0, crate::tree::node_at(t, other)->0)
            &&& forall|i: int|
                k <= i < gone.len() ==> !(#[trigger] gone[i]).indices.is_prefix_of(at)
        }),
    decreases k,
{
    if k == 0 {
        assert(gone.take(0) =~= Seq::<Target>::empty());
    } else {
        lemma_turn(t, gone, k - 1, other);
        let before = removed_in_turn(t, gone.take(k - 1));
        let at = adjusted_in_turn(other, gone.take(k - 1));
        let g = gone[k - 1];
        assert(gone.take(k).drop_last() =~= gone.take(k - 1));
        assert(gone.take(k).last() == g);
        lemma_turn_stands(t, gone, k - 1, k - 1);
        lemma_removed_elsewhere(before, g, at);
        assert forall|i: int| k <= i < gone.len() implies !(
        #[trigger] gone[i]).indices.is_prefix_of(adjusted(at, g.indices)) by {
            lemma_stays_outside(gone[i].indices, g.indices, at);
        }
    }
}

/// After the first `k` of several entries were removed, each of the others is
/// as it was, where it was.
pub(crate) proof fn lemma_turn_stands(t: Tree, gone: Seq<Target>, k: int, j: int)
    requires
        removable(gone),
        forall|i: int| 0 <= i < gone.len() ==> stands(t, #[trigger] gone[i]),
        0 <= k <= j < gone.len(),
    ensures
        stands(removed_in_turn(t, gone.take(k)), gone[j]),
        crate::tree::node_at(removed_in_turn(t, gone.take(k)), gone[j].indices) == crate::tree::node_at(
            t,
            gone[j].indices,
        ),
    decreases k,
{
    if k == 0 {
        assert(gone.take(0) =~= Seq::<Target>::empty());
    } else {
        lemma_turn_stands(t, gone, k - 1, j);
        lemma_turn_stands(t, gone, k - 1, k - 1);
        let before = removed_in_turn(t, gone.take(k - 1));
        let g = gone[k - 1];
        assert(gone.take(k).drop_last() =~= gone.take(k - 1));
        assert(gone.take(k).last() == g);
        assert(apart(g.indices, gone[j].indices));
        lemma_earlier_stays(gone[j].indices, g.indices);
        lemma_removed_elsewhere(before, g, gone[j].indices);
    }
}

/// Of deleted entries, none within another, each is listed once.
proof fn lemma_apart_once(gone: Seq<Target>)
    requires
        all_apart(gone),
    ensures
        gone.no_duplicates(),
{
    assert forall|i: int, j: int|
        0 <= i < gone.len() && 0 <= j < gone.len() && i != j implies gone[i] != gone[j] by {
        if gone[i] == gone[j] {
            let a = gone[i].indices;
            assert(a =~= a.subrange(0, a.len() as int));
            assert(apart(gone[i].indices, gone[j].indices));
        }
    }
}

/// Deleted entries, none within another, are removable in the order that the
/// removal takes.
pub proof fn lemma_removal_order(gone: Seq<Target>)
    requires
        all_apart(gone),
    ensures
        removable(removal_order(gone)),
        removal_order(gone).to_multiset() == gone.to_multiset(),
        forall|g: Target| removal_order(gone).contains(g) <==> gone.contains(g),
{
    broadcast use vstd::seq_lib::group_to_multiset_ensures;

    let le = |a: Target, b: Target| indices_le(b.indices, a.indices);
    let il = |a: Seq<usize>, b: Seq<usize>| indices_le(a, b);
    lemma_indices_le_total();
    assert(crate::order::ranking(le)) by {
        assert forall|a: Target, b: Target, c: Target| #[trigger]
            le(a, b) && #[trigger] le(b, c) implies le(a, c) by {
            assert(il(b.indices, a.indices) && il(c.indices, b.indices));
            assert(il(c.indices, a.indices));
        }
        assert forall|a: Target, b: Target| #[trigger] le(a, b) || #[trigger] le(b, a) by {
            assert(il(a.indices, b.indices) || il(b.indices, a.indices));
        }
    }
    crate::order::lemma_stable_sorted(gone, le);
    let s = removal_order(gone);
    lemma_apart_once(gone);
    gone.lemma_multiset_has_no_duplicates();
    s.lemma_multiset_has_no_duplicates_conv();
    assert forall|g: Target| s.contains(g) <==> gone.contains(g) by {
        assert(s.contains(g) <==> s.to_multiset().count(g) > 0);
        assert(gone.contains(g) <==> gone.to_multiset().count(g) > 0);
    }
    assert forall|i: int, j: int| 0 <= i < j < s.len() implies indices_le(
        (#[trigger] s[j]).indices,
        (#[trigger] s[i]).indices,
    ) && apart(s[i].indices, s[j].indices) by {
        assert(le(s[i], s[j]));
        assert(s.contains(s[i]) && s.contains(s[j]));
        let a = choose|a: int| 0 <= a < gone.len() && gone[a] == s[i];
        let b = choose|b: int| 0 <= b < gone.len() && gone[b] == s[j];
        assert(s[i] != s[j]);
        assert(apart(gone[a].indices, gone[b].indices));
    }
}

/// Where children could be counted, they can after one removal.
proof fn lemma_removed_countable(t: Tree, gone: Target, indices: Seq<usize>)
    requires
        crate::tree::countable(t),
        removed_at(t, gone, indices) is Some,
    ensures
        crate::tree::countable(removed_at(t, gone, indices)->0),
    decreases indices.len(),
{
    let r = removed_at(t, gone, indices)->0;
    if indices.len() == 1 {
        let i = indices[0] as int;
        assert forall|k: int| 0 <= k < r.children.len() implies crate::tree::countable(
            #[trigger] r.children[k],
        ) by {
            let n = if k < i {
                k
            } else {
                k + 1
            };
            assert(crate::tree::countable(t.children[n]));
        }
    } else {
        lemma_removed_countable(t.children[indices[0] as int], gone, indices.drop_first());
    }
}

/// Where children could be counted, they can after several removals.
pub(crate) proof fn lemma_turn_countable(t: Tree, gone: Seq<Target>)
    requires
        crate::tree::countable(t),
    ensures
        crate::tree::countable(removed_in_turn(t, gone)),
    decreases gone.len(),
{
    if gone.len() > 0 {
        lemma_turn_countable(t, gone.drop_last());
        let before = removed_in_turn(t, gone.drop_last());
        if removed_at(before, gone.last(), gone.last().indices) is Some {
            lemma_removed_countable(before, gone.last(), gone.last().indices);
        }
    }
}

/// Of deleted entries, none within another, there is one order from the last in
/// the tree to the first.
proof fn lemma_one_order(s: Seq<Target>, r: Seq<Target>)
    requires
        removable(s),
        removable(r),
        s.to_multiset() == r.to_multiset(),
    ensures
        s == r,
    decreases s.len(),
{
    broadcast use vstd::seq_lib::group_to_multiset_ensures;

    assert(s.len() == s.to_multiset().len());
    assert(r.len() == r.to_multiset().len());
    if s.len() == 0 {
        assert(s =~= r);
    } else {
        let a = s.last();
        let b = r.last();
        assert(s.contains(a) && r.contains(b));
        assert(s.to_multiset().count(a) > 0 && r.to_multiset().count(b) > 0);
        assert(r.contains(a) && s.contains(b));
        let i = choose|i: int| 0 <= i < s.len() && s[i] == b;
        let j = choose|j: int| 0 <= j < r.len() && r[j] == a;
        if a != b {
            let il = |x: Seq<usize>, y: Seq<usize>| indices_le(x, y);
            lemma_indices_le_total();
            assert(indices_le(s[s.len() - 1].indices, s[i].indices));
            assert(indices_le(r[r.len() - 1].indices, r[j].indices));
            assert(il(a.indices, b.indices) && il(b.indices, a.indices));
            assert(a.indices == b.indices);
            assert(apart(s[i].indices, s[s.len() - 1].indices));
            assert(a.indices =~= a.indices.subrange(0, a.indices.len() as int));
        }
        assert(s.drop_last().push(a) =~= s);
        assert(r.drop_last().push(a) =~= r);
        assert(s.drop_last().to_multiset() =~= s.to_multiset().remove(a));
        assert(r.drop_last().to_multiset() =~= r.to_multiset().remove(a));
        lemma_one_order(s.drop_last(), r.drop_last());
    }
}

/// In whichever order deleted entries are listed, none of them within another,
/// the same tree is left.
pub proof fn lemma_removal_in_any_order(t: Tree, gone: Seq<Target>, other: Seq<Target>)
    requires
        all_apart(gone),
        other.to_multiset() == gone.to_multiset(),
    ensures
        removed_all(t, gone) == removed_all(t, other),
{
    broadcast use vstd::seq_lib::group_to_multiset_ensures;

    lemma_apart_once(gone);
    gone.lemma_multiset_has_no_duplicates();
    other.lemma_multiset_has_no_duplicates_conv();
    assert forall|i: int, j: int|
        0 <= i < other.len() && 0 <= j < other.len() && i != j implies apart(
        (#[trigger] other[i]).indices,
        (#[trigger] other[j]).indices,
    ) by {
        assert(other.contains(other[i]) && other.contains(other[j]));
        assert(gone.to_multiset().count(other[i]) > 0 && gone.to_multiset().count(other[j]) > 0);
        assert(gone.contains(other[i]) && gone.contains(other[j]));
        let a = choose|a: int| 0 <= a < gone.len() && gone[a] == other[i];
        let b = choose|b: int| 0 <= b < gone.len() && gone[b] == other[j];
        assert(apart(gone[a].indices, gone[b].indices));
    }
    lemma_removal_order(gone);
    lemma_removal_order(other);
    lemma_one_order(removal_order(gone), removal_order(other));
}

/// Whether the entry at given positions is left when others are deleted: there
/// is one, and it is none of them and lies in none.
pub open spec fn is_left(t: Tree, gone: Seq<Target>, other: Seq<usize>) -> bool {
    crate::tree::node_at(t, other) is Some && forall|i: int|
        0 <= i < gone.len() ==> !(#[trigger] gone[i]).indices.is_prefix_of(other)
}

/// Where the entry at given positions stands when others were deleted.
pub open spec fn left_at(other: Seq<usize>, gone: Seq<Target>) -> Seq<usize> {
    adjusted_in_turn(other, removal_order(gone))
}

/// Whether one list of positions is that of a child of the entry at another,
/// and a third is that of a child listed below it.
pub open spec fn listed_in_turn(p: Seq<usize>, a: Seq<usize>, b: Seq<usize>) -> bool {
    &&& a.len() > 0 && b.len() > 0
    &&& a.drop_last() == p && b.drop_last() == p
    &&& a.last() < b.last()
}

/// Every entry of a tree without a deleted one stood outside of that one, at
/// positions that lead to its new ones.
proof fn lemma_stood_before(t: Tree, gone: Target, indices: Seq<usize>, at: Seq<usize>) -> (other:
    Seq<usize>)
    requires
        crate::tree::countable(t),
        removed_at(t, gone, indices) is Some,
        crate::tree::node_at(removed_at(t, gone, indices)->0, at) is Some,
    ensures
        crate::tree::node_at(t, other) is Some,
        !indices.is_prefix_of(other),
        adjusted(other, indices) == at,
    decreases indices.len(),
{
    let r = removed_at(t, gone, indices)->0;
    let i = indices[0] as int;
    if at.len() == 0 {
        at
    } else if indices.len() == 1 {
        let other = if at[0] >= i {
            at.update(0, (at[0] + 1) as usize)
        } else {
            at
        };
        assert(r.children == t.children.remove(i));
        assert(other.drop_first() =~= at.drop_first());
        assert(crate::tree::node_at(t, other) is Some);
        crate::tree::lemma_prefix_step(indices, other);
        assert(indices.drop_last() =~= other.subrange(0, 0));
        assert(adjusted(other, indices) =~= at);
        other
    } else if at[0] == i {
        let below = lemma_stood_before(
            t.children[i],
            gone,
            indices.drop_first(),
            at.drop_first(),
        );
        let other = seq![at[0]] + below;
        assert(other.drop_first() =~= below);
        crate::tree::lemma_prefix_step(indices, other);
        lemma_adjusted_below(other, indices);
        assert(adjusted(other, indices) =~= at);
        other
    } else {
        crate::tree::lemma_prefix_step(indices, at);
        assert(indices.drop_last()[0] == indices[0]);
        crate::tree::lemma_prefix_step(indices.drop_last(), at);
        at
    }
}

/// Removing a later entry moves nothing at or below an earlier one.
proof fn lemma_within_stays(a: Seq<usize>, b: Seq<usize>, other: Seq<usize>)
    requires
        apart(a, b),
        indices_le(a, b),
        a.is_prefix_of(other),
    ensures
        adjusted(other, b) == other,
{
    let d = lemma_apart(a, b);
    let last = b.len() - 1;
    assert(a[d] == other.subrange(0, a.len() as int)[d]);
    if b.is_prefix_of(other) {
        assert(b[d] == other.subrange(0, b.len() as int)[d]);
    }
    if b.drop_last().is_prefix_of(other) && d < last {
        assert(b.drop_last()[d] == other.subrange(0, last)[d]);
    }
}

/// Removing entries moves nothing at or below one that is removed after them.
proof fn lemma_turn_within_stays(gone: Seq<Target>, k: int, j: int, other: Seq<usize>)
    requires
        removable(gone),
        0 <= k <= j < gone.len(),
        gone[j].indices.is_prefix_of(other),
    ensures
        adjusted_in_turn(other, gone.take(k)) == other,
    decreases k,
{
    if k > 0 {
        lemma_turn_within_stays(gone, k - 1, j, other);
        assert(gone.take(k).drop_last() =~= gone.take(k - 1));
        assert(gone.take(k).last() == gone[k - 1]);
        assert(apart(gone[k - 1].indices, gone[j].indices));
        lemma_within_stays(gone[j].indices, gone[k - 1].indices, other);
    }
}

/// Every entry that is left after the first `k` of several were removed stood
/// outside of them.
proof fn lemma_turn_stood_before(t: Tree, gone: Seq<Target>, k: int, at: Seq<usize>) -> (other: Seq<
    usize,
>)
    requires
        crate::tree::countable(t),
        removable(gone),
        forall|i: int| 0 <= i < gone.len() ==> stands(t, #[trigger] gone[i]),
        0 <= k <= gone.len(),
        crate::tree::node_at(removed_in_turn(t, gone.take(k)), at) is Some,
    ensures
        crate::tree::node_at(t, other) is Some,
        forall|i: int| 0 <= i < k ==> !(#[trigger] gone[i]).indices.is_prefix_of(other),
        adjusted_in_turn(other, gone.take(k)) == at,
    decreases k,
{
    if k == 0 {
        assert(gone.take(0) =~= Seq::<Target>::empty());
        at
    } else {
        let before = removed_in_turn(t, gone.take(k - 1));
        let g = gone[k - 1];
        assert(gone.take(k).drop_last() =~= gone.take(k - 1));
        assert(gone.take(k).last() == g);
        lemma_turn_countable(t, gone.take(k - 1));
        lemma_turn_stands(t, gone, k - 1, k - 1);
        lemma_removed(before, g);
        let then = lemma_stood_before(before, g, g.indices, at);
        let other = lemma_turn_stood_before(t, gone, k - 1, then);
        if g.indices.is_prefix_of(other) {
            lemma_turn_within_stays(gone, k - 1, k - 1, other);
        }
        other
    }
}

/// Positions outside of a removed entry that lead to the same new positions
/// are the same.
proof fn lemma_adjusted_differ(a: Seq<usize>, b: Seq<usize>, gone: Seq<usize>)
    requires
        gone.len() > 0,
        !gone.is_prefix_of(a),
        !gone.is_prefix_of(b),
        adjusted(a, gone) == adjusted(b, gone),
    ensures
        a == b,
{
    let d = gone.len() - 1;
    let moved = adjusted(a, gone);
    if moved != a && moved != b {
        assert(moved == a.update(d, (a[d] - 1) as usize));
        assert(moved == b.update(d, (b[d] - 1) as usize));
        assert(moved[d] == a[d] - 1 && moved[d] == b[d] - 1);
        assert(moved.update(d, a[d]) =~= a);
        assert(moved.update(d, a[d]) =~= b);
    } else if moved != a {
        lemma_not_into(a, gone);
    } else if moved != b {
        lemma_not_into(b, gone);
    }
}

/// A position that a removal moved was not there before outside of the removed
/// entry, or moves itself.
proof fn lemma_not_into(a: Seq<usize>, gone: Seq<usize>)
    requires
        gone.len() > 0,
        !gone.is_prefix_of(a),
        adjusted(a, gone) != a,
        !gone.is_prefix_of(adjusted(a, gone)),
    ensures
        adjusted(adjusted(a, gone), gone) != adjusted(a, gone),
{
    let d = gone.len() - 1;
    let moved = adjusted(a, gone);
    assert forall|k: int| 0 <= k < d implies gone[k] == moved[k] by {
        assert(gone.drop_last()[k] == a.subrange(0, d)[k]);
    }
    assert(gone.drop_last() =~= moved.subrange(0, d));
    if moved[d] == gone.last() {
        assert(gone =~= moved.subrange(0, gone.len() as int));
    }
    assert(adjusted(moved, gone)[d] == moved[d] - 1);
}

/// Two entries that were listed in one entry are listed in it after a removal,
/// in the same order.
proof fn lemma_siblings(p: Seq<usize>, i: usize, j: usize, gone: Seq<usize>)
    requires
        gone.len() > 0,
        i < j,
        !gone.is_prefix_of(p.push(i)),
        !gone.is_prefix_of(p.push(j)),
    ensures
        adjusted(p.push(i), gone).len() > 0,
        adjusted(p.push(j), gone).len() > 0,
        adjusted(p.push(i), gone).drop_last() == adjusted(p, gone),
        adjusted(p.push(j), gone).drop_last() == adjusted(p, gone),
        adjusted(p.push(i), gone).last() < adjusted(p.push(j), gone).last(),
{
    let d = gone.len() - 1;
    let n = p.len() as int;
    let a = p.push(i);
    let b = p.push(j);
    lemma_prefix_push(gone, p, i);
    if d <= n {
        lemma_prefix_push(gone.drop_last(), p, i);
        lemma_prefix_push(gone.drop_last(), p, j);
        assert(a[d] == if d < n {
            p[d]
        } else {
            i
        });
        assert(b[d] == if d < n {
            p[d]
        } else {
            j
        });
    }
    if d == n && gone.drop_last().is_prefix_of(p) {
        assert(gone.drop_last() =~= p);
        if gone.last() == i {
            assert(gone =~= a.subrange(0, gone.len() as int));
        }
        if gone.last() == j {
            assert(gone =~= b.subrange(0, gone.len() as int));
        }
    }
    assert(adjusted(a, gone).drop_last() =~= adjusted(p, gone));
    assert(adjusted(b, gone).drop_last() =~= adjusted(p, gone));
}

/// What positions start with, they start with when one more is added.
proof fn lemma_prefix_push(a: Seq<usize>, p: Seq<usize>, i: usize)
    ensures
        a.is_prefix_of(p) ==> a.is_prefix_of(p.push(i)),
        a.len() <= p.len() ==> (a.is_prefix_of(p) <==> a.is_prefix_of(p.push(i))),
{
    if a.len() <= p.len() {
        assert(p.subrange(0, a.len() as int) =~= p.push(i).subrange(0, a.len() as int));
    }
}

/// Removing a later entry brings no earlier one below a position that it did
/// not lie at or below.
proof fn lemma_stays_beside(a: Seq<usize>, b: Seq<usize>, other: Seq<usize>)
    requires
        apart(a, b),
        indices_le(a, b),
        !b.is_prefix_of(other),
        !other.is_prefix_of(a),
    ensures
        !adjusted(other, b).is_prefix_of(a),
{
    let d = lemma_apart(a, b);
    let moved = adjusted(other, b);
    let last = b.len() - 1;
    if moved != other && moved.is_prefix_of(a) {
        assert(moved[last] == a.subrange(0, moved.len() as int)[last]);
        if d < last {
            assert(moved[d] == a.subrange(0, moved.len() as int)[d]);
            assert(b.drop_last()[d] == other.subrange(0, last)[d]);
        }
    }
}

/// After the first `k` of several entries were removed, an entry that none of
/// them lay in is as it was.
proof fn lemma_turn_exact(t: Tree, gone: Seq<Target>, k: int, other: Seq<usize>)
    requires
        removable(gone),
        forall|i: int| 0 <= i < gone.len() ==> stands(t, #[trigger] gone[i]),
        0 <= k <= gone.len(),
        crate::tree::node_at(t, other) is Some,
        forall|i: int|
            0 <= i < gone.len() ==> apart((#[trigger] gone[i]).indices, other),
    ensures
        crate::tree::node_at(
            removed_in_turn(t, gone.take(k)),
            adjusted_in_turn(other, gone.take(k)),
        ) == crate::tree::node_at(t, other),
        forall|i: int|
            k <= i < gone.len() ==> apart(
                (#[trigger] gone[i]).indices,
                adjusted_in_turn(other, gone.take(k)),
            ),
    decreases k,
{
    if k == 0 {
        assert(gone.take(0) =~= Seq::<Target>::empty());
    } else {
        lemma_turn_exact(t, gone, k - 1, other);
        let before = removed_in_turn(t, gone.take(k - 1));
        let at = adjusted_in_turn(other, gone.take(k - 1));
        let g = gone[k - 1];
        assert(gone.take(k).drop_last() =~= gone.take(k - 1));
        assert(gone.take(k).last() == g);
        lemma_turn_stands(t, gone, k - 1, k - 1);
        assert(apart(gone[k - 1].indices, at));
        lemma_removed_elsewhere(before, g, at);
        assert forall|i: int| k <= i < gone.len() implies apart(
            (#[trigger] gone[i]).indices,
            adjusted(at, g.indices),
        ) by {
            assert(apart(gone[i].indices, at));
            lemma_stays_outside(gone[i].indices, g.indices, at);
            lemma_stays_beside(gone[i].indices, g.indices, at);
        }
    }
}

/// After the first `k` of several entries were removed, entries outside of them
/// stand at different positions if they did before.
proof fn lemma_turn_differ(
    t: Tree,
    gone: Seq<Target>,
    k: int,
    a: Seq<usize>,
    b: Seq<usize>,
)
    requires
        removable(gone),
        forall|i: int| 0 <= i < gone.len() ==> stands(t, #[trigger] gone[i]),
        0 <= k <= gone.len(),
        is_left(t, gone, a),
        is_left(t, gone, b),
        adjusted_in_turn(a, gone.take(k)) == adjusted_in_turn(b, gone.take(k)),
    ensures
        a == b,
    decreases k,
{
    if k > 0 {
        let g = gone[k - 1];
        assert(gone.take(k).drop_last() =~= gone.take(k - 1));
        assert(gone.take(k).last() == g);
        lemma_turn(t, gone, k - 1, a);
        lemma_turn(t, gone, k - 1, b);
        assert(!gone[k - 1].indices.is_prefix_of(adjusted_in_turn(a, gone.take(k - 1))));
        assert(stands(t, gone[k - 1]));
        lemma_adjusted_differ(
            adjusted_in_turn(a, gone.take(k - 1)),
            adjusted_in_turn(b, gone.take(k - 1)),
            g.indices,
        );
        lemma_turn_differ(t, gone, k - 1, a, b);
    } else {
        assert(gone.take(0) =~= Seq::<Target>::empty());
    }
}

/// After the first `k` of several entries were removed, two entries outside of
/// them that were listed in one are listed in it in the same order.
proof fn lemma_turn_siblings(
    t: Tree,
    gone: Seq<Target>,
    k: int,
    p: Seq<usize>,
    a: Seq<usize>,
    b: Seq<usize>,
)
    requires
        removable(gone),
        forall|i: int| 0 <= i < gone.len() ==> stands(t, #[trigger] gone[i]),
        0 <= k <= gone.len(),
        is_left(t, gone, a),
        is_left(t, gone, b),
        listed_in_turn(p, a, b),
    ensures
        listed_in_turn(
            adjusted_in_turn(p, gone.take(k)),
            adjusted_in_turn(a, gone.take(k)),
            adjusted_in_turn(b, gone.take(k)),
        ),
    decreases k,
{
    if k > 0 {
        let g = gone[k - 1];
        assert(gone.take(k).drop_last() =~= gone.take(k - 1));
        assert(gone.take(k).last() == g);
        lemma_turn(t, gone, k - 1, a);
        lemma_turn(t, gone, k - 1, b);
        lemma_turn_siblings(t, gone, k - 1, p, a, b);
        let q = adjusted_in_turn(p, gone.take(k - 1));
        let x = adjusted_in_turn(a, gone.take(k - 1));
        let y = adjusted_in_turn(b, gone.take(k - 1));
        assert(x =~= q.push(x.last()));
        assert(y =~= q.push(y.last()));
        assert(stands(t, gone[k - 1]));
        lemma_siblings(q, x.last(), y.last(), g.indices);
    } else {
        assert(gone.take(0) =~= Seq::<Target>::empty());
    }
}

/// The entries of a tree without deleted ones, none of those within another,
/// are exactly the entries that stood outside of all of them: each new entry
/// was one of these, each of these has one place, no two have the same, and
/// those that were listed in one entry are listed in it in their old order.
/// An entry that no deleted one lay in is as it was; the others keep all but
/// their totals and their children.
pub proof fn lemma_removed_all(t: Tree, gone: Seq<Target>)
    requires
        crate::tree::countable(t),
        all_apart(gone),
        forall|i: int| 0 <= i < gone.len() ==> stands(t, #[trigger] gone[i]),
    ensures
        forall|at: Seq<usize>|
            #![trigger crate::tree::node_at(removed_all(t, gone), at)]
            crate::tree::node_at(removed_all(t, gone), at) is Some <==> exists|other: Seq<usize>|
                #[trigger] is_left(t, gone, other) && left_at(other, gone) == at,
        forall|other: Seq<usize>| #[trigger]
            is_left(t, gone, other) ==> same_entry(
                crate::tree::node_at(removed_all(t, gone), left_at(other, gone))->0,
                crate::tree::node_at(t, other)->0,
            ),
        forall|other: Seq<usize>| #[trigger]
            is_left(t, gone, other) && (forall|i: int|
                0 <= i < gone.len() ==> !other.is_prefix_of((#[trigger] gone[i]).indices))
                ==> crate::tree::node_at(removed_all(t, gone), left_at(other, gone))
                == crate::tree::node_at(t, other),
        forall|a: Seq<usize>, b: Seq<usize>| #[trigger]
            is_left(t, gone, a) && #[trigger] is_left(t, gone, b) && left_at(a, gone) == left_at(
                b,
                gone,
            ) ==> a == b,
        forall|p: Seq<usize>, a: Seq<usize>, b: Seq<usize>|
            is_left(t, gone, a) && is_left(t, gone, b) && #[trigger] listed_in_turn(p, a, b)
                ==> listed_in_turn(left_at(p, gone), left_at(a, gone), left_at(b, gone)),
{
    let turn = removal_order(gone);
    let n = turn.len() as int;
    let after = removed_all(t, gone);
    lemma_removal_order(gone);
    assert(turn.take(n) =~= turn);
    assert forall|i: int| 0 <= i < turn.len() implies stands(t, #[trigger] turn[i]) by {
        assert(turn.contains(turn[i]));
        assert(gone.contains(turn[i]));
    }
    assert forall|other: Seq<usize>| #[trigger]
        is_left(t, turn, other) == is_left(t, gone, other) by {
        assert forall|i: int|
            0 <= i < turn.len() && is_left(t, gone, other) implies !(
        #[trigger] turn[i]).indices.is_prefix_of(other) by {
            assert(turn.contains(turn[i]));
            assert(gone.contains(turn[i]));
        }
        assert forall|i: int|
            0 <= i < gone.len() && is_left(t, turn, other) implies !(
        #[trigger] gone[i]).indices.is_prefix_of(other) by {
            assert(gone.contains(gone[i]));
            assert(turn.contains(gone[i]));
        }
    }
    assert forall|other: Seq<usize>| #[trigger] is_left(t, gone, other) implies ({
        let moved = crate::tree::node_at(after, left_at(other, gone));
        moved is Some && same_entry(moved->0, crate::tree::node_at(t, other)->0)
    }) by {
        assert(is_left(t, turn, other));
        lemma_removed_in_turn(t, turn, other);
    }
    assert forall|at: Seq<usize>|
        #![trigger crate::tree::node_at(after, at)]
        crate::tree::node_at(after, at) is Some <==> exists|other: Seq<usize>| #[trigger]
            is_left(t, gone, other) && left_at(other, gone) == at by {
        if crate::tree::node_at(after, at) is Some {
            let other = lemma_turn_stood_before(t, turn, n, at);
            assert(is_left(t, turn, other));
            assert(is_left(t, gone, other));
        }
    }
    assert forall|other: Seq<usize>| #[trigger]
        is_left(t, gone, other) && (forall|i: int|
            0 <= i < gone.len() ==> !other.is_prefix_of(
                (#[trigger] gone[i]).indices,
            )) implies crate::tree::node_at(after, left_at(other, gone)) == crate::tree::node_at(
        t,
        other,
    ) by {
        assert(is_left(t, turn, other));
        assert forall|i: int| 0 <= i < turn.len() implies apart(
            (#[trigger] turn[i]).indices,
            other,
        ) by {
            assert(turn.contains(turn[i]));
            assert(gone.contains(turn[i]));
        }
        lemma_turn_exact(t, turn, n, other);
    }
    assert forall|a: Seq<usize>, b: Seq<usize>| #[trigger]
        is_left(t, gone, a) && #[trigger] is_left(t, gone, b) && left_at(a, gone) == left_at(
            b,
            gone,
        ) implies a == b by {
        assert(is_left(t, turn, a) && is_left(t, turn, b));
        lemma_turn_differ(t, turn, n, a, b);
    }
    assert forall|p: Seq<usize>, a: Seq<usize>, b: Seq<usize>|
        is_left(t, gone, a) && is_left(t, gone, b) && #[trigger] listed_in_turn(
            p,
            a,
            b,
        ) implies listed_in_turn(left_at(p, gone), left_at(a, gone), left_at(b, gone)) by {
        assert(is_left(t, turn, a) && is_left(t, turn, b));
        lemma_turn_siblings(t, turn, n, p, a, b);
    }
}

} // verus!
