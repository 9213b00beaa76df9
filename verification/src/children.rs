//! The order in which sibling entries are listed, and the choice among them.

use vstd::prelude::*;

use crate::order::{ranked_positions, Ranked};
use crate::text::{contains_text, text_at_most, trim};
use crate::tree::{EntryKind, EntryNode};
#[allow(unused_imports)]
use crate::tree::Tree;

verus! {

/// What siblings are sorted by.
#[derive(Clone, Copy, Debug, PartialEq, Eq, Structural)]
pub enum SortKey {
    Size,
    Name,
    Kind,
}

impl SortKey {
    /// The word for the key.
    pub open spec fn word(self) -> Seq<char> {
        match self {
            SortKey::Size => "size"@,
            SortKey::Name => "name"@,
            SortKey::Kind => "kind"@,
        }
    }

    /// The word for the key.
    pub fn label(self) -> (res: &'static str)
        ensures
            res@ == self.word(),
    {
        match self {
            SortKey::Size => "size",
            SortKey::Name => "name",
            SortKey::Kind => "kind",
        }
    }
}

/// The place of a kind among the kinds.
pub open spec fn rank_of_kind(kind: EntryKind) -> u8 {
    match kind {
        EntryKind::Directory => 0,
        EntryKind::File => 1,
        EntryKind::Symlink => 2,
        EntryKind::Other => 3,
        EntryKind::Error => 4,
    }
}

/// The place of a kind among the kinds.
pub fn kind_rank(kind: EntryKind) -> (res: u8)
    ensures
        res == rank_of_kind(kind),
{
    match kind {
        EntryKind::Directory => 0,
        EntryKind::File => 1,
        EntryKind::Symlink => 2,
        EntryKind::Other => 3,
        EntryKind::Error => 4,
    }
}

/// The larger entry first; entries of one size by their names, without regard
/// to case.
pub open spec fn larger_first(a: Tree, b: Tree) -> bool {
    a.size > b.size || (a.size == b.size && crate::text::text_le(
        crate::text::lowercase(a.name),
        crate::text::lowercase(b.name),
    ))
}

/// By name without regard to case; entries of one name with the larger first.
pub open spec fn name_first(a: Tree, b: Tree) -> bool {
    let x = crate::text::lowercase(a.name);
    let y = crate::text::lowercase(b.name);
    if x == y {
        a.size >= b.size
    } else {
        crate::text::text_le(x, y)
    }
}

/// By kind; entries of one kind with the larger first.
pub open spec fn kind_first(a: Tree, b: Tree) -> bool {
    rank_of_kind(a.kind) < rank_of_kind(b.kind) || (rank_of_kind(a.kind) == rank_of_kind(b.kind)
        && larger_first(a, b))
}

/// Whether an entry is listed before another or ranks as high.
pub open spec fn listed_before(sort: SortKey, a: Tree, b: Tree) -> bool {
    match sort {
        SortKey::Size => larger_first(a, b),
        SortKey::Name => name_first(a, b),
        SortKey::Kind => kind_first(a, b),
    }
}

/// The relation that siblings are sorted by.
pub open spec fn listing(sort: SortKey) -> spec_fn(Tree, Tree) -> bool {
    |a: Tree, b: Tree| listed_before(sort, a, b)
}

/// Any two entries are ranked, whatever they are sorted by.
pub proof fn lemma_listing_ranking(sort: SortKey)
    ensures
        crate::order::ranking(listing(sort)),
{
    let le = listing(sort);
    let tl = |a: Seq<char>, b: Seq<char>| crate::text::text_le(a, b);
    crate::text::lemma_text_le_total();
    assert forall|a: Tree, b: Tree, c: Tree| #[trigger]
        le(a, b) && #[trigger] le(b, c) implies le(a, c) by {
        let x = crate::text::lowercase(a.name);
        let y = crate::text::lowercase(b.name);
        let z = crate::text::lowercase(c.name);
        assert(tl(x, y) && tl(y, z) ==> tl(x, z));
        assert(tl(x, y) && tl(y, x) ==> x == y);
        assert(tl(z, y) && tl(y, z) ==> z == y);
        assert(tl(x, x) && tl(y, y) && tl(z, z));
    }
    assert forall|a: Tree, b: Tree| #[trigger] le(a, b) || #[trigger] le(b, a) by {
        let x = crate::text::lowercase(a.name);
        let y = crate::text::lowercase(b.name);
        assert(tl(x, y) || tl(y, x));
    }
}

/// Whether an entry has the given lowercase text in its name or its path. An
/// empty text chooses every entry.
pub open spec fn matches_filter(t: Tree, filter: Seq<char>) -> bool {
    ||| filter.len() == 0
    ||| crate::text::has_infix(crate::text::lowercase(t.name), filter)
    ||| crate::text::has_infix(crate::text::lowercase(crate::paths::shown(t.path)), filter)
}

/// The entries that a lowercase text chooses.
pub open spec fn chosen(ts: Seq<Tree>, filter: Seq<char>) -> Seq<Tree> {
    ts.filter(|t: Tree| matches_filter(t, filter))
}

/// The children of an entry as they are listed: those that the filter
/// chooses, sorted, and in reverse where that is asked for.
pub open spec fn listed_children(t: Tree, sort: SortKey, reversed: bool, filter: Seq<char>) -> Seq<
    Tree,
> {
    let wanted = crate::text::lowercase(crate::text::trimmed(filter));
    let sorted = crate::order::stable_sorted(chosen(t.children, wanted), listing(sort));
    if reversed {
        sorted.reverse()
    } else {
        sorted
    }
}

/// A listing holds the children that the filter chooses, each as often as
/// there are such children, and has them in the order asked for.
pub proof fn lemma_listed_children(t: Tree, sort: SortKey, reversed: bool, filter: Seq<char>)
    ensures
        ({
            let wanted = crate::text::lowercase(crate::text::trimmed(filter));
            let listed = listed_children(t, sort, reversed, filter);
            &&& listed.to_multiset() == chosen(t.children, wanted).to_multiset()
            &&& listed.len() == chosen(t.children, wanted).len()
            &&& forall|x: Tree| #[trigger]
                listed.contains(x) <==> t.children.contains(x) && matches_filter(x, wanted)
            &&& forall|i: int, j: int|
                0 <= i < j < listed.len() ==> if reversed {
                    listed_before(sort, #[trigger] listed[j], #[trigger] listed[i])
                } else {
                    listed_before(sort, listed[i], listed[j])
                }
        }),
{
    broadcast use vstd::seq_lib::group_to_multiset_ensures;

    let wanted = crate::text::lowercase(crate::text::trimmed(filter));
    let f = |x: Tree| matches_filter(x, wanted);
    let kept = chosen(t.children, wanted);
    let le = listing(sort);
    let sorted = crate::order::stable_sorted(kept, le);
    lemma_listing_ranking(sort);
    crate::order::lemma_stable_sorted(kept, le);
    let listed = listed_children(t, sort, reversed, filter);
    sorted.lemma_reverse_to_multiset();
    assert forall|x: Tree| #[trigger] listed.contains(x) <==> t.children.contains(x)
        && matches_filter(x, wanted) by {
        assert(listed.contains(x) <==> listed.to_multiset().count(x) > 0);
        assert(kept.contains(x) <==> kept.to_multiset().count(x) > 0);
        if kept.contains(x) {
            t.children.lemma_filter_contains_rev(f, x);
            let k = choose|k: int| 0 <= k < kept.len() && kept[k] == x;
            t.children.lemma_filter_pred(f, k);
        }
        if t.children.contains(x) && matches_filter(x, wanted) {
            let k = choose|k: int| 0 <= k < t.children.len() && t.children[k] == x;
            t.children.lemma_filter_contains(f, k);
        }
    }
    assert forall|i: int, j: int| 0 <= i < j < listed.len() implies if reversed {
        listed_before(sort, #[trigger] listed[j], #[trigger] listed[i])
    } else {
        listed_before(sort, listed[i], listed[j])
    } by {
        if reversed {
            let n = sorted.len() as int;
            assert(listed[i] == sorted[n - 1 - i] && listed[j] == sorted[n - 1 - j]);
            assert(le(sorted[n - 1 - j], sorted[n - 1 - i]));
        } else {
            assert(le(sorted[i], sorted[j]));
        }
    }
}

/// A filter of white space chooses every child.
pub proof fn lemma_blank_filter(t: Tree, sort: SortKey, reversed: bool, filter: Seq<char>)
    requires
        crate::text::trimmed(filter).len() == 0,
    ensures
        listed_children(t, sort, reversed, filter).to_multiset() == t.children.to_multiset(),
{
    let wanted = crate::text::lowercase(crate::text::trimmed(filter));
    let f = |x: Tree| matches_filter(x, wanted);
    lemma_listed_children(t, sort, reversed, filter);
    lemma_filter_all(t.children, f);
}

/// No filter chooses more children than none.
pub proof fn lemma_unfiltered_longest(t: Tree, filter: Seq<char>)
    ensures
        chosen(t.children, crate::text::lowercase(crate::text::trimmed(filter))).len() <= chosen(
            t.children,
            crate::text::lowercase(crate::text::trimmed(Seq::empty())),
        ).len(),
{
    let wanted = crate::text::lowercase(crate::text::trimmed(filter));
    let none = crate::text::lowercase(crate::text::trimmed(Seq::empty()));
    t.children.lemma_filter_len(|x: Tree| matches_filter(x, wanted));
    lemma_filter_all(t.children, |x: Tree| matches_filter(x, none));
}

proof fn lemma_filter_all(ts: Seq<Tree>, f: spec_fn(Tree) -> bool)
    requires
        forall|x: Tree| #[trigger] f(x),
    ensures
        ts.filter(f) == ts,
    decreases ts.len(),
{
    reveal(Seq::filter);
    if ts.len() > 0 {
        lemma_filter_all(ts.drop_last(), f);
        assert(f(ts.last()));
        assert(ts =~= ts.drop_last().push(ts.last()));
    } else {
        assert(ts.filter(f) =~= ts);
    }
}

/// What entries are ranked by, taken once for each.
struct RankKeys {
    sort: SortKey,
    sizes: Vec<u64>,
    kinds: Vec<EntryKind>,
    names: Vec<String>,
    trees: Ghost<Seq<Tree>>,
}

impl RankKeys {
    spec fn holds(&self) -> bool {
        let n = self.trees@.len();
        &&& self.sizes@.len() == n
        &&& self.kinds@.len() == n
        &&& self.names@.len() == n
        &&& forall|i: int|
            0 <= i < n ==> #[trigger] self.sizes@[i] == self.trees@[i].size && self.kinds@[i]
                == self.trees@[i].kind && self.names@[i]@ == crate::text::lowercase(
                self.trees@[i].name,
            )
    }

    fn new(sort: SortKey) -> (res: RankKeys)
        ensures
            res.holds(),
            res.sort == sort,
            res.trees@ == Seq::<Tree>::empty(),
    {
        RankKeys {
            sort,
            sizes: Vec::new(),
            kinds: Vec::new(),
            names: Vec::new(),
            trees: Ghost(Seq::empty()),
        }
    }

    fn add_entry(&mut self, node: &EntryNode)
        requires
            old(self).holds(),
        ensures
            final(self).holds(),
            final(self).sort == old(self).sort,
            final(self).trees@ == old(self).trees@.push(node@),
    {
        self.sizes.push(node.size);
        self.kinds.push(node.kind);
        self.names.push(node.name.to_lowercase());
        self.trees = Ghost(self.trees@.push(node@));
        assert forall|i: int| 0 <= i < self.trees@.len() implies #[trigger] self.sizes@[i]
            == self.trees@[i].size && self.kinds@[i] == self.trees@[i].kind && self.names@[i]@
            == crate::text::lowercase(self.trees@[i].name) by {
            if i < old(self).trees@.len() {
                assert(old(self).sizes@[i] == old(self).trees@[i].size);
            }
        }
    }
}

impl Ranked for RankKeys {
    closed spec fn count(&self) -> nat {
        if self.holds() {
            self.trees@.len()
        } else {
            0
        }
    }

    closed spec fn at_most(&self, i: int, j: int) -> bool {
        listed_before(self.sort, self.trees@[i], self.trees@[j])
    }

    proof fn lemma_ranking(&self) {
        let le = |i: int, j: int| self.at_most(i, j);
        let tl = listing(self.sort);
        lemma_listing_ranking(self.sort);
        assert forall|a: int, b: int, c: int| #[trigger]
            le(a, b) && #[trigger] le(b, c) implies le(a, c) by {
            assert(tl(self.trees@[a], self.trees@[b]) && tl(self.trees@[b], self.trees@[c]));
            assert(tl(self.trees@[a], self.trees@[c]));
        }
        assert forall|a: int, b: int| #[trigger] le(a, b) || #[trigger] le(b, a) by {
            assert(tl(self.trees@[a], self.trees@[b]) || tl(self.trees@[b], self.trees@[a]));
        }
    }

    fn ranks_at_most(&self, i: usize, j: usize) -> (res: bool) {
        proof {
            assert(self.sizes@[i as int] == self.trees@[i as int].size);
            assert(self.sizes@[j as int] == self.trees@[j as int].size);
            crate::text::lemma_text_le_total();
            let tl = |a: Seq<char>, b: Seq<char>| crate::text::text_le(a, b);
            assert(tl(self.names@[i as int]@, self.names@[i as int]@));
        }
        let a: u64 = self.sizes[i];
        let b: u64 = self.sizes[j];
        match self.sort {
            SortKey::Size => a > b || (a == b && text_at_most(
                self.names[i].as_str(),
                self.names[j].as_str(),
            )),
            SortKey::Name => {
                if self.names[i] == self.names[j] {
                    a >= b
                } else {
                    text_at_most(self.names[i].as_str(), self.names[j].as_str())
                }
            },
            SortKey::Kind => {
                let p = kind_rank(self.kinds[i]);
                let q = kind_rank(self.kinds[j]);
                p < q || (p == q && (a > b || (a == b && text_at_most(
                    self.names[i].as_str(),
                    self.names[j].as_str(),
                ))))
            },
        }
    }
}

fn sorted_by_keys(keys: &RankKeys) -> (res: Vec<usize>)
    requires
        keys.holds(),
    ensures
        res@.len() == keys.trees@.len(),
        res@.no_duplicates(),
        forall|k: int| 0 <= k < res@.len() ==> #[trigger] res@[k] < keys.trees@.len(),
        crate::order::stable_sorted(keys.trees@, listing(keys.sort)) == res@.map_values(
            |i: usize| keys.trees@[i as int],
        ),
{
    let res = ranked_positions(keys, keys.sizes.len());
    proof {
        let f = |i: int| keys.trees@[i];
        let n = crate::order::numbers(0, keys.trees@.len() as int);
        let le = listing(keys.sort);
        assert(n.map_values(f) =~= keys.trees@);
        crate::order::lemma_stable_sorted_map(n, f, le);
        assert((|i: int, j: int| le(f(i), f(j))) =~= (|i: int, j: int| keys.at_most(i, j)));
        assert(crate::order::positions(res@).map_values(f) =~= res@.map_values(
            |i: usize| keys.trees@[i as int],
        ));
    }
    res
}

/// Sorts entries, the larger ones first.
pub(crate) fn sort_by_size(nodes: Vec<EntryNode>) -> (res: Vec<EntryNode>)
    ensures
        crate::tree::forest(res@) == crate::order::stable_sorted(
            crate::tree::forest(nodes@),
            listing(SortKey::Size),
        ),
{
    let ghost trees = crate::tree::forest(nodes@);
    let mut keys = RankKeys::new(SortKey::Size);
    let mut i: usize = 0;
    assert(trees.take(0) =~= Seq::<Tree>::empty());
    while i < nodes.len()
        invariant
            trees == crate::tree::forest(nodes@),
            i <= nodes@.len(),
            keys.holds(),
            keys.sort == SortKey::Size,
            keys.trees@ == trees.take(i as int),
        decreases nodes@.len() - i,
    {
        keys.add_entry(&nodes[i]);
        assert(trees.take(i + 1) =~= trees.take(i as int).push(nodes@[i as int]@));
        i = i + 1;
    }
    assert(trees.take(i as int) =~= trees);
    let order = sorted_by_keys(&keys);
    let count = nodes.len();
    let mut rest = nodes;
    let mut slots: Vec<Option<EntryNode>> = Vec::with_capacity(count);
    while rest.len() > 0
        invariant
            trees.len() == count,
            slots@.len() + rest@.len() == count,
            forall|k: int| 0 <= k < rest@.len() ==> (#[trigger] rest@[k])@ == trees[k],
            forall|k: int|
                0 <= k < slots@.len() ==> (#[trigger] slots@[k]) is Some && slots@[k]->0@
                    == trees[count - 1 - k],
        decreases rest@.len(),
    {
        let last = rest.pop();
        slots.push(last);
    }
    let mut out: Vec<EntryNode> = Vec::with_capacity(count);
    let mut n: usize = 0;
    while n < order.len()
        invariant
            order@.len() == count,
            trees.len() == count,
            slots@.len() == count,
            order@.no_duplicates(),
            forall|k: int| 0 <= k < order@.len() ==> #[trigger] order@[k] < count,
            n <= order@.len(),
            out@.len() == n,
            forall|k: int| 0 <= k < n ==> (#[trigger] out@[k])@ == trees[order@[k] as int],
            forall|k: int|
                n <= k < order@.len() ==> slots@[count - 1 - #[trigger] order@[k]] is Some,
            forall|k: int|
                0 <= k < slots@.len() && (#[trigger] slots@[k]) is Some ==> slots@[k]->0@
                    == trees[count - 1 - k],
        decreases order@.len() - n,
    {
        let at: usize = count - 1 - order[n];
        let ghost before = slots@;
        let taken = slots[at].take();
        proof {
            assert(slots@ =~= before.update(at as int, None));
            assert forall|k: int| n + 1 <= k < order@.len() implies slots@[count - 1
                - #[trigger] order@[k]] is Some by {
                assert(order@[k] != order@[n as int]);
            }
        }
        if let Some(node) = taken {
            out.push(node);
        }
        n = n + 1;
    }
    assert(crate::tree::forest(out@) =~= order@.map_values(|i: usize| trees[i as int]));
    out
}

/// Whether an entry has the given lowercase text in its name or its path.
pub(crate) fn entry_matches(node: &EntryNode, filter: &str) -> (res: bool)
    ensures
        res == matches_filter(node@, filter@),
{
    filter.is_empty() || contains_text(node.name.to_lowercase().as_str(), filter)
        || contains_text(node.path.display().to_lowercase().as_str(), filter)
}

/// The children of an entry as they are listed.
pub fn sorted_children<'a>(
    node: &'a EntryNode,
    sort: SortKey,
    reversed: bool,
    filter: &str,
) -> (res: Vec<&'a EntryNode>)
    ensures
        crate::tree::borrowed(res@) == listed_children(node@, sort, reversed, filter@),
{
    broadcast use crate::tree::lemma_children;

    let wanted = trim(filter).to_lowercase();
    let ghost f = |t: Tree| matches_filter(t, wanted@);
    let ghost all = node@.children;
    let mut kept: Vec<&'a EntryNode> = Vec::new();
    let mut keys = RankKeys::new(sort);
    let mut i: usize = 0;
    proof {
        reveal(Seq::filter);
        assert(all.take(0).filter(f) =~= Seq::<Tree>::empty());
        assert(crate::tree::borrowed(kept@) =~= Seq::<Tree>::empty());
    }
    while i < node.children.len()
        invariant
            all == node@.children,
            all.len() == node.children@.len(),
            f == (|t: Tree| matches_filter(t, wanted@)),
            i <= node.children@.len(),
            keys.holds(),
            keys.sort == sort,
            keys.trees@ == all.take(i as int).filter(f),
            crate::tree::borrowed(kept@) == keys.trees@,
        decreases node.children@.len() - i,
    {
        let child = &node.children[i];
        proof {
            reveal(Seq::filter);
            assert(all.take(i + 1).drop_last() =~= all.take(i as int));
            assert(all.take(i + 1).last() == child@);
        }
        if entry_matches(child, wanted.as_str()) {
            let ghost before = kept@;
            kept.push(child);
            keys.add_entry(child);
            assert(crate::tree::borrowed(kept@) =~= crate::tree::borrowed(before).push(child@));
        }
        i = i + 1;
    }
    assert(all.take(i as int) =~= all);
    let order = sorted_by_keys(&keys);
    let ghost sorted = crate::order::stable_sorted(chosen(all, wanted@), listing(sort));
    let count = order.len();
    let mut out: Vec<&'a EntryNode> = Vec::with_capacity(count);
    let mut n: usize = 0;
    while n < count
        invariant
            count == order@.len(),
            count == kept@.len(),
            forall|k: int| 0 <= k < order@.len() ==> #[trigger] order@[k] < kept@.len(),
            crate::tree::borrowed(kept@) == keys.trees@,
            sorted == order@.map_values(|i: usize| keys.trees@[i as int]),
            n <= count,
            out@.len() == n,
            forall|k: int|
                0 <= k < n ==> (#[trigger] out@[k])@ == sorted[if reversed {
                    count - 1 - k
                } else {
                    k
                }],
        decreases count - n,
    {
        let at: usize = if reversed {
            order[count - 1 - n]
        } else {
            order[n]
        };
        assert(crate::tree::borrowed(kept@)[at as int] == kept@[at as int]@);
        out.push(kept[at]);
        n = n + 1;
    }
    proof {
        if reversed {
            assert(crate::tree::borrowed(out@) =~= sorted.reverse());
        } else {
            assert(crate::tree::borrowed(out@) =~= sorted);
        }
    }
    out
}

} // verus!
