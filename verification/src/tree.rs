//! Scanned entries as trees, and the ways to find entries in them.

use vstd::prelude::*;

use crate::paths::EntryPath;

verus! {

/// What an entry is.
#[derive(Clone, Copy, Debug, PartialEq, Eq, Structural)]
pub enum EntryKind {
    Directory,
    File,
    Symlink,
    Other,
    Error,
}

/// A scanned entry, with the entries below it. The counts cover all of them.
#[derive(Debug)]
pub struct EntryNode {
    pub path: EntryPath,
    pub name: String,
    pub kind: EntryKind,
    pub size: u64,
    pub direct_size: u64,
    pub file_count: u64,
    pub dir_count: u64,
    pub error_count: u64,
    pub children: Vec<EntryNode>,
    pub error: Option<String>,
}

/// The contents of an entry.
pub struct Tree {
    pub path: Seq<u8>,
    pub name: Seq<char>,
    pub kind: EntryKind,
    pub size: u64,
    pub direct_size: u64,
    pub file_count: u64,
    pub dir_count: u64,
    pub error_count: u64,
    pub children: Seq<Tree>,
    pub error: Option<Seq<char>>,
}

/// The contents of a text that may be missing.
pub open spec fn optional_text(o: Option<String>) -> Option<Seq<char>> {
    match o {
        Some(s) => Some(s@),
        None => None,
    }
}

impl EntryNode {
    /// The contents of the entry and of all below it.
    pub open spec fn model(self) -> Tree
        decreases self,
    {
        Tree {
            path: self.path@,
            name: self.name@,
            kind: self.kind,
            size: self.size,
            direct_size: self.direct_size,
            file_count: self.file_count,
            dir_count: self.dir_count,
            error_count: self.error_count,
            children: Seq::new(
                self.children@.len(),
                |i: int|
                    if 0 <= i < self.children@.len() {
                        self.children@[i].model()
                    } else {
                        arbitrary()
                    },
            ),
            error: optional_text(self.error),
        }
    }
}

impl View for EntryNode {
    type V = Tree;

    open spec fn view(&self) -> Tree {
        self.model()
    }
}

/// The contents of several entries.
pub open spec fn forest(v: Seq<EntryNode>) -> Seq<Tree> {
    v.map_values(|n: EntryNode| n@)
}

/// The contents of several borrowed entries.
pub open spec fn borrowed(v: Seq<&EntryNode>) -> Seq<Tree> {
    v.map_values(|n: &EntryNode| n@)
}

/// The children of an entry's contents are the contents of its children.
pub(crate) broadcast proof fn lemma_children(n: EntryNode)
    ensures
        #[trigger] n@.children =~= forest(n.children@),
        n@.children.len() == n.children@.len(),
{
}

/// The entries of a tree: each one before its children, these in order.
pub open spec fn preorder(t: Tree) -> Seq<Tree>
    decreases t, 1int,
{
    seq![t] + preorder_all(t.children)
}

/// The entries of several trees, one tree behind the other.
pub open spec fn preorder_all(ts: Seq<Tree>) -> Seq<Tree>
    decreases ts, 0int,
{
    if ts.len() == 0 {
        seq![]
    } else {
        preorder_all(ts.drop_last()) + preorder(ts.last())
    }
}

/// The first of several entries that has the given path.
pub open spec fn first_at(ts: Seq<Tree>, path: Seq<u8>) -> Option<Tree>
    decreases ts.len(),
{
    if ts.len() == 0 {
        None
    } else if crate::paths::parts(ts[0].path) == crate::paths::parts(path) {
        Some(ts[0])
    } else {
        first_at(ts.drop_first(), path)
    }
}

/// The entry that the given child positions lead to.
pub open spec fn node_at(t: Tree, indices: Seq<usize>) -> Option<Tree>
    decreases indices.len(),
{
    if indices.len() == 0 {
        Some(t)
    } else if indices[0] < t.children.len() {
        node_at(t.children[indices[0] as int], indices.drop_first())
    } else {
        None
    }
}

/// The entry that the child positions lead to, where positions that do not
/// exist are passed over.
pub open spec fn followed(t: Tree, indices: Seq<usize>) -> Tree
    decreases indices.len(),
{
    if indices.len() == 0 {
        t
    } else if indices[0] < t.children.len() {
        followed(t.children[indices[0] as int], indices.drop_first())
    } else {
        followed(t, indices.drop_first())
    }
}

/// The longest leading part of the child positions that exists.
pub open spec fn valid_prefix(t: Tree, indices: Seq<usize>) -> Seq<usize>
    decreases indices.len(),
{
    if indices.len() > 0 && indices[0] < t.children.len() {
        seq![indices[0]] + valid_prefix(t.children[indices[0] as int], indices.drop_first())
    } else {
        Seq::empty()
    }
}

/// The child positions of the first entry, in the order of the tree, that has
/// the given path.
pub open spec fn located(t: Tree, path: Seq<u8>) -> Option<Seq<usize>>
    decreases t, 1int,
{
    if crate::paths::parts(t.path) == crate::paths::parts(path) {
        Some(Seq::empty())
    } else {
        located_among(t.children, path)
    }
}

/// The same below several siblings.
pub open spec fn located_among(ts: Seq<Tree>, path: Seq<u8>) -> Option<Seq<usize>>
    decreases ts, 0int,
{
    if ts.len() == 0 {
        None
    } else {
        match located_among(ts.drop_last(), path) {
            Some(indices) => Some(indices),
            None => match located(ts.last(), path) {
                Some(indices) => Some(seq![(ts.len() - 1) as usize] + indices),
                None => None,
            },
        }
    }
}

/// The entries with one at given child positions replaced, if there is one.
pub open spec fn replaced_at(t: Tree, indices: Seq<usize>, new: Tree) -> Option<Tree>
    decreases indices.len(),
{
    if indices.len() == 0 {
        Some(new)
    } else if indices[0] < t.children.len() {
        let i = indices[0] as int;
        match replaced_at(t.children[i], indices.drop_first(), new) {
            Some(child) => Some(Tree { children: t.children.update(i, child), ..t }),
            None => None,
        }
    } else {
        None
    }
}

impl Clone for EntryNode {
    fn clone(&self) -> (res: Self)
        ensures
            res@ == self@,
        decreases self,
    {
        let mut children: Vec<EntryNode> = Vec::with_capacity(self.children.len());
        let mut i: usize = 0;
        while i < self.children.len()
            invariant
                i <= self.children@.len(),
                children@.len() == i,
                forall|k: int|
                    0 <= k < i ==> (#[trigger] children@[k])@ == self.children@[k]@,
            decreases self.children@.len() - i,
        {
            children.push(self.children[i].clone());
            i = i + 1;
        }
        let error = match &self.error {
            Some(message) => Some(message.clone()),
            None => None,
        };
        let res = EntryNode {
            path: self.path.clone(),
            name: self.name.clone(),
            kind: self.kind,
            size: self.size,
            direct_size: self.direct_size,
            file_count: self.file_count,
            dir_count: self.dir_count,
            error_count: self.error_count,
            children,
            error,
        };
        assert(res@.children =~= self@.children);
        res
    }
}

/// Appends the entries of a tree, each one before its children.
pub fn flatten<'a>(node: &'a EntryNode, out: &mut Vec<&'a EntryNode>)
    ensures
        borrowed(final(out)@) == borrowed(old(out)@) + preorder(node@),
    decreases node,
{
    broadcast use lemma_children;

    out.push(node);
    let ghost start = borrowed(old(out)@);
    let ghost children = node@.children;
    assert(borrowed(out@) =~= start + seq![node@] + preorder_all(children.take(0)));
    let mut i: usize = 0;
    while i < node.children.len()
        invariant
            children == node@.children,
            children.len() == node.children@.len(),
            i <= node.children@.len(),
            borrowed(out@) == start + seq![node@] + preorder_all(children.take(i as int)),
        decreases node.children@.len() - i,
    {
        flatten(&node.children[i], out);
        proof {
            assert(children.take(i + 1).drop_last() =~= children.take(i as int));
            assert(children.take(i + 1).last() == node.children@[i as int]@);
            assert(borrowed(out@) =~= start + seq![node@] + preorder_all(children.take(i + 1)));
        }
        i = i + 1;
    }
    proof {
        assert(children.take(i as int) =~= children);
        assert(start + seq![node@] + preorder_all(children) =~= start + preorder(node@));
    }
}

/// A path found in the first of two lists of entries is found there in both.
proof fn lemma_first_at_concat(a: Seq<Tree>, b: Seq<Tree>, path: Seq<u8>)
    ensures
        first_at(a + b, path) == match first_at(a, path) {
            Some(t) => Some(t),
            None => first_at(b, path),
        },
    decreases a.len(),
{
    if a.len() == 0 {
        assert(a + b =~= b);
    } else {
        assert((a + b).drop_first() =~= a.drop_first() + b);
        lemma_first_at_concat(a.drop_first(), b, path);
    }
}

proof fn lemma_first_in_tree(t: Tree, path: Seq<u8>)
    ensures
        first_at(preorder(t), path) == if crate::paths::parts(t.path) == crate::paths::parts(
            path,
        ) {
            Some(t)
        } else {
            first_at(preorder_all(t.children), path)
        },
{
    assert(preorder(t).drop_first() =~= preorder_all(t.children));
}

/// The first entry of a tree that has the given path.
pub fn find_by_path<'a>(node: &'a EntryNode, path: &EntryPath) -> (res: Option<&'a EntryNode>)
    ensures
        match res {
            Some(found) => first_at(preorder(node@), path@) == Some(found@),
            None => first_at(preorder(node@), path@) is None,
        },
    decreases node,
{
    broadcast use lemma_children;

    proof {
        lemma_first_in_tree(node@, path@);
    }
    if node.path.same_path(path) {
        return Some(node);
    }
    let ghost children = node@.children;
    let mut i: usize = 0;
    assert(children.take(0) =~= Seq::<Tree>::empty());
    while i < node.children.len()
        invariant
            children == node@.children,
            children.len() == node.children@.len(),
            first_at(preorder(node@), path@) == first_at(preorder_all(children), path@),
            i <= node.children@.len(),
            first_at(preorder_all(children.take(i as int)), path@) is None,
        decreases node.children@.len() - i,
    {
        let found = find_by_path(&node.children[i], path);
        proof {
            assert(children.take(i + 1).drop_last() =~= children.take(i as int));
            lemma_first_at_concat(
                preorder_all(children.take(i as int)),
                preorder(children[i as int]),
                path@,
            );
            lemma_preorder_split(children, i + 1);
            lemma_first_at_concat(
                preorder_all(children.take(i + 1)),
                preorder_all(children.skip(i + 1)),
                path@,
            );
        }
        if let Some(entry) = found {
            return Some(entry);
        }
        i = i + 1;
    }
    assert(children.take(i as int) =~= children);
    None
}

proof fn lemma_preorder_split(ts: Seq<Tree>, k: int)
    requires
        0 <= k <= ts.len(),
    ensures
        preorder_all(ts) == preorder_all(ts.take(k)) + preorder_all(ts.skip(k)),
    decreases ts.len() - k,
{
    if k == ts.len() {
        assert(ts.take(k) =~= ts);
        assert(preorder_all(ts.skip(k)) =~= Seq::<Tree>::empty());
        assert(preorder_all(ts) =~= preorder_all(ts) + Seq::<Tree>::empty());
    } else {
        lemma_preorder_split_drop(ts, k);
    }
}

proof fn lemma_preorder_split_drop(ts: Seq<Tree>, k: int)
    requires
        0 <= k < ts.len(),
    ensures
        preorder_all(ts) == preorder_all(ts.take(k)) + preorder_all(ts.skip(k)),
    decreases ts.len(),
{
    let d = ts.drop_last();
    assert(ts.skip(k).last() == ts.last());
    assert(ts.skip(k).drop_last() =~= d.skip(k));
    assert(ts.take(k) =~= d.take(k));
    if k < d.len() {
        lemma_preorder_split_drop(d, k);
    } else {
        assert(d.take(k) =~= d);
        assert(preorder_all(d.skip(k)) =~= Seq::<Tree>::empty());
    }
    assert(preorder_all(d.take(k)) + preorder_all(d.skip(k)) + preorder(ts.last())
        =~= preorder_all(d.take(k)) + (preorder_all(d.skip(k)) + preorder(ts.last())));
    assert(preorder_all(d.take(k)) + preorder_all(d.skip(k)) =~= preorder_all(d));
}

/// The entry that the given child positions lead to.
pub fn node_at_indices<'a>(root: &'a EntryNode, indices: &[usize]) -> (res: Option<&'a EntryNode>)
    ensures
        match res {
            Some(node) => node_at(root@, indices@) == Some(node@),
            None => node_at(root@, indices@) is None,
        },
{
    broadcast use lemma_children;

    let mut node: &'a EntryNode = root;
    let mut i: usize = 0;
    assert(indices@.skip(0) =~= indices@);
    while i < indices.len()
        invariant
            i <= indices@.len(),
            node_at(root@, indices@) == node_at(node@, indices@.skip(i as int)),
        decreases indices@.len() - i,
    {
        let at = indices[i];
        assert(indices@.skip(i as int).drop_first() =~= indices@.skip(i + 1));
        if at >= node.children.len() {
            return None;
        }
        node = &node.children[at];
        i = i + 1;
    }
    Some(node)
}

/// The entry that the given child positions lead to, where positions that do
/// not exist are passed over.
pub fn follow_indices<'a>(root: &'a EntryNode, indices: &[usize]) -> (res: &'a EntryNode)
    ensures
        res@ == followed(root@, indices@),
{
    broadcast use lemma_children;

    let mut node: &'a EntryNode = root;
    let mut i: usize = 0;
    assert(indices@.skip(0) =~= indices@);
    while i < indices.len()
        invariant
            i <= indices@.len(),
            followed(root@, indices@) == followed(node@, indices@.skip(i as int)),
        decreases indices@.len() - i,
    {
        let at = indices[i];
        assert(indices@.skip(i as int).drop_first() =~= indices@.skip(i + 1));
        if at < node.children.len() {
            node = &node.children[at];
        }
        i = i + 1;
    }
    node
}

/// The child positions of the first entry that has the given path.
pub fn find_indices_by_path(root: &EntryNode, path: &EntryPath) -> (res: Option<Vec<usize>>)
    ensures
        match res {
            Some(indices) => located(root@, path@) == Some(indices@),
            None => located(root@, path@) is None,
        },
    decreases root,
{
    broadcast use lemma_children;

    if root.path.same_path(path) {
        return Some(Vec::new());
    }
    let ghost children = root@.children;
    let mut i: usize = 0;
    assert(children.take(0) =~= Seq::<Tree>::empty());
    while i < root.children.len()
        invariant
            children == root@.children,
            children.len() == root.children@.len(),
            located(root@, path@) == located_among(children, path@),
            i <= root.children@.len(),
            located_among(children.take(i as int), path@) is None,
        decreases root.children@.len() - i,
    {
        let found = find_indices_by_path(&root.children[i], path);
        proof {
            assert(children.take(i + 1).drop_last() =~= children.take(i as int));
            assert(children.take(i + 1).last() == children[i as int]);
        }
        if let Some(mut indices) = found {
            let ghost below = indices@;
            indices.insert(0, i);
            proof {
                assert(indices@ =~= seq![i] + below);
                lemma_located_earlier(children, i + 1, path@);
            }
            return Some(indices);
        }
        i = i + 1;
    }
    assert(children.take(i as int) =~= children);
    None
}

/// What is located among the first siblings is located among all of them.
proof fn lemma_located_earlier(ts: Seq<Tree>, k: int, path: Seq<u8>)
    requires
        0 <= k <= ts.len(),
        located_among(ts.take(k), path) is Some,
    ensures
        located_among(ts, path) == located_among(ts.take(k), path),
    decreases ts.len(),
{
    if k == ts.len() {
        assert(ts.take(k) =~= ts);
    } else {
        assert(ts.drop_last().take(k) =~= ts.take(k));
        lemma_located_earlier(ts.drop_last(), k, path);
    }
}

/// Cuts child positions to the longest leading part that exists.
pub fn sanitize_indices(root: &EntryNode, indices: &mut Vec<usize>)
    ensures
        final(indices)@ == valid_prefix(root@, old(indices)@),
{
    broadcast use lemma_children;

    let ghost all = indices@;
    let mut node: &EntryNode = root;
    let mut valid: usize = 0;
    let mut ended: bool = false;
    proof {
        assert(all.skip(0) =~= all);
        assert(all.take(0) + valid_prefix(root@, all) =~= valid_prefix(root@, all));
    }
    while !ended && valid < indices.len()
        invariant
            indices@ == all,
            valid <= all.len(),
            !ended ==> valid_prefix(root@, all) == all.take(valid as int) + valid_prefix(
                node@,
                all.skip(valid as int),
            ),
            ended ==> valid_prefix(root@, all) == all.take(valid as int),
        decreases all.len() - valid + (if ended { 0int } else { 1 }),
    {
        let at = indices[valid];
        proof {
            assert(all.skip(valid as int)[0] == at);
            assert(all.skip(valid as int).drop_first() =~= all.skip(valid + 1));
        }
        if at >= node.children.len() {
            ended = true;
            assert(all.take(valid as int) + Seq::<usize>::empty() =~= all.take(valid as int));
        } else {
            let ghost before = node@;
            node = &node.children[at];
            proof {
                assert(all.take(valid as int) + (seq![at] + valid_prefix(
                    node@,
                    all.skip(valid + 1),
                )) =~= all.take(valid + 1) + valid_prefix(node@, all.skip(valid + 1)));
            }
            valid = valid + 1;
        }
    }
    proof {
        if !ended {
            assert(all.skip(valid as int).len() == 0);
            assert(all.take(valid as int) + Seq::<usize>::empty() =~= all.take(valid as int));
        }
    }
    indices.truncate(valid);
}

fn replace_from(
    node: &mut EntryNode,
    indices: &[usize],
    at: usize,
    replacement: EntryNode,
) -> (res: bool)
    requires
        at <= indices@.len(),
    ensures
        match replaced_at(old(node)@, indices@.skip(at as int), replacement@) {
            Some(t) => res && final(node)@ == t,
            None => !res && final(node)@ == old(node)@,
        },
    decreases indices@.len() - at,
{
    broadcast use lemma_children;

    if at == indices.len() {
        *node = replacement;
        return true;
    }
    let i = indices[at];
    assert(indices@.skip(at as int).drop_first() =~= indices@.skip(at + 1));
    if i >= node.children.len() {
        return false;
    }
    let ghost before = node@;
    let res = replace_from(&mut node.children[i], indices, at + 1, replacement);
    proof {
        assert(node@.children =~= before.children.update(i as int, node@.children[i as int]));
        if !res {
            assert(node@.children =~= before.children);
        }
    }
    res
}

/// Puts an entry in the place of the one at the given child positions, and
/// tells whether there is such a place. The totals above it stay as they are.
pub fn replace_node_at_indices(root: &mut EntryNode, indices: &[usize], replacement: EntryNode)
    -> (res: bool)
    ensures
        match replaced_at(old(root)@, indices@, replacement@) {
            Some(t) => res && final(root)@ == t,
            None => !res && final(root)@ == old(root)@,
        },
{
    assert(indices@.skip(0) =~= indices@);
    replace_from(root, indices, 0, replacement)
}

/// Whether the children of every entry of a tree can be counted by machine
/// numbers. Those of every scanned tree can.
pub open spec fn countable(t: Tree) -> bool
    decreases t,
{
    t.children.len() <= usize::MAX && forall|i: int|
        0 <= i < t.children.len() ==> countable(#[trigger] t.children[i])
}

/// The children of every scanned entry can be counted.
pub proof fn lemma_countable(n: EntryNode)
    ensures
        countable(n@),
    decreases n,
{
    broadcast use lemma_children;

    assert forall|i: int| 0 <= i < n@.children.len() implies countable(
        #[trigger] n@.children[i],
    ) by {
        lemma_countable(n.children@[i]);
    }
    assert(n.children@.len() == n.children.len());
}

/// The positions that a path is located at lead to the first entry with that
/// path, and there are positions where there is such an entry.
pub proof fn lemma_located(t: Tree, path: Seq<u8>)
    requires
        countable(t),
    ensures
        match located(t, path) {
            Some(indices) => node_at(t, indices) is Some && node_at(t, indices) == first_at(
                preorder(t),
                path,
            ) && crate::paths::parts(node_at(t, indices)->0.path) == crate::paths::parts(path),
            None => first_at(preorder(t), path) is None,
        },
    decreases t, 1int,
{
    lemma_first_in_tree(t, path);
    if crate::paths::parts(t.path) != crate::paths::parts(path) {
        lemma_located_among(t.children, path);
        if let Some(indices) = located_among(t.children, path) {
            assert(node_at(t, indices) == node_at(
                t.children[indices[0] as int],
                indices.drop_first(),
            ));
        }
    }
}

/// The same below several siblings.
proof fn lemma_located_among(ts: Seq<Tree>, path: Seq<u8>)
    requires
        ts.len() <= usize::MAX,
        forall|i: int| 0 <= i < ts.len() ==> countable(#[trigger] ts[i]),
    ensures
        match located_among(ts, path) {
            Some(indices) => {
                &&& indices.len() > 0
                &&& indices[0] < ts.len()
                &&& node_at(ts[indices[0] as int], indices.drop_first()) is Some
                &&& node_at(ts[indices[0] as int], indices.drop_first()) == first_at(
                    preorder_all(ts),
                    path,
                )
                &&& crate::paths::parts(
                    node_at(ts[indices[0] as int], indices.drop_first())->0.path,
                ) == crate::paths::parts(path)
            },
            None => first_at(preorder_all(ts), path) is None,
        },
    decreases ts, 0int,
{
    if ts.len() > 0 {
        let d = ts.drop_last();
        lemma_located_among(d, path);
        lemma_located(ts.last(), path);
        lemma_first_at_concat(preorder_all(d), preorder(ts.last()), path);
        match located_among(d, path) {
            Some(indices) => {
                assert(d[indices[0] as int] == ts[indices[0] as int]);
            },
            None => {
                if let Some(below) = located(ts.last(), path) {
                    let indices = seq![(ts.len() - 1) as usize] + below;
                    assert(indices.drop_first() =~= below);
                }
            },
        }
    }
}

/// The longest leading part of child positions that exists leads to an entry,
/// and is all of them where all exist.
pub proof fn lemma_valid_prefix(t: Tree, indices: Seq<usize>)
    ensures
        node_at(t, valid_prefix(t, indices)) is Some,
        valid_prefix(t, indices).is_prefix_of(indices),
        node_at(t, indices) is Some <==> valid_prefix(t, indices) == indices,
    decreases indices.len(),
{
    let p = valid_prefix(t, indices);
    if indices.len() > 0 && indices[0] < t.children.len() {
        let rest = indices.drop_first();
        let child = t.children[indices[0] as int];
        let q = valid_prefix(child, rest);
        lemma_valid_prefix(child, rest);
        assert(p.drop_first() =~= q);
        assert(p =~= indices.subrange(0, p.len() as int)) by {
            assert forall|k: int| 0 <= k < p.len() implies p[k] == indices[k] by {
                if k > 0 {
                    assert(q[k - 1] == rest.subrange(0, q.len() as int)[k - 1]);
                }
            }
        }
        if q == rest {
            assert(p =~= indices);
        }
        if p == indices {
            assert(q =~= rest);
        }
    } else {
        assert(p =~= indices.subrange(0, 0));
        if indices.len() == 0 {
            assert(p =~= indices);
        }
    }
}

/// Where child positions exist, following them leads to the entry at them.
pub proof fn lemma_followed(t: Tree, indices: Seq<usize>)
    requires
        node_at(t, indices) is Some,
    ensures
        node_at(t, indices) == Some(followed(t, indices)),
    decreases indices.len(),
{
    if indices.len() > 0 {
        lemma_followed(t.children[indices[0] as int], indices.drop_first());
    }
}

/// An entry that was put in a place stands there, and there is such a place
/// where there was an entry.
pub proof fn lemma_replaced(t: Tree, indices: Seq<usize>, new: Tree)
    ensures
        replaced_at(t, indices, new) is Some <==> node_at(t, indices) is Some,
        replaced_at(t, indices, new) matches Some(r) ==> node_at(r, indices) == Some(new),
    decreases indices.len(),
{
    if indices.len() > 0 && indices[0] < t.children.len() {
        lemma_replaced(t.children[indices[0] as int], indices.drop_first(), new);
    }
}

/// Putting an entry in a place changes nothing in any other place: neither
/// what stands beside it, nor the totals of the entries above it.
pub proof fn lemma_replaced_elsewhere(t: Tree, indices: Seq<usize>, new: Tree, other: Seq<usize>)
    requires
        replaced_at(t, indices, new) is Some,
        !indices.is_prefix_of(other),
    ensures
        match (node_at(t, other), node_at(replaced_at(t, indices, new)->0, other)) {
            (Some(before), Some(after)) => {
                &&& other.is_prefix_of(indices) ==> after == (Tree {
                    children: after.children,
                    ..before
                }) && after.children.len() == before.children.len()
                &&& !other.is_prefix_of(indices) ==> after == before
            },
            (None, None) => true,
            _ => false,
        },
    decreases other.len(),
{
    let r = replaced_at(t, indices, new)->0;
    if indices.len() == 0 {
        assert(indices =~= other.subrange(0, 0));
    } else {
        let i = indices[0] as int;
        let child = replaced_at(t.children[i], indices.drop_first(), new)->0;
        if other.len() == 0 {
            assert(other =~= indices.subrange(0, 0));
        } else {
            if other[0] == indices[0] {
                lemma_prefix_step(indices, other);
                lemma_prefix_step(other, indices);
                lemma_replaced_elsewhere(
                    t.children[i],
                    indices.drop_first(),
                    new,
                    other.drop_first(),
                );
            } else {
                lemma_prefix_step(other, indices);
            }
        }
    }
}

/// One list of positions starts with another where their first positions agree
/// and their rests do.
pub(crate) proof fn lemma_prefix_step(a: Seq<usize>, b: Seq<usize>)
    requires
        a.len() > 0,
        b.len() > 0,
    ensures
        a.is_prefix_of(b) <==> a[0] == b[0] && a.drop_first().is_prefix_of(b.drop_first()),
{
    if a.is_prefix_of(b) {
        assert(a[0] == b.subrange(0, a.len() as int)[0]);
        assert(a.drop_first() =~= b.drop_first().subrange(0, a.len() - 1)) by {
            assert forall|k: int| 0 <= k < a.len() - 1 implies a.drop_first()[k]
                == b.drop_first().subrange(0, a.len() - 1)[k] by {
                assert(a[k + 1] == b.subrange(0, a.len() as int)[k + 1]);
            }
        }
    }
    if a[0] == b[0] && a.drop_first().is_prefix_of(b.drop_first()) {
        assert(a =~= b.subrange(0, a.len() as int)) by {
            assert forall|k: int| 0 <= k < a.len() implies a[k] == b.subrange(
                0,
                a.len() as int,
            )[k] by {
                if k > 0 {
                    assert(a.drop_first()[k - 1] == b.drop_first().subrange(
                        0,
                        a.len() - 1,
                    )[k - 1]);
                }
            }
        }
    }
}

} // verus!
