//! A map from paths to values. Paths with the same parts are the same key.

use vstd::prelude::*;

use crate::paths::{parts_at_most, EntryPath};

verus! {

/// A map from paths to values, kept in the order of the paths.
#[derive(Debug)]
pub struct PathMap<V> {
    entries: Vec<(EntryPath, V)>,
}

/// The keys of entries.
spec fn keys_of<V>(entries: Seq<(EntryPath, V)>) -> Seq<Seq<Seq<u8>>> {
    entries.map_values(|e: (EntryPath, V)| crate::paths::parts(e.0@))
}

/// Whether keys are in order, each once.
pub open spec fn in_order(keys: Seq<Seq<Seq<u8>>>) -> bool {
    forall|i: int, j: int|
        0 <= i < j < keys.len() ==> crate::paths::parts_le(
            #[trigger] keys[i],
            #[trigger] keys[j],
        ) && keys[i] != keys[j]
}

/// Whether `keys` are the given ones, in order.
pub open spec fn lists(dom: Set<Seq<Seq<u8>>>, keys: Seq<Seq<Seq<u8>>>) -> bool {
    &&& in_order(keys)
    &&& keys.to_set() == dom
}

/// The given keys, in order.
pub open spec fn ordered_keys(dom: Set<Seq<Seq<u8>>>) -> Seq<Seq<Seq<u8>>> {
    choose|keys: Seq<Seq<Seq<u8>>>| lists(dom, keys)
}

/// There is one order of keys.
pub proof fn lemma_one_order(dom: Set<Seq<Seq<u8>>>, a: Seq<Seq<Seq<u8>>>, b: Seq<Seq<Seq<u8>>>)
    requires
        lists(dom, a),
        lists(dom, b),
    ensures
        a == b,
    decreases a.len(),
{
    let le = |p: Seq<Seq<u8>>, q: Seq<Seq<u8>>| crate::paths::parts_le(p, q);
    crate::paths::lemma_parts_le_total();
    if a.len() == 0 {
        if b.len() > 0 {
            assert(b.to_set().contains(b[0]));
            assert(a.to_set().contains(b[0]));
        }
        assert(a =~= b);
    } else {
        let x = a.last();
        assert(a.to_set().contains(x));
        assert(b.to_set().contains(x));
        let y = b.last();
        assert(b.to_set().contains(y));
        assert(a.to_set().contains(y));
        let i = choose|i: int| 0 <= i < a.len() && a[i] == y;
        let j = choose|j: int| 0 <= j < b.len() && b[j] == x;
        if x != y {
            assert(le(a[i], a[a.len() - 1]));
            assert(le(b[j], b[b.len() - 1]));
            assert(le(x, y) && le(y, x));
        }
        let c = a.drop_last();
        let d = b.drop_last();
        let rest = dom.remove(x);
        assert forall|k: Seq<Seq<u8>>| #[trigger] c.to_set().contains(k) == rest.contains(k) by {
            if c.contains(k) {
                let n = choose|n: int| 0 <= n < c.len() && c[n] == k;
                assert(a[n] == k);
                assert(a.to_set().contains(k));
                assert(a[n] != a[a.len() - 1]);
            }
            if rest.contains(k) {
                assert(a.to_set().contains(k));
                let n = choose|n: int| 0 <= n < a.len() && a[n] == k;
                assert(c[n] == k);
            }
        }
        assert(c.to_set() =~= rest);
        assert forall|k: Seq<Seq<u8>>| #[trigger] d.to_set().contains(k) == rest.contains(k) by {
            if d.contains(k) {
                let n = choose|n: int| 0 <= n < d.len() && d[n] == k;
                assert(b[n] == k);
                assert(b.to_set().contains(k));
                assert(b[n] != b[b.len() - 1]);
            }
            if rest.contains(k) {
                assert(b.to_set().contains(k));
                let n = choose|n: int| 0 <= n < b.len() && b[n] == k;
                assert(d[n] == k);
            }
        }
        assert(d.to_set() =~= rest);
        lemma_one_order(rest, c, d);
        assert(a =~= c.push(x));
        assert(b =~= d.push(x));
    }
}

/// Finitely many keys have an order.
pub proof fn lemma_some_order(dom: Set<Seq<Seq<u8>>>)
    requires
        dom.finite(),
    ensures
        lists(dom, ordered_keys(dom)),
    decreases dom.len(),
{
    if dom.len() == 0 {
        let none = Seq::<Seq<Seq<u8>>>::empty();
        assert(none.to_set() =~= dom);
        assert(lists(dom, none));
    } else {
        let key = dom.choose();
        let rest = dom.remove(key);
        lemma_some_order(rest);
        let keys = ordered_keys(rest);
        assert(!keys.contains(key)) by {
            if keys.contains(key) {
                assert(keys.to_set().contains(key));
            }
        }
        let at = lemma_place(keys, key);
        lemma_inserted_in_order(keys, at, key);
        let all = keys.insert(at, key);
        assert forall|k: Seq<Seq<u8>>| all.to_set().contains(k) == dom.contains(k) by {
            if all.contains(k) {
                let n = choose|n: int| 0 <= n < all.len() && all[n] == k;
                if n != at {
                    let m = if n < at {
                        n
                    } else {
                        n - 1
                    };
                    assert(keys[m] == k);
                    assert(keys.to_set().contains(k));
                }
            }
            if dom.contains(k) {
                if k == key {
                    assert(all[at] == k);
                } else {
                    assert(keys.to_set().contains(k));
                    let m = choose|m: int| 0 <= m < keys.len() && keys[m] == k;
                    let n = if m < at {
                        m
                    } else {
                        m + 1
                    };
                    assert(all[n] == k);
                }
            }
        }
        assert(all.to_set() =~= dom);
        assert(lists(dom, all));
    }
}

/// Where a key belongs among others.
proof fn lemma_place(keys: Seq<Seq<Seq<u8>>>, key: Seq<Seq<u8>>) -> (at: int)
    requires
        in_order(keys),
        !keys.contains(key),
    ensures
        0 <= at <= keys.len(),
        forall|i: int|
            0 <= i < keys.len() ==> (if i < at {
                crate::paths::parts_le(#[trigger] keys[i], key)
            } else {
                crate::paths::parts_le(key, keys[i])
            }) && keys[i] != key,
    decreases keys.len(),
{
    let le = |p: Seq<Seq<u8>>, q: Seq<Seq<u8>>| crate::paths::parts_le(p, q);
    crate::paths::lemma_parts_le_total();
    assert forall|i: int| 0 <= i < keys.len() implies #[trigger] keys[i] != key by {
        assert(keys.contains(keys[i]));
    }
    if keys.len() == 0 {
        0
    } else if crate::paths::parts_le(keys.last(), key) {
        assert forall|i: int| 0 <= i < keys.len() implies crate::paths::parts_le(
            #[trigger] keys[i],
            key,
        ) by {
            if i < keys.len() - 1 {
                assert(le(keys[i], keys[keys.len() - 1]) && le(keys.last(), key));
                assert(le(keys[i], key));
            }
        }
        keys.len() as int
    } else {
        assert(le(key, keys.last()) || le(keys.last(), key));
        let d = keys.drop_last();
        assert(in_order(d));
        let at = lemma_place(d, key);
        assert forall|i: int| 0 <= i < keys.len() implies (if i < at {
            crate::paths::parts_le(#[trigger] keys[i], key)
        } else {
            crate::paths::parts_le(key, keys[i])
        }) by {
            if i < d.len() {
                assert(d[i] == keys[i]);
            }
        }
        at
    }
}

impl<V> View for PathMap<V> {
    type V = Map<Seq<Seq<u8>>, V>;

    closed spec fn view(&self) -> Map<Seq<Seq<u8>>, V> {
        map_of(self.entries@)
    }
}

/// The map that entries stand for.
spec fn map_of<V>(entries: Seq<(EntryPath, V)>) -> Map<Seq<Seq<u8>>, V> {
    Map::new(
        |k: Seq<Seq<u8>>| keys_of(entries).contains(k),
        |k: Seq<Seq<u8>>| entries[keys_of(entries).index_of(k)].1,
    )
}

/// What entries in order say of their map.
proof fn lemma_entry<V>(entries: Seq<(EntryPath, V)>, i: int)
    requires
        in_order(keys_of(entries)),
        0 <= i < entries.len(),
    ensures
        map_of(entries).dom().contains(crate::paths::parts(entries[i].0@)),
        map_of(entries)[crate::paths::parts(entries[i].0@)] == entries[i].1,
{
    let keys = keys_of(entries);
    assert(keys[i] == crate::paths::parts(entries[i].0@));
    assert(keys.contains(keys[i]));
    let n = keys.index_of(keys[i]);
    assert(keys[n] == keys[i]);
    assert(n == i);
}

impl<V> PathMap<V> {
    #[verifier::type_invariant]
    spec fn ordered(self) -> bool {
        in_order(keys_of(self.entries@))
    }

    /// A map without entries.
    pub fn new() -> (res: Self)
        ensures
            res@ == Map::<Seq<Seq<u8>>, V>::empty(),
    {
        let res = PathMap { entries: Vec::new() };
        assert(res@ =~= Map::<Seq<Seq<u8>>, V>::empty());
        res
    }

    /// Where the given path stands, or where it belongs.
    fn place(&self, path: &EntryPath) -> (res: (bool, usize))
        ensures
            res.1 <= self.entries@.len(),
            res.0 ==> res.1 < self.entries@.len() && keys_of(self.entries@)[res.1 as int]
                == crate::paths::parts(path@),
            res.0 == self@.dom().contains(crate::paths::parts(path@)),
            !res.0 ==> forall|i: int|
                0 <= i < self.entries@.len() ==> (if i < res.1 {
                    crate::paths::parts_le(
                        #[trigger] keys_of(self.entries@)[i],
                        crate::paths::parts(path@),
                    )
                } else {
                    crate::paths::parts_le(
                        crate::paths::parts(path@),
                        keys_of(self.entries@)[i],
                    )
                }) && keys_of(self.entries@)[i] != crate::paths::parts(path@),
    {
        proof {
            use_type_invariant(self);
            crate::paths::lemma_parts_le_total();
        }
        let ghost keys = keys_of(self.entries@);
        let ghost key = crate::paths::parts(path@);
        let ghost le = |p: Seq<Seq<u8>>, q: Seq<Seq<u8>>| crate::paths::parts_le(p, q);
        let wanted = path.parts();
        let mut lo: usize = 0;
        let mut hi: usize = self.entries.len();
        while lo < hi
            invariant
                keys == keys_of(self.entries@),
                in_order(keys),
                key == crate::paths::parts(path@),
                crate::paths::byte_strings(wanted@) == key,
                le == (|p: Seq<Seq<u8>>, q: Seq<Seq<u8>>| crate::paths::parts_le(p, q)),
                vstd::relations::total_ordering(le),
                lo <= hi <= self.entries@.len(),
                forall|i: int|
                    0 <= i < lo ==> crate::paths::parts_le(#[trigger] keys[i], key) && keys[i]
                        != key,
                forall|i: int|
                    hi <= i < keys.len() ==> crate::paths::parts_le(key, #[trigger] keys[i])
                        && keys[i] != key,
            decreases hi - lo,
        {
            let mid: usize = lo + (hi - lo) / 2;
            let here = self.entries[mid].0.parts();
            proof {
                assert(crate::paths::byte_strings(here@) == keys[mid as int]);
                assert(le(key, keys[mid as int]) || le(keys[mid as int], key));
            }
            let below = parts_at_most(&here, &wanted);
            let above = parts_at_most(&wanted, &here);
            if below && above {
                proof {
                    assert(le(key, keys[mid as int]) && le(keys[mid as int], key));
                    assert(keys.contains(key));
                }
                return (true, mid);
            } else if below {
                proof {
                    assert(keys[mid as int] != key) by {
                        if keys[mid as int] == key {
                            assert(le(key, key));
                        }
                    }
                    assert forall|i: int| 0 <= i < mid + 1 implies crate::paths::parts_le(
                        #[trigger] keys[i],
                        key,
                    ) && keys[i] != key by {
                        if i < mid {
                            assert(le(keys[i], keys[mid as int]) && le(keys[mid as int], key));
                            assert(le(keys[i], key));
                            if keys[i] == key {
                                assert(le(key, keys[mid as int]));
                            }
                        }
                    }
                }
                lo = mid + 1;
            } else {
                proof {
                    assert(keys[mid as int] != key) by {
                        if keys[mid as int] == key {
                            assert(le(key, key));
                        }
                    }
                    assert forall|i: int| mid <= i < keys.len() implies crate::paths::parts_le(
                        key,
                        #[trigger] keys[i],
                    ) && keys[i] != key by {
                        if i > mid {
                            assert(le(keys[mid as int], keys[i]) && le(key, keys[mid as int]));
                            assert(le(key, keys[i]));
                            if keys[i] == key {
                                assert(le(keys[mid as int], key));
                            }
                        }
                    }
                }
                hi = mid;
            }
        }
        proof {
            assert(!keys.contains(key));
        }
        (false, lo)
    }

    /// Whether the map has no entries.
    pub fn is_empty(&self) -> (res: bool)
        ensures
            res == (self@ == Map::<Seq<Seq<u8>>, V>::empty()),
    {
        proof {
            use_type_invariant(self);
            if self.entries@.len() > 0 {
                lemma_entry(self.entries@, 0);
            } else {
                assert(self@ =~= Map::<Seq<Seq<u8>>, V>::empty());
            }
        }
        self.entries.len() == 0
    }

    /// The number of entries.
    pub fn len(&self) -> (res: usize)
        ensures
            self@.dom().finite(),
            res == self@.dom().len(),
    {
        proof {
            use_type_invariant(self);
            let keys = keys_of(self.entries@);
            assert(keys.no_duplicates());
            keys.unique_seq_to_set();
            assert(keys.to_set() =~= self@.dom());
        }
        self.entries.len()
    }

    /// The value of a path.
    pub fn get(&self, path: &EntryPath) -> (res: Option<&V>)
        ensures
            match res {
                Some(v) => self@.dom().contains(crate::paths::parts(path@))
                    && self@[crate::paths::parts(path@)] == *v,
                None => !self@.dom().contains(crate::paths::parts(path@)),
            },
    {
        let (found, at) = self.place(path);
        if found {
            proof {
                use_type_invariant(self);
                lemma_entry(self.entries@, at as int);
            }
            Some(&self.entries[at].1)
        } else {
            None
        }
    }

    /// Whether a path has a value.
    pub fn contains_key(&self, path: &EntryPath) -> (res: bool)
        ensures
            res == self@.dom().contains(crate::paths::parts(path@)),
    {
        self.place(path).0
    }

    /// Gives a path a value.
    pub fn insert(&mut self, path: EntryPath, value: V)
        ensures
            final(self)@ == old(self)@.insert(crate::paths::parts(path@), value),
    {
        let (found, at) = self.place(&path);
        proof {
            use_type_invariant(&*self);
        }
        let ghost before = self.entries@;
        let ghost key = crate::paths::parts(path@);
        let mut entries: Vec<(EntryPath, V)> = Vec::new();
        std::mem::swap(&mut entries, &mut self.entries);
        if found {
            entries.set(at, (path, value));
            proof {
                assert(keys_of(entries@) =~= keys_of(before));
            }
        } else {
            entries.insert(at, (path, value));
            proof {
                assert(keys_of(entries@) =~= keys_of(before).insert(at as int, key));
                lemma_inserted_in_order(keys_of(before), at as int, key);
            }
        }
        proof {
            let new = map_of(entries@);
            let want = map_of(before).insert(key, value);
            assert forall|k: Seq<Seq<u8>>| #[trigger]
                new.dom().contains(k) == want.dom().contains(k) && (new.dom().contains(k) ==> new[k]
                == want[k]) by {
                if new.dom().contains(k) {
                    let i = choose|i: int| 0 <= i < keys_of(entries@).len() && keys_of(entries@)[i] == k;
                    lemma_entry(entries@, i);
                    if i != at {
                        let n = if !found && i > at {
                            i - 1
                        } else {
                            i
                        };
                        assert(before[n] == entries@[i]);
                        lemma_entry(before, n);
                        assert(keys_of(entries@)[i] != keys_of(entries@)[at as int]);
                    }
                }
                if want.dom().contains(k) {
                    if k == key {
                        lemma_entry(entries@, at as int);
                    } else {
                        let n = choose|n: int|
                            0 <= n < keys_of(before).len() && keys_of(before)[n] == k;
                        let i = if !found && n >= at {
                            n + 1
                        } else {
                            n
                        };
                        assert(before[n] == entries@[i]);
                        lemma_entry(entries@, i);
                    }
                }
            }
            assert(new =~= want);
        }
        self.entries = entries;
    }

    /// Takes the value of a path away, and tells whether there was one.
    pub fn remove(&mut self, path: &EntryPath) -> (res: bool)
        ensures
            res == old(self)@.dom().contains(crate::paths::parts(path@)),
            final(self)@ == old(self)@.remove(crate::paths::parts(path@)),
    {
        let (found, at) = self.place(path);
        proof {
            use_type_invariant(&*self);
        }
        let ghost before = self.entries@;
        let ghost key = crate::paths::parts(path@);
        if !found {
            assert(self@ =~= self@.remove(key));
            return false;
        }
        let mut entries: Vec<(EntryPath, V)> = Vec::new();
        std::mem::swap(&mut entries, &mut self.entries);
        let _ = entries.remove(at);
        proof {
            assert(keys_of(entries@) =~= keys_of(before).remove(at as int));
            let new = map_of(entries@);
            let want = map_of(before).remove(key);
            assert forall|k: Seq<Seq<u8>>| #[trigger]
                new.dom().contains(k) == want.dom().contains(k) && (new.dom().contains(k) ==> new[k]
                == want[k]) by {
                if new.dom().contains(k) {
                    let i = choose|i: int| 0 <= i < keys_of(entries@).len() && keys_of(entries@)[i] == k;
                    lemma_entry(entries@, i);
                    let n = if i >= at {
                        i + 1
                    } else {
                        i
                    };
                    assert(before[n] == entries@[i]);
                    lemma_entry(before, n);
                    assert(keys_of(before)[n] != keys_of(before)[at as int]);
                }
                if want.dom().contains(k) {
                    let n = choose|n: int|
                        0 <= n < keys_of(before).len() && keys_of(before)[n] == k;
                    let i = if n > at {
                        n - 1
                    } else {
                        n
                    };
                    assert(n != at);
                    assert(before[n] == entries@[i]);
                    lemma_entry(entries@, i);
                }
            }
            assert(new =~= want);
        }
        self.entries = entries;
        true
    }

    /// Takes all values away.
    pub fn clear(&mut self)
        ensures
            final(self)@ == Map::<Seq<Seq<u8>>, V>::empty(),
    {
        self.entries = Vec::new();
        assert(self@ =~= Map::<Seq<Seq<u8>>, V>::empty());
    }

    /// The values, in the order of their paths.
    pub fn values(&self) -> (res: Vec<&V>)
        ensures
            lists(self@.dom(), ordered_keys(self@.dom())),
            res@.len() == ordered_keys(self@.dom()).len(),
            forall|i: int|
                0 <= i < res@.len() ==> *(#[trigger] res@[i])
                    == self@[ordered_keys(self@.dom())[i]],
    {
        let mut out: Vec<&V> = Vec::with_capacity(self.entries.len());
        let mut i: usize = 0;
        while i < self.entries.len()
            invariant
                i <= self.entries@.len(),
                out@.len() == i,
                forall|k: int| 0 <= k < i ==> *(#[trigger] out@[k]) == self.entries@[k].1,
            decreases self.entries@.len() - i,
        {
            out.push(&self.entries[i].1);
            i = i + 1;
        }
        proof {
            use_type_invariant(self);
            let keys = keys_of(self.entries@);
            assert(keys.to_set() =~= self@.dom());
            assert(lists(self@.dom(), keys));
            lemma_one_order(self@.dom(), keys, ordered_keys(self@.dom()));
            assert forall|i: int| 0 <= i < out@.len() implies *(#[trigger] out@[i])
                == self@[keys[i]] by {
                lemma_entry(self.entries@, i);
            }
        }
        out
    }

    /// Keeps the values whose paths pass a test.
    pub(crate) fn retain_paths<F: Fn(&EntryPath) -> bool>(
        &mut self,
        test: F,
        Ghost(wanted): Ghost<spec_fn(Seq<Seq<u8>>) -> bool>,
    )
        requires
            forall|p: &EntryPath| call_requires(test, (p,)),
            forall|p: &EntryPath, res: bool|
                call_ensures(test, (p,), res) ==> res == wanted(crate::paths::parts(p@)),
        ensures
            final(self)@ == old(self)@.restrict(Set::new(wanted)),
    {
        proof {
            use_type_invariant(&*self);
        }
        let ghost before = self.entries@;
        let mut entries: Vec<(EntryPath, V)> = Vec::new();
        std::mem::swap(&mut entries, &mut self.entries);
        let mut i: usize = 0;
        let ghost mut from: Seq<int> = Seq::new(before.len(), |k: int| k);
        let ghost mut seen: int = 0;
        while i < entries.len()
            invariant
                forall|p: &EntryPath| call_requires(test, (p,)),
                forall|p: &EntryPath, res: bool|
                    call_ensures(test, (p,), res) ==> res == wanted(crate::paths::parts(p@)),
                i <= entries@.len(),
                0 <= seen,
                seen + entries@.len() - i == before.len(),
                from.len() == entries@.len(),
                forall|k: int|
                    0 <= k < entries@.len() ==> 0 <= #[trigger] from[k] < before.len()
                        && entries@[k] == before[from[k]],
                forall|k: int, m: int|
                    0 <= k < m < entries@.len() ==> #[trigger] from[k] < #[trigger] from[m],
                forall|k: int| i <= k < entries@.len() ==> #[trigger] from[k] == seen + k - i,
                forall|k: int|
                    0 <= k < i ==> wanted(crate::paths::parts((#[trigger] entries@[k]).0@))
                        && from[k] < seen,
                forall|n: int|
                    0 <= n < seen && wanted(crate::paths::parts((#[trigger] before[n]).0@))
                        ==> exists|k: int| 0 <= k < i && #[trigger] from[k] == n,
            decreases entries@.len() - i,
        {
            let ghost from_before = from;
            let ghost i_before = i;
            let keep = test(&entries[i].0);
            if keep {
                i = i + 1;
            } else {
                let _ = entries.remove(i);
                proof {
                    from = from.remove(i as int);
                }
            }
            proof {
                assert forall|n: int| 0 <= n < seen + 1 && wanted(
                    crate::paths::parts((#[trigger] before[n]).0@),
                ) implies exists|k: int| 0 <= k < i && #[trigger] from[k] == n by {
                    if n < seen {
                        let k = choose|k: int| 0 <= k < i_before && #[trigger] from_before[k] == n;
                        assert(from[k] == n);
                    } else {
                        assert(from_before[i_before as int] == seen);
                        assert(keep);
                        assert(from[i_before as int] == n);
                    }
                }
                seen = seen + 1;
            }
        }
        proof {
            let new = map_of(entries@);
            let want = map_of(before).restrict(Set::new(wanted));
            assert forall|k: int, m: int| 0 <= k < m < keys_of(entries@).len() implies
                crate::paths::parts_le(
                #[trigger] keys_of(entries@)[k],
                #[trigger] keys_of(entries@)[m],
            ) && keys_of(entries@)[k] != keys_of(entries@)[m] by {
                assert(from[k] < from[m]);
                assert(keys_of(before)[from[k]] == keys_of(entries@)[k]);
                assert(keys_of(before)[from[m]] == keys_of(entries@)[m]);
            }
            assert forall|k: Seq<Seq<u8>>| #[trigger]
                new.dom().contains(k) == want.dom().contains(k) && (new.dom().contains(k) ==> new[k]
                == want[k]) by {
                if new.dom().contains(k) {
                    let n = choose|n: int| 0 <= n < keys_of(entries@).len() && keys_of(entries@)[n] == k;
                    lemma_entry(entries@, n);
                    lemma_entry(before, from[n]);
                }
                if want.dom().contains(k) {
                    let n = choose|n: int|
                        0 <= n < keys_of(before).len() && keys_of(before)[n] == k;
                    assert(wanted(crate::paths::parts(before[n].0@)));
                    let m = choose|m: int| 0 <= m < i && #[trigger] from[m] == n;
                    lemma_entry(entries@, m);
                }
            }
            assert(new =~= want);
        }
        self.entries = entries;
    }
}

/// Keys stay in order where one is put between the smaller and the larger.
proof fn lemma_inserted_in_order(keys: Seq<Seq<Seq<u8>>>, at: int, key: Seq<Seq<u8>>)
    requires
        in_order(keys),
        0 <= at <= keys.len(),
        forall|i: int|
            0 <= i < keys.len() ==> (if i < at {
                crate::paths::parts_le(#[trigger] keys[i], key)
            } else {
                crate::paths::parts_le(key, keys[i])
            }) && keys[i] != key,
    ensures
        in_order(keys.insert(at, key)),
{
    let new = keys.insert(at, key);
    assert forall|i: int, j: int| 0 <= i < j < new.len() implies crate::paths::parts_le(
        #[trigger] new[i],
        #[trigger] new[j],
    ) && new[i] != new[j] by {
        let a = if i > at {
            i - 1
        } else {
            i
        };
        let b = if j > at {
            j - 1
        } else {
            j
        };
        if i != at {
            assert(new[i] == keys[a]);
        }
        if j != at {
            assert(new[j] == keys[b]);
        }
    }
}

} // verus!
