//! Paths as the byte strings that a Unix system gives them, and the parts
//! that they consist of.

use vstd::prelude::*;

use crate::order::lex_le;
use vstd::relations::total_ordering;

verus! {

/// The byte that separates the parts of a path.
pub const SLASH: u8 = 0x2f;

/// The byte of which the name of a current directory consists.
pub const DOT: u8 = 0x2e;

/// A path.
#[derive(Debug)]
pub struct EntryPath {
    bytes: Vec<u8>,
    /// Whether the path is known to be spelled as its parts are; paths of
    /// which this is known differ wherever their bytes do.
    plain: bool,
}

impl View for EntryPath {
    type V = Seq<u8>;

    closed spec fn view(&self) -> Seq<u8> {
        self.bytes@
    }
}

impl EntryPath {
    #[verifier::type_invariant]
    spec fn spelled_if_plain(self) -> bool {
        self.plain ==> self.bytes@ == spelled(parts(self.bytes@))
    }
}

/// Where the bytes behind the last separator begin.
pub open spec fn piece_start(b: Seq<u8>) -> int
    decreases b.len(),
{
    if b.len() == 0 || b.last() == SLASH {
        b.len() as int
    } else {
        piece_start(b.drop_last())
    }
}

/// Where the pieces between separators lie, without the empty ones and
/// without a single dot anywhere but at the very start.
pub open spec fn body_spans(b: Seq<u8>) -> Seq<(int, int)>
    decreases b.len(),
{
    let k = piece_start(b);
    let earlier = if 0 < k <= b.len() {
        body_spans(b.take(k - 1))
    } else {
        seq![]
    };
    let piece = b.subrange(k, b.len() as int);
    if piece.len() == 0 || (piece == seq![DOT] && k != 0) {
        earlier
    } else {
        earlier.push((k, b.len() as int))
    }
}

/// Where the parts of a path lie: the separator that it starts with, if any,
/// then its pieces.
pub open spec fn spans(b: Seq<u8>) -> Seq<(int, int)> {
    if b.len() > 0 && b[0] == SLASH {
        seq![(0int, 1int)] + body_spans(b)
    } else {
        body_spans(b)
    }
}

/// The parts of a path. Two paths are the same where their parts are.
pub open spec fn parts(b: Seq<u8>) -> Seq<Seq<u8>> {
    spans(b).map_values(|s: (int, int)| b.subrange(s.0, s.1))
}

/// A list of parts with one separator between any two of them.
pub open spec fn spelled(ps: Seq<Seq<u8>>) -> Seq<u8>
    decreases ps.len(),
{
    if ps.len() == 0 {
        Seq::empty()
    } else {
        let head = spelled(ps.drop_last());
        if head.len() == 0 || head.last() == SLASH {
            head + ps.last()
        } else {
            head.push(SLASH) + ps.last()
        }
    }
}

proof fn lemma_piece_start(b: Seq<u8>)
    ensures
        0 <= piece_start(b) <= b.len(),
        forall|i: int| piece_start(b) <= i < b.len() ==> b[i] != SLASH,
        piece_start(b) > 0 ==> b[piece_start(b) - 1] == SLASH,
    decreases b.len(),
{
    if b.len() > 0 && b.last() != SLASH {
        let d = b.drop_last();
        lemma_piece_start(d);
        assert forall|i: int| piece_start(b) <= i < b.len() implies b[i] != SLASH by {
            if i < d.len() {
                assert(d[i] == b[i]);
            }
        }
        if piece_start(b) > 0 {
            assert(d[piece_start(b) - 1] == b[piece_start(b) - 1]);
        }
    }
}

pub(crate) proof fn lemma_piece_start_is(b: Seq<u8>, k: int)
    requires
        0 <= k <= b.len(),
        forall|i: int| k <= i < b.len() ==> b[i] != SLASH,
        k > 0 ==> b[k - 1] == SLASH,
    ensures
        piece_start(b) == k,
{
    lemma_piece_start(b);
}

proof fn lemma_body_spans(b: Seq<u8>)
    ensures
        forall|i: int|
            0 <= i < body_spans(b).len() ==> {
                let s = #[trigger] body_spans(b)[i];
                0 <= s.0 < s.1 <= b.len()
            },
    decreases b.len(),
{
    lemma_piece_start(b);
    let k = piece_start(b);
    if k > 0 {
        lemma_body_spans(b.take(k - 1));
    }
    lemma_body_step(b);
}

/// The pieces of a path are those before its last piece, and that piece.
proof fn lemma_body_step(b: Seq<u8>)
    ensures
        ({
            let k = piece_start(b);
            let earlier = if k > 0 {
                body_spans(b.take(k - 1))
            } else {
                seq![]
            };
            ||| body_spans(b) == earlier
            ||| body_spans(b) == earlier.push((k, b.len() as int)) && k < b.len()
        }),
{
    lemma_piece_start(b);
}

/// Every part of a path lies within it and is not empty.
pub proof fn lemma_spans_within(b: Seq<u8>)
    ensures
        forall|i: int|
            0 <= i < spans(b).len() ==> {
                let s = #[trigger] spans(b)[i];
                0 <= s.0 < s.1 <= b.len()
            },
{
    lemma_body_spans(b);
}

/// The places of the special parts in the order of parts: the root, the
/// current directory, the parent directory, then all names.
pub open spec fn part_rank(p: Seq<u8>) -> int {
    if p == seq![SLASH] {
        0
    } else if p == seq![DOT] {
        1
    } else if p == seq![DOT, DOT] {
        2
    } else {
        3
    }
}

/// Whether one byte string comes before another or equals it.
pub open spec fn bytes_le(a: Seq<u8>, b: Seq<u8>) -> bool {
    lex_le(a, b, |x: u8, y: u8| x <= y)
}

/// Whether one part comes before another or equals it.
pub open spec fn part_le(p: Seq<u8>, q: Seq<u8>) -> bool {
    part_rank(p) < part_rank(q) || (part_rank(p) == part_rank(q) && bytes_le(p, q))
}

/// Whether one list of parts comes before another or equals it.
pub open spec fn parts_le(a: Seq<Seq<u8>>, b: Seq<Seq<u8>>) -> bool {
    lex_le(a, b, |p: Seq<u8>, q: Seq<u8>| part_le(p, q))
}

/// Whether a path lies at or below another one.
pub open spec fn lies_under(path: Seq<u8>, base: Seq<u8>) -> bool {
    parts(base).is_prefix_of(parts(path))
}

/// The name that a path ends in; a path that ends in a root, a current or a
/// parent directory has none.
pub open spec fn file_name_of(b: Seq<u8>) -> Option<Seq<u8>> {
    let p = parts(b);
    if p.len() > 0 && part_rank(p.last()) == 3 {
        Some(p.last())
    } else {
        None
    }
}

/// The path up to the end of the last part but one. A path that ends in a
/// root, or is empty, has none.
pub open spec fn parent_of(b: Seq<u8>) -> Option<Seq<u8>> {
    let s = spans(b);
    if s.len() == 0 || part_rank(parts(b).last()) == 0 {
        None
    } else if s.len() == 1 {
        Some(Seq::empty())
    } else {
        Some(b.take(s[s.len() - 2].1))
    }
}

/// What is left of a path behind its first `n` parts.
pub open spec fn behind_parts(b: Seq<u8>, n: int) -> Seq<u8> {
    let s = spans(b);
    if n < s.len() {
        b.subrange(s[n].0, s.last().1)
    } else {
        Seq::empty()
    }
}

/// A path taken from a base: an absolute path stands for itself.
pub open spec fn joined(base: Seq<u8>, path: Seq<u8>) -> Seq<u8> {
    if path.len() > 0 && path[0] == SLASH {
        path
    } else if base.len() > 0 && base.last() != SLASH {
        base.push(SLASH) + path
    } else {
        base + path
    }
}

/// The text that a byte string shows as: what is not UTF-8 in it is replaced.
pub uninterp spec fn shown(b: Seq<u8>) -> Seq<char>;

/// `String::from_utf8_lossy` gives the text of a byte string, which depends
/// on nothing but the bytes. Bytes that are UTF-8 give the text they encode.
#[verifier::external_body]
fn lossy_text(b: &[u8]) -> (res: String)
    ensures
        res@ == shown(b@),
        vstd::utf8::valid_utf8(b@) ==> vstd::utf8::encode_utf8(res@) == b@,
{
    String::from_utf8_lossy(b).into_owned()
}

/// The name that an entry is listed under.
pub open spec fn display_name_of(b: Seq<u8>) -> Seq<char> {
    match file_name_of(b) {
        Some(name) => if shown(name).len() > 0 {
            shown(name)
        } else {
            shown(b)
        },
        None => shown(b),
    }
}

/// A path as it shows in a listing of `base`: relative to it where it lies
/// below it.
pub open spec fn displayed_path(base: Seq<u8>, path: Seq<u8>) -> Seq<char> {
    let rest = behind_parts(path, parts(base).len() as int);
    if lies_under(path, base) && rest.len() > 0 {
        shown(rest)
    } else {
        shown(path)
    }
}

/// The order of bytes is total.
proof fn lemma_bytes_le_total()
    ensures
        total_ordering(|a: Seq<u8>, b: Seq<u8>| bytes_le(a, b)),
{
    let le = |x: u8, y: u8| x <= y;
    crate::order::lemma_lex_total(le);
    assert((|a: Seq<u8>, b: Seq<u8>| bytes_le(a, b)) =~= (|a: Seq<u8>, b: Seq<u8>|
        lex_le(a, b, le)));
}

/// The order of parts is total.
proof fn lemma_part_le_total()
    ensures
        total_ordering(|p: Seq<u8>, q: Seq<u8>| part_le(p, q)),
{
    let le = |p: Seq<u8>, q: Seq<u8>| part_le(p, q);
    let bl = |a: Seq<u8>, b: Seq<u8>| bytes_le(a, b);
    lemma_bytes_le_total();
    assert forall|p: Seq<u8>| #[trigger] le(p, p) by {
        assert(bl(p, p));
    }
    assert forall|p: Seq<u8>, q: Seq<u8>| #[trigger] le(p, q) && #[trigger] le(q, p) implies p
        == q by {
        assert(bl(p, q) && bl(q, p));
    }
    assert forall|p: Seq<u8>, q: Seq<u8>, r: Seq<u8>| #[trigger]
        le(p, q) && #[trigger] le(q, r) implies le(p, r) by {
        if part_rank(p) == part_rank(q) && part_rank(q) == part_rank(r) {
            assert(bl(p, q) && bl(q, r));
            assert(bl(p, r));
        }
    }
    assert forall|p: Seq<u8>, q: Seq<u8>| #[trigger] le(p, q) || #[trigger] le(q, p) by {
        assert(bl(p, q) || bl(q, p));
    }
}

/// The order of lists of parts is total.
pub proof fn lemma_parts_le_total()
    ensures
        total_ordering(|a: Seq<Seq<u8>>, b: Seq<Seq<u8>>| parts_le(a, b)),
{
    let le = |p: Seq<u8>, q: Seq<u8>| part_le(p, q);
    lemma_part_le_total();
    crate::order::lemma_lex_total(le);
    assert((|a: Seq<Seq<u8>>, b: Seq<Seq<u8>>| parts_le(a, b)) =~= (|
        a: Seq<Seq<u8>>,
        b: Seq<Seq<u8>>,
    | lex_le(a, b, le)));
}

/// The contents of several byte strings.
pub open spec fn byte_strings(v: Seq<Vec<u8>>) -> Seq<Seq<u8>> {
    v.map_values(|b: Vec<u8>| b@)
}

/// Positions in a path as mathematical ones.
spec fn exact_spans(v: Seq<(usize, usize)>) -> Seq<(int, int)> {
    v.map_values(|s: (usize, usize)| (s.0 as int, s.1 as int))
}

/// Whether two byte strings are equal.
fn same_bytes(a: &[u8], b: &[u8]) -> (res: bool)
    ensures
        res == (a@ == b@),
{
    if a.len() != b.len() {
        return false;
    }
    let mut i: usize = 0;
    while i < a.len()
        invariant
            a@.len() == b@.len(),
            i <= a@.len(),
            forall|k: int| 0 <= k < i ==> a@[k] == b@[k],
        decreases a@.len() - i,
    {
        if a[i] != b[i] {
            return false;
        }
        i = i + 1;
    }
    assert(a@ =~= b@);
    true
}

/// Whether one byte string comes before another or equals it.
fn bytes_at_most(a: &[u8], b: &[u8]) -> (res: bool)
    ensures
        res == bytes_le(a@, b@),
{
    let ghost le = |x: u8, y: u8| x <= y;
    let mut i: usize = 0;
    while i < a.len() && i < b.len() && a[i] == b[i]
        invariant
            i <= a@.len(),
            i <= b@.len(),
            forall|k: int| 0 <= k < i ==> a@[k] == b@[k],
        decreases a@.len() - i,
    {
        i = i + 1;
    }
    proof {
        crate::order::lemma_lex_common_prefix(a@, b@, i as int, le);
    }
    if i >= a.len() {
        true
    } else if i >= b.len() {
        false
    } else {
        a[i] < b[i]
    }
}

fn rank_of(p: &[u8]) -> (res: u8)
    ensures
        res == part_rank(p@),
{
    if p.len() == 1 && p[0] == SLASH {
        assert(p@ =~= seq![SLASH]);
        0
    } else if p.len() == 1 && p[0] == DOT {
        assert(p@ =~= seq![DOT]);
        1
    } else if p.len() == 2 && p[0] == DOT && p[1] == DOT {
        assert(p@ =~= seq![DOT, DOT]);
        2
    } else {
        proof {
            assert(seq![SLASH].len() == 1 && seq![SLASH][0] == SLASH);
            assert(seq![DOT].len() == 1 && seq![DOT][0] == DOT);
            assert(seq![DOT, DOT].len() == 2 && seq![DOT, DOT][0] == DOT && seq![DOT, DOT][1]
                == DOT);
        }
        3
    }
}

/// Whether one list of parts comes before another or equals it.
pub(crate) fn parts_at_most(a: &Vec<Vec<u8>>, b: &Vec<Vec<u8>>) -> (res: bool)
    ensures
        res == parts_le(byte_strings(a@), byte_strings(b@)),
{
    let ghost le = |p: Seq<u8>, q: Seq<u8>| part_le(p, q);
    let ghost x = byte_strings(a@);
    let ghost y = byte_strings(b@);
    let mut i: usize = 0;
    while i < a.len() && i < b.len() && same_bytes(a[i].as_slice(), b[i].as_slice())
        invariant
            x == byte_strings(a@),
            y == byte_strings(b@),
            i <= a@.len(),
            i <= b@.len(),
            forall|k: int| 0 <= k < i ==> x[k] == y[k],
        decreases a@.len() - i,
    {
        assert(x[i as int] == y[i as int]);
        i = i + 1;
    }
    proof {
        crate::order::lemma_lex_common_prefix(x, y, i as int, le);
    }
    if i >= a.len() {
        true
    } else if i >= b.len() {
        false
    } else {
        assert(x.skip(i as int)[0] == a@[i as int]@);
        assert(y.skip(i as int)[0] == b@[i as int]@);
        let p = rank_of(a[i].as_slice());
        let q = rank_of(b[i].as_slice());
        p < q || (p == q && bytes_at_most(a[i].as_slice(), b[i].as_slice()))
    }
}

/// Whether one list of parts starts with another.
pub(crate) fn starts_with_parts(path: &Vec<Vec<u8>>, base: &Vec<Vec<u8>>) -> (res: bool)
    ensures
        res == byte_strings(base@).is_prefix_of(byte_strings(path@)),
{
    let ghost x = byte_strings(path@);
    let ghost y = byte_strings(base@);
    if base.len() > path.len() {
        return false;
    }
    let mut i: usize = 0;
    while i < base.len()
        invariant
            x == byte_strings(path@),
            y == byte_strings(base@),
            base@.len() <= path@.len(),
            i <= base@.len(),
            forall|k: int| 0 <= k < i ==> x[k] == y[k],
        decreases base@.len() - i,
    {
        if !same_bytes(base[i].as_slice(), path[i].as_slice()) {
            proof {
                assert(x[i as int] != y[i as int]);
                if y.is_prefix_of(x) {
                    assert(x.subrange(0, y.len() as int)[i as int] == x[i as int]);
                }
            }
            return false;
        }
        assert(x[i as int] == y[i as int]);
        i = i + 1;
    }
    assert(y =~= x.subrange(0, y.len() as int));
    true
}

/// Where the parts of a path lie.
fn span_list(b: &Vec<u8>) -> (res: Vec<(usize, usize)>)
    ensures
        exact_spans(res@) == spans(b@),
        forall|i: int| 0 <= i < res@.len() ==> (#[trigger] res@[i]).0 < res@[i].1 <= b@.len(),
{
    let mut out: Vec<(usize, usize)> = Vec::new();
    let ghost root: Seq<(int, int)> = if b@.len() > 0 && b@[0] == SLASH {
        seq![(0int, 1int)]
    } else {
        seq![]
    };
    if b.len() > 0 && b[0] == SLASH {
        out.push((0, 1));
    }
    assert(exact_spans(out@) =~= root);
    let mut k: usize = 0;
    let mut e: usize = 0;
    let mut ended: bool = false;
    while !ended
        invariant
            k <= e <= b@.len(),
            k > 0 ==> b@[k - 1] == SLASH,
            forall|i: int| k <= i < e ==> b@[i] != SLASH,
            !ended ==> exact_spans(out@) == root + (if k == 0 {
                seq![]
            } else {
                body_spans(b@.take(k - 1))
            }),
            ended ==> exact_spans(out@) == root + body_spans(b@),
        decreases (if ended { 0int } else { 1 + b@.len() - e }),
    {
        if e < b.len() && b[e] != SLASH {
            e = e + 1;
        } else {
            let ghost before = exact_spans(out@);
            let ghost here = b@.take(e as int);
            let dot = e - k == 1 && b[k] == DOT && k != 0;
            proof {
                lemma_piece_start_is(here, k as int);
                let piece = here.subrange(k as int, e as int);
                assert(here.len() == e);
                assert(seq![DOT].len() == 1 && seq![DOT][0] == DOT);
                if piece == seq![DOT] {
                    assert(piece.len() == e - k);
                    assert(piece[0] == b@[k as int]);
                }
                if dot {
                    assert(piece =~= seq![DOT]);
                }
                if k > 0 {
                    assert(here.take(k - 1) =~= b@.take(k - 1));
                }
            }
            if k < e && !dot {
                out.push((k, e));
                assert(exact_spans(out@) =~= before.push((k as int, e as int)));
                assert(before.push((k as int, e as int)) =~= root + body_spans(here));
            }
            assert(exact_spans(out@) == root + body_spans(here));
            if e == b.len() {
                assert(here =~= b@);
                ended = true;
            } else {
                e = e + 1;
                k = e;
            }
        }
    }
    proof {
        assert(root + body_spans(b@) =~= spans(b@));
        lemma_spans_within(b@);
        assert forall|i: int| 0 <= i < out@.len() implies (#[trigger] out@[i]).0 < out@[i].1
            <= b@.len() by {
            assert(exact_spans(out@)[i] == spans(b@)[i]);
        }
    }
    out
}

/// The parts of a path.
fn part_list(b: &Vec<u8>) -> (res: Vec<Vec<u8>>)
    ensures
        byte_strings(res@) == parts(b@),
{
    let list = span_list(b);
    let mut out: Vec<Vec<u8>> = Vec::with_capacity(list.len());
    let mut i: usize = 0;
    while i < list.len()
        invariant
            exact_spans(list@) == spans(b@),
            forall|i: int|
                0 <= i < list@.len() ==> (#[trigger] list@[i]).0 < list@[i].1 <= b@.len(),
            i <= list@.len(),
            byte_strings(out@) == parts(b@).take(i as int),
        decreases list@.len() - i,
    {
        let ghost before = out@;
        let (lo, hi) = list[i];
        let piece = vstd::slice::slice_subrange(b.as_slice(), lo, hi);
        out.push(vstd::slice::slice_to_vec(piece));
        proof {
            assert(exact_spans(list@)[i as int] == spans(b@)[i as int]);
            assert(parts(b@)[i as int] == b@.subrange(lo as int, hi as int));
            assert(byte_strings(out@) =~= byte_strings(before).push(out@[i as int]@));
            assert(parts(b@).take(i + 1) =~= parts(b@).take(i as int).push(parts(b@)[i as int]));
        }
        i = i + 1;
    }
    proof {
        assert(exact_spans(list@).len() == spans(b@).len());
        assert(parts(b@).take(i as int) =~= parts(b@));
    }
    out
}

impl EntryPath {
    /// The path of the given bytes.
    pub fn from_bytes(bytes: Vec<u8>) -> (res: Self)
        ensures
            res@ == bytes@,
    {
        let list = part_list(&bytes);
        let mut plain_bytes: Vec<u8> = Vec::with_capacity(bytes.len());
        let mut i: usize = 0;
        assert(parts(bytes@).take(0) =~= Seq::<Seq<u8>>::empty());
        while i < list.len()
            invariant
                byte_strings(list@) == parts(bytes@),
                i <= list@.len(),
                plain_bytes@ == spelled(parts(bytes@).take(i as int)),
            decreases list@.len() - i,
        {
            proof {
                let ps = parts(bytes@).take(i + 1);
                assert(ps.drop_last() =~= parts(bytes@).take(i as int));
                assert(byte_strings(list@)[i as int] == list@[i as int]@);
            }
            if plain_bytes.len() > 0 && plain_bytes[plain_bytes.len() - 1] != SLASH {
                plain_bytes.push(SLASH);
            }
            let mut piece = vstd::slice::slice_to_vec(list[i].as_slice());
            plain_bytes.append(&mut piece);
            i = i + 1;
        }
        proof {
            assert(byte_strings(list@).len() == list@.len());
            assert(parts(bytes@).take(i as int) =~= parts(bytes@));
        }
        let plain = same_bytes(bytes.as_slice(), plain_bytes.as_slice());
        EntryPath { bytes, plain }
    }

    /// The path that a text spells.
    pub fn from_text(text: &str) -> (res: Self)
        ensures
            res@ == vstd::utf8::encode_utf8(text@),
    {
        EntryPath::from_bytes(text.as_bytes_vec())
    }

    /// The path of the current directory.
    pub fn current_dir() -> (res: Self)
        ensures
            res@ == seq![DOT],
    {
        let mut bytes: Vec<u8> = Vec::new();
        bytes.push(DOT);
        assert(bytes@ =~= seq![DOT]);
        EntryPath::from_bytes(bytes)
    }

    /// The bytes of the path.
    pub fn as_bytes(&self) -> (res: &Vec<u8>)
        ensures
            res@ == self@,
    {
        &self.bytes
    }

    /// Where the parts of the path lie.
    fn spans(&self) -> (res: Vec<(usize, usize)>)
        ensures
            exact_spans(res@) == spans(self@),
            forall|i: int| 0 <= i < res@.len() ==> (#[trigger] res@[i]).0 < res@[i].1 <= self@.len(),
    {
        span_list(&self.bytes)
    }

    /// The parts of the path.
    pub fn parts(&self) -> (res: Vec<Vec<u8>>)
        ensures
            byte_strings(res@) == parts(self@),
    {
        part_list(&self.bytes)
    }

    /// Whether two paths are the same.
    pub fn same_path(&self, other: &EntryPath) -> (res: bool)
        ensures
            res == (parts(self@) == parts(other@)),
    {
        if same_bytes(self.bytes.as_slice(), other.bytes.as_slice()) {
            return true;
        }
        if self.plain && other.plain {
            proof {
                use_type_invariant(self);
                use_type_invariant(other);
            }
            return false;
        }
        let a = self.parts();
        let b = other.parts();
        if a.len() != b.len() {
            assert(parts(self@).len() != parts(other@).len());
            return false;
        }
        let res = starts_with_parts(&a, &b);
        proof {
            assert(parts(self@).subrange(0, parts(self@).len() as int) =~= parts(self@));
        }
        res
    }

    /// Whether the path lies at or below `base`.
    pub fn starts_with(&self, base: &EntryPath) -> (res: bool)
        ensures
            res == lies_under(self@, base@),
    {
        starts_with_parts(&self.parts(), &base.parts())
    }

    /// The text that the path shows as: the one it spells, where it is UTF-8.
    pub fn display(&self) -> (res: String)
        ensures
            res@ == shown(self@),
            vstd::utf8::valid_utf8(self@) ==> vstd::utf8::encode_utf8(res@) == self@,
    {
        lossy_text(self.bytes.as_slice())
    }

    /// The path without its last part.
    pub fn parent(&self) -> (res: Option<EntryPath>)
        ensures
            match res {
                Some(p) => parent_of(self@) == Some(p@),
                None => parent_of(self@) is None,
            },
    {
        let list = self.spans();
        assert(exact_spans(list@).len() == list@.len());
        if list.len() == 0 {
            return None;
        }
        let (lo, hi) = list[list.len() - 1];
        let last = vstd::slice::slice_subrange(self.bytes.as_slice(), lo, hi);
        proof {
            assert(exact_spans(list@).last() == (lo as int, hi as int));
            assert(parts(self@).last() == last@);
        }
        if rank_of(last) == 0 {
            return None;
        }
        if list.len() == 1 {
            return Some(EntryPath::from_bytes(Vec::new()));
        }
        let end: usize = list[list.len() - 2].1;
        let head = vstd::slice::slice_subrange(self.bytes.as_slice(), 0, end);
        proof {
            assert(exact_spans(list@)[list@.len() - 2].1 == end);
            assert(head@ =~= self@.take(end as int));
        }
        Some(EntryPath::from_bytes(vstd::slice::slice_to_vec(head)))
    }
}

impl Clone for EntryPath {
    fn clone(&self) -> (res: Self)
        ensures
            res@ == self@,
    {
        proof {
            use_type_invariant(self);
        }
        EntryPath { bytes: vstd::slice::slice_to_vec(self.bytes.as_slice()), plain: self.plain }
    }
}

/// The name that an entry is listed under: the name its path ends in, and
/// the whole path where there is none.
pub fn display_name(path: &EntryPath) -> (res: String)
    ensures
        res@ == display_name_of(path@),
{
    let list = path.spans();
    assert(exact_spans(list@).len() == list@.len());
    if list.len() > 0 {
        let (lo, hi) = list[list.len() - 1];
        let last = vstd::slice::slice_subrange(path.bytes.as_slice(), lo, hi);
        proof {
            assert(exact_spans(list@).last() == (lo as int, hi as int));
            assert(parts(path@).last() == last@);
        }
        if rank_of(last) == 3 {
            let name = lossy_text(last);
            if !name.as_str().is_empty() {
                return name;
            }
        }
    }
    path.display()
}

/// A path as it shows in a listing of `base_path`.
pub fn display_path(base_path: &EntryPath, path: &EntryPath) -> (res: String)
    ensures
        res@ == displayed_path(base_path@, path@),
{
    let base = base_path.parts();
    assert(byte_strings(base@).len() == base@.len());
    if path.starts_with(base_path) {
        let list = path.spans();
        assert(exact_spans(list@).len() == list@.len());
        if base.len() < list.len() {
            let lo: usize = list[base.len()].0;
            let hi: usize = list[list.len() - 1].1;
            proof {
                assert(exact_spans(list@)[base@.len() as int].0 == lo);
                assert(exact_spans(list@).last().1 == hi);
                lemma_spans_ordered(path@, base@.len() as int, list@.len() - 1);
            }
            let rest = vstd::slice::slice_subrange(path.bytes.as_slice(), lo, hi);
            return lossy_text(rest);
        }
    }
    path.display()
}

/// The parts of a path lie in it one behind the other.
proof fn lemma_spans_ordered(b: Seq<u8>, i: int, j: int)
    requires
        0 <= i <= j < spans(b).len(),
    ensures
        spans(b)[i].0 < spans(b)[j].1,
{
    lemma_body_ordered(b);
    lemma_spans_within(b);
}

proof fn lemma_body_ordered(b: Seq<u8>)
    ensures
        forall|i: int, j: int|
            0 <= i <= j < body_spans(b).len() ==> (#[trigger] body_spans(b)[i]).0 < (
            #[trigger] body_spans(b)[j]).1,
    decreases b.len(),
{
    lemma_piece_start(b);
    lemma_body_spans(b);
    let k = piece_start(b);
    if k > 0 {
        lemma_body_ordered(b.take(k - 1));
        lemma_body_spans(b.take(k - 1));
    }
    lemma_body_step(b);
}

/// The path that a scan starts from: relative paths are taken from the
/// current directory, which is a dot where it is not known.
pub fn normalize_root(path: &EntryPath, current_dir: Option<EntryPath>) -> (res: EntryPath)
    ensures
        res@ == joined(
            match current_dir {
                Some(dir) => dir@,
                None => seq![DOT],
            },
            path@,
        ),
{
    if path.bytes.len() > 0 && path.bytes[0] == SLASH {
        return path.clone();
    }
    let mut bytes: Vec<u8> = match current_dir {
        Some(dir) => dir.bytes,
        None => EntryPath::current_dir().bytes,
    };
    if bytes.len() > 0 && bytes[bytes.len() - 1] != SLASH {
        bytes.push(SLASH);
    }
    let mut tail = vstd::slice::slice_to_vec(path.bytes.as_slice());
    bytes.append(&mut tail);
    EntryPath::from_bytes(bytes)
}

/// Every path lies at or below itself, what lies below a path lies below those
/// that it lies below, and paths that lie below each other are the same.
pub proof fn lemma_lies_under(a: Seq<u8>, b: Seq<u8>, c: Seq<u8>)
    ensures
        lies_under(a, a),
        lies_under(a, b) && lies_under(b, c) ==> lies_under(a, c),
        lies_under(a, b) && lies_under(b, a) ==> parts(a) == parts(b),
{
    let x = parts(a);
    let y = parts(b);
    let z = parts(c);
    assert(x.subrange(0, x.len() as int) =~= x);
    if lies_under(a, b) && lies_under(b, c) {
        assert(z =~= x.subrange(0, z.len() as int)) by {
            assert forall|k: int| 0 <= k < z.len() implies z[k] == x.subrange(
                0,
                z.len() as int,
            )[k] by {
                assert(z[k] == y.subrange(0, z.len() as int)[k]);
                assert(y[k] == x.subrange(0, y.len() as int)[k]);
            }
        }
    }
    if lies_under(a, b) && lies_under(b, a) {
        assert(x.subrange(0, y.len() as int) =~= x);
    }
}

/// A path taken from an absolute base is absolute, and an absolute path stands
/// for itself.
pub proof fn lemma_joined(base: Seq<u8>, path: Seq<u8>)
    ensures
        path.len() > 0 && path[0] == SLASH ==> joined(base, path) == path,
        base.len() > 0 && base[0] == SLASH ==> joined(base, path).len() > 0 && joined(
            base,
            path,
        )[0] == SLASH,
{
}

/// A path cut behind one of its pieces has the pieces up to there.
proof fn lemma_body_cut(b: Seq<u8>, i: int)
    requires
        0 <= i < body_spans(b).len(),
    ensures
        body_spans(b.take(body_spans(b)[i].1)) == body_spans(b).take(i + 1),
    decreases b.len(),
{
    lemma_piece_start(b);
    lemma_body_spans(b);
    lemma_body_step(b);
    let k = piece_start(b);
    let all = body_spans(b);
    let e = all[i].1;
    if e == b.len() {
        assert(b.take(e) =~= b);
        if i < all.len() - 1 {
            lemma_body_spans(b.take(k - 1));
        }
        assert(all.take(i + 1) =~= all);
    } else {
        let head = b.take(k - 1);
        let earlier = body_spans(head);
        assert(k > 0);
        lemma_body_spans(head);
        assert(all[i] == earlier[i]);
        lemma_body_cut(head, i);
        assert(head.take(e) =~= b.take(e));
        assert(all.take(i + 1) =~= earlier.take(i + 1));
    }
}

/// The parent of a path has all its parts but the last; the path lies below
/// it.
pub proof fn lemma_parent(b: Seq<u8>)
    requires
        parent_of(b) is Some,
    ensures
        parts(parent_of(b)->0) == parts(b).drop_last(),
        lies_under(b, parent_of(b)->0),
{
    let s = spans(b);
    let up = parent_of(b)->0;
    lemma_spans_within(b);
    if s.len() == 1 {
        assert(spans(up) =~= seq![]) by {
            assert(body_spans(up).len() == 0) by {
                lemma_body_spans(up);
                if body_spans(up).len() > 0 {
                    assert(body_spans(up)[0].1 <= up.len());
                }
            }
        }
        assert(parts(up) =~= parts(b).drop_last());
    } else {
        let e = s[s.len() - 2].1;
        let root: int = if b[0] == SLASH {
            1
        } else {
            0
        };
        let n = s.len() - 2 - root;
        assert(up[0] == b[0]);
        if n >= 0 {
            assert(s[s.len() - 2] == body_spans(b)[n]);
            lemma_body_cut(b, n);
            assert(spans(up) =~= s.take(s.len() - 1));
        } else {
            assert(up =~= seq![SLASH]);
            lemma_piece_start_is(up, 1);
            assert(body_spans(up.take(0)).len() == 0) by {
                lemma_body_spans(up.take(0));
                if body_spans(up.take(0)).len() > 0 {
                    assert(body_spans(up.take(0))[0].1 <= 0);
                }
            }
            assert(body_spans(up) =~= seq![]);
            assert(spans(up) =~= s.take(s.len() - 1));
        }
        assert forall|i: int| 0 <= i < s.len() - 1 implies parts(up)[i] == parts(b)[i] by {
            lemma_spans_within(up);
            assert(spans(up)[i] == s[i]);
            assert(up.subrange(s[i].0, s[i].1) =~= b.subrange(s[i].0, s[i].1));
        }
        assert(parts(up) =~= parts(b).drop_last());
    }
    let p = parts(b);
    assert(p.drop_last() =~= p.subrange(0, p.len() - 1));
}

/// A piece begins at the start of a path or behind a separator, has none in
/// it, and ends at the end of the path or before one.
proof fn lemma_body_piece(b: Seq<u8>, i: int)
    requires
        0 <= i < body_spans(b).len(),
    ensures
        ({
            let (lo, hi) = body_spans(b)[i];
            &&& 0 <= lo < hi <= b.len()
            &&& lo > 0 ==> b[lo - 1] == SLASH
            &&& hi < b.len() ==> b[hi] == SLASH
            &&& forall|k: int| lo <= k < hi ==> b[k] != SLASH
            &&& lo > 0 ==> b.subrange(lo, hi) != seq![DOT]
        }),
    decreases b.len(),
{
    lemma_piece_start(b);
    lemma_body_spans(b);
    lemma_body_step(b);
    let k = piece_start(b);
    let all = body_spans(b);
    if k > 0 && i < body_spans(b.take(k - 1)).len() {
        let head = b.take(k - 1);
        lemma_body_piece(head, i);
        let (lo, hi) = all[i];
        assert(all[i] == body_spans(head)[i]);
        assert(head.subrange(lo, hi) =~= b.subrange(lo, hi));
        assert forall|j: int| lo <= j < hi implies b[j] != SLASH by {
            assert(head[j] == b[j]);
        }
        if lo > 0 {
            assert(head[lo - 1] == b[lo - 1]);
        }
        if hi < head.len() {
            assert(head[hi] == b[hi]);
        }
    }
}

/// What is left of a path from a piece on has that piece and those behind it.
proof fn lemma_body_rest(b: Seq<u8>, m: int, e: int)
    requires
        0 <= m < body_spans(b).len(),
        body_spans(b)[m].1 <= e <= b.len(),
    ensures
        ({
            let lo = body_spans(b)[m].0;
            let whole = body_spans(b.take(e));
            let rest = body_spans(b.subrange(lo, e));
            &&& whole.len() == m + rest.len()
            &&& rest.len() > 0
            &&& forall|i: int|
                0 <= i < rest.len() ==> whole[m + i].0 == (#[trigger] rest[i]).0 + lo && whole[m
                    + i].1 == rest[i].1 + lo
        }),
    decreases e,
{
    let (lo, hi) = body_spans(b)[m];
    lemma_body_piece(b, m);
    let c = b.take(e);
    let r = b.subrange(lo, e);
    lemma_piece_start(c);
    let k = piece_start(c);
    if k <= lo {
        if k < lo {
            assert(c[lo - 1] != SLASH);
            assert(b[lo - 1] == SLASH);
        }
        if e > hi {
            assert(c[hi] != SLASH);
        }
        lemma_body_cut(b, m);
        assert forall|j: int| 0 <= j < r.len() implies r[j] != SLASH by {
            assert(r[j] == b[lo + j]);
        }
        lemma_piece_start_is(r, 0);
        assert(r.subrange(0, r.len() as int) =~= r);
        assert(body_spans(r) =~= seq![(0int, r.len() as int)]);
    } else {
        assert(c[k - 1] == b[k - 1]);
        if k - 1 < hi {
            assert(b[k - 1] != SLASH);
        }
        lemma_body_rest(b, m, k - 1);
        assert(c.take(k - 1) =~= b.take(k - 1));
        assert(r.take(k - lo - 1) =~= b.subrange(lo, k - 1));
        assert forall|j: int| k - lo <= j < r.len() implies r[j] != SLASH by {
            assert(r[j] == c[lo + j]);
        }
        assert(r[k - lo - 1] == b[k - 1]);
        lemma_piece_start_is(r, k - lo);
        assert(r.subrange(k - lo, r.len() as int) =~= c.subrange(k, e));
    }
}

/// What is left of a path behind its first parts has the other parts.
pub proof fn lemma_behind_parts(b: Seq<u8>, n: int)
    requires
        0 <= n < parts(b).len(),
    ensures
        parts(behind_parts(b, n)) == parts(b).skip(n),
{
    let s = spans(b);
    let rest = behind_parts(b, n);
    let root: int = if b.len() > 0 && b[0] == SLASH {
        1
    } else {
        0
    };
    let body = body_spans(b);
    lemma_spans_within(b);
    lemma_body_spans(b);
    lemma_body_ordered(b);
    let lo = s[n].0;
    let hi = s.last().1;
    if n >= root {
        let m = n - root;
        assert(s[n] == body[m]);
        assert(s.last() == body.last());
        lemma_body_piece(b, m);
        lemma_body_ends(b, m, body.len() - 1);
        lemma_body_rest(b, m, hi);
        lemma_body_cut(b, body.len() - 1);
        assert(body.take(body.len() as int) =~= body);
        let mine = body_spans(rest);
        assert(rest[0] == b[lo]);
        assert(spans(rest) == mine);
        assert(mine.len() == s.len() - n);
        lemma_body_spans(rest);
        assert forall|i: int| 0 <= i < mine.len() implies parts(rest)[i] == parts(b).skip(
            n,
        )[i] by {
            assert(body[m + i].0 == mine[i].0 + lo && body[m + i].1 == mine[i].1 + lo);
            assert(s[n + i] == body[m + i]);
            assert(rest.subrange(mine[i].0, mine[i].1) =~= b.subrange(
                body[m + i].0,
                body[m + i].1,
            ));
        }
    } else {
        assert(n == 0 && lo == 0);
        assert(rest =~= b.take(hi));
        assert(rest[0] == b[0]);
        if body.len() > 0 {
            assert(s.last() == body.last());
            lemma_body_cut(b, body.len() - 1);
            assert(body.take(body.len() as int) =~= body);
        } else {
            assert(s.last() == s[0]);
            assert(rest =~= seq![SLASH]);
            lemma_piece_start_is(rest, 1);
            lemma_body_spans(rest.take(0));
            assert(body_spans(rest.take(0)).len() == 0) by {
                if body_spans(rest.take(0)).len() > 0 {
                    assert(body_spans(rest.take(0))[0].1 <= 0);
                }
            }
            assert(body_spans(rest) =~= seq![]);
        }
        assert(spans(rest) =~= s);
        assert forall|i: int| 0 <= i < s.len() implies parts(rest)[i] == parts(b)[i] by {
            lemma_spans_within(rest);
            assert(spans(rest)[i] == s[i]);
            assert(rest.subrange(s[i].0, s[i].1) =~= b.subrange(s[i].0, s[i].1));
        }
    }
    assert(parts(rest) =~= parts(b).skip(n));
}

/// The ends of pieces come in their order.
proof fn lemma_body_ends(b: Seq<u8>, i: int, j: int)
    requires
        0 <= i <= j < body_spans(b).len(),
    ensures
        body_spans(b)[i].1 <= body_spans(b)[j].1,
    decreases b.len(),
{
    lemma_piece_start(b);
    lemma_body_spans(b);
    lemma_body_step(b);
    let k = piece_start(b);
    if k > 0 {
        let head = b.take(k - 1);
        lemma_body_spans(head);
        if j < body_spans(head).len() {
            lemma_body_ends(head, i, j);
        }
    }
}

/// A path that lies below another one consists of the parts of that one and of
/// the parts that are shown in its listing.
pub proof fn lemma_relative(base: Seq<u8>, path: Seq<u8>)
    requires
        lies_under(path, base),
        parts(base).len() < parts(path).len(),
    ensures
        parts(base) + parts(behind_parts(path, parts(base).len() as int)) == parts(path),
{
    let n = parts(base).len() as int;
    lemma_behind_parts(path, n);
    assert(parts(base) =~= parts(path).take(n));
    assert(parts(base) + parts(path).skip(n) =~= parts(path));
}

} // verus!
