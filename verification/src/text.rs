//! Text as sequences of characters: case folding, trimming, splitting,
//! shortening and the decimal form of numbers.

use vstd::prelude::*;

verus! {

/// The lowercase form of a text, as the standard library defines it.
pub uninterp spec fn lowercase_form(s: Seq<char>) -> Seq<char>;

/// A text in lowercase. Nothing becomes nothing.
pub open spec fn lowercase(s: Seq<char>) -> Seq<char> {
    if s.len() == 0 {
        s
    } else {
        lowercase_form(s)
    }
}

/// `str::to_lowercase` returns the lowercase form of its argument, which
/// depends on nothing but the argument, and is empty where that is.
pub assume_specification[ str::to_lowercase ](s: &str) -> (res: String)
    ensures
        res@ == (if s@.len() == 0 {
            s@
        } else {
            lowercase_form(s@)
        }),
;

/// Whether a character has the Unicode property `White_Space`.
pub open spec fn white_space(c: char) -> bool {
    ||| '\u{9}' <= c <= '\u{d}'
    ||| c == ' '
    ||| c == '\u{85}'
    ||| c == '\u{a0}'
    ||| c == '\u{1680}'
    ||| '\u{2000}' <= c <= '\u{200a}'
    ||| c == '\u{2028}'
    ||| c == '\u{2029}'
    ||| c == '\u{202f}'
    ||| c == '\u{205f}'
    ||| c == '\u{3000}'
}

/// Whether a character has the Unicode property `White_Space`.
pub fn is_white_space(c: char) -> (res: bool)
    ensures
        res == white_space(c),
{
    ('\u{9}' <= c && c <= '\u{d}') || c == ' ' || c == '\u{85}' || c == '\u{a0}' || c == '\u{1680}'
        || ('\u{2000}' <= c && c <= '\u{200a}') || c == '\u{2028}' || c == '\u{2029}' || c
        == '\u{202f}' || c == '\u{205f}' || c == '\u{3000}'
}

/// `String::push` appends one character.
pub assume_specification[ String::push ](s: &mut String, c: char)
    ensures
        final(s)@ == old(s)@.push(c),
;

/// `String::pop` removes the last character and returns it; an empty text
/// stays empty.
pub assume_specification[ String::pop ](s: &mut String) -> (res: Option<char>)
    ensures
        old(s)@.len() == 0 ==> final(s)@ == old(s)@ && res is None,
        old(s)@.len() > 0 ==> final(s)@ == old(s)@.drop_last() && res == Some(old(s)@.last()),
;

/// Whether `needle` occurs in `hay` as consecutive characters.
pub open spec fn has_infix(hay: Seq<char>, needle: Seq<char>) -> bool {
    exists|i: int|
        0 <= i <= hay.len() - needle.len() && #[trigger] hay.subrange(i, i + needle.len())
            == needle
}

/// A text without its leading white space.
pub open spec fn trimmed_start(s: Seq<char>) -> Seq<char>
    decreases s.len(),
{
    if s.len() > 0 && white_space(s[0]) {
        trimmed_start(s.drop_first())
    } else {
        s
    }
}

/// A text without its trailing white space.
pub open spec fn trimmed_end(s: Seq<char>) -> Seq<char>
    decreases s.len(),
{
    if s.len() > 0 && white_space(s.last()) {
        trimmed_end(s.drop_last())
    } else {
        s
    }
}

/// A text without its leading and trailing white space.
pub open spec fn trimmed(s: Seq<char>) -> Seq<char> {
    trimmed_end(trimmed_start(s))
}

/// The complete words of a text read from its start, and the characters of
/// the word that its end leaves open.
pub open spec fn word_scan(s: Seq<char>) -> (Seq<Seq<char>>, Seq<char>)
    decreases s.len(),
{
    if s.len() == 0 {
        (seq![], seq![])
    } else {
        let (done, open) = word_scan(s.drop_last());
        if !white_space(s.last()) {
            (done, open.push(s.last()))
        } else if open.len() == 0 {
            (done, open)
        } else {
            (done.push(open), seq![])
        }
    }
}

/// The maximal runs of characters that are not white space, in order.
pub open spec fn words(s: Seq<char>) -> Seq<Seq<char>> {
    let (done, open) = word_scan(s);
    if open.len() == 0 {
        done
    } else {
        done.push(open)
    }
}

/// The decimal digit of a number below ten.
pub open spec fn digit(d: nat) -> char {
    (48 + d) as char
}

/// The decimal form of a number, without leading zeros.
pub open spec fn decimal(n: nat) -> Seq<char>
    decreases n,
{
    if n < 10 {
        seq![digit(n)]
    } else {
        decimal(n / 10).push(digit(n % 10))
    }
}

/// `count` copies of one character.
pub open spec fn repeated(c: char, count: nat) -> Seq<char> {
    Seq::new(count, |i: int| c)
}

/// A text filled up with spaces on its left side to `width` characters.
pub open spec fn right_aligned(s: Seq<char>, width: nat) -> Seq<char> {
    if s.len() < width {
        repeated(' ', (width - s.len()) as nat) + s
    } else {
        s
    }
}

/// A text filled up with spaces on its right side to `width` characters.
pub open spec fn left_aligned(s: Seq<char>, width: nat) -> Seq<char> {
    if s.len() < width {
        s + repeated(' ', (width - s.len()) as nat)
    } else {
        s
    }
}

/// A text cut to `width` characters, with three dots for what its end loses.
pub open spec fn shortened_end(s: Seq<char>, width: nat) -> Seq<char> {
    if width <= 3 {
        repeated('.', width)
    } else if s.len() <= width {
        s
    } else {
        s.take(width - 3) + repeated('.', 3)
    }
}

/// A text cut to `width` characters, with three dots for what its middle
/// loses. Where the kept characters are odd in number, the right side has one
/// more.
pub open spec fn shortened_middle(s: Seq<char>, width: nat) -> Seq<char> {
    if width <= 3 {
        repeated('.', width)
    } else if s.len() <= width {
        s
    } else {
        let left = (width - 3) / 2;
        let right = width - 3 - left;
        s.take(left) + repeated('.', 3) + s.skip(s.len() - right)
    }
}

/// Whether one text comes before another or equals it, by the first character
/// in which they differ.
pub open spec fn text_le(a: Seq<char>, b: Seq<char>) -> bool {
    crate::order::lex_le(a, b, |x: char, y: char| x <= y)
}

/// The contents of several texts.
pub open spec fn texts(v: Seq<String>) -> Seq<Seq<char>> {
    v.map_values(|s: String| s@)
}

/// The characters of a text, as a vector.
pub(crate) fn chars_of(s: &str) -> (res: Vec<char>)
    ensures
        res@ == s@,
{
    let mut out: Vec<char> = Vec::new();
    for c in it: s.chars()
        invariant
            out@ == it.seq().take(it.index() as int),
            it.seq() == s@,
    {
        let ghost before = out@;
        out.push(c);
        proof {
            assert(it.seq().take(it.index() as int + 1) =~= before.push(c));
        }
    }
    assert(s@.take(s@.len() as int) =~= s@);
    out
}

/// Whether characters stand in others from a place on.
fn stands_at(hay: &Vec<char>, needle: &Vec<char>, at: usize) -> (res: bool)
    requires
        at + needle@.len() <= hay@.len(),
    ensures
        res == (hay@.subrange(at as int, at + needle@.len()) == needle@),
{
    let ghost here = hay@.subrange(at as int, at + needle@.len());
    let mut k: usize = 0;
    while k < needle.len()
        invariant
            at + needle@.len() <= hay.len(),
            here == hay@.subrange(at as int, at + needle@.len()),
            k <= needle@.len(),
            forall|i: int| 0 <= i < k ==> here[i] == needle@[i],
        decreases needle@.len() - k,
    {
        assert(here[k as int] == hay@[at + k]);
        if hay[at + k] != needle[k] {
            return false;
        }
        k = k + 1;
    }
    assert(here =~= needle@);
    true
}

/// Whether a text occurs in another one.
pub(crate) fn contains_text(hay: &str, needle: &str) -> (res: bool)
    ensures
        res == has_infix(hay@, needle@),
{
    let h = chars_of(hay);
    let n = chars_of(needle);
    if n.len() > h.len() {
        return false;
    }
    let last: usize = h.len() - n.len();
    let mut at: usize = 0;
    while at < last
        invariant
            h@ == hay@,
            n@ == needle@,
            last + n@.len() == h@.len(),
            at <= last,
            forall|i: int|
                0 <= i < at ==> #[trigger] hay@.subrange(i, i + needle@.len()) != needle@,
        decreases last - at,
    {
        if stands_at(&h, &n, at) {
            return true;
        }
        at = at + 1;
    }
    stands_at(&h, &n, last)
}

/// Removes leading and trailing white space.
pub(crate) fn trim(s: &str) -> (res: String)
    ensures
        res@ == trimmed(s@),
{
    let chars = chars_of(s);
    let mut lo: usize = 0;
    assert(s@.skip(0) =~= s@);
    while lo < chars.len() && is_white_space(chars[lo])
        invariant
            chars@ == s@,
            lo <= chars@.len(),
            trimmed_start(s@) == trimmed_start(s@.skip(lo as int)),
        decreases chars@.len() - lo,
    {
        assert(s@.skip(lo as int).drop_first() =~= s@.skip(lo + 1));
        lo = lo + 1;
    }
    let ghost rest = s@.skip(lo as int);
    assert(trimmed_start(s@) == rest);
    let mut hi: usize = chars.len();
    assert(rest =~= s@.subrange(lo as int, hi as int));
    while lo < hi && is_white_space(chars[hi - 1])
        invariant
            chars@ == s@,
            lo <= hi <= chars@.len(),
            trimmed_end(rest) == trimmed_end(s@.subrange(lo as int, hi as int)),
        decreases hi,
    {
        assert(s@.subrange(lo as int, hi as int).drop_last() =~= s@.subrange(
            lo as int,
            hi - 1,
        ));
        hi = hi - 1;
    }
    s.substring_char(lo, hi).to_owned()
}

/// The words of a text, in order.
pub(crate) fn split_words(s: &str) -> (res: Vec<String>)
    ensures
        texts(res@) == words(s@),
{
    let chars = chars_of(s);
    let mut done: Vec<String> = Vec::new();
    let mut open = String::new();
    let mut i: usize = 0;
    assert(s@.take(0).len() == 0);
    assert(texts(done@) =~= word_scan(s@.take(0)).0);
    while i < chars.len()
        invariant
            chars@ == s@,
            i <= chars@.len(),
            texts(done@) == word_scan(s@.take(i as int)).0,
            open@ == word_scan(s@.take(i as int)).1,
        decreases chars@.len() - i,
    {
        let c = chars[i];
        let ghost before = done@;
        assert(s@.take(i + 1).drop_last() =~= s@.take(i as int));
        if !is_white_space(c) {
            open.push(c);
        } else if !open.as_str().is_empty() {
            done.push(open);
            open = String::new();
            assert(texts(done@) =~= texts(before).push(done@.last()@));
        }
        i = i + 1;
    }
    assert(s@.take(i as int) =~= s@);
    let ghost before = done@;
    if !open.as_str().is_empty() {
        done.push(open);
        assert(texts(done@) =~= texts(before).push(done@.last()@));
    }
    done
}

/// Appends the decimal form of a number.
pub(crate) fn append_decimal(out: &mut String, n: u64)
    ensures
        final(out)@ == old(out)@ + decimal(n as nat),
    decreases n,
{
    if n >= 10 {
        append_decimal(out, n / 10);
    }
    let c = (48u8 + (n % 10) as u8) as char;
    out.push(c);
    proof {
        assert(c == digit((n % 10) as nat));
        if n >= 10 {
            assert(old(out)@ + decimal((n / 10) as nat).push(c) =~= (old(out)@ + decimal(
                (n / 10) as nat,
            )).push(c));
        } else {
            assert(old(out)@ + seq![c] =~= old(out)@.push(c));
        }
    }
}

/// Appends `count` copies of one character.
pub(crate) fn append_repeated(out: &mut String, c: char, count: usize)
    ensures
        final(out)@ == old(out)@ + repeated(c, count as nat),
{
    let mut i: usize = 0;
    assert(out@ =~= old(out)@ + repeated(c, 0));
    while i < count
        invariant
            i <= count,
            out@ == old(out)@ + repeated(c, i as nat),
        decreases count - i,
    {
        out.push(c);
        assert((old(out)@ + repeated(c, i as nat)).push(c) =~= old(out)@ + repeated(
            c,
            (i + 1) as nat,
        ));
        i = i + 1;
    }
}

/// Appends a text, aligned to the right in `width` columns.
pub(crate) fn append_right_aligned(out: &mut String, s: &str, width: usize)
    ensures
        final(out)@ == old(out)@ + right_aligned(s@, width as nat),
{
    let n = s.unicode_len();
    if n < width {
        append_repeated(out, ' ', width - n);
    }
    out.append(s);
    assert(out@ =~= old(out)@ + right_aligned(s@, width as nat));
}

/// Appends a text, aligned to the left in `width` columns.
pub(crate) fn append_left_aligned(out: &mut String, s: &str, width: usize)
    ensures
        final(out)@ == old(out)@ + left_aligned(s@, width as nat),
{
    let n = s.unicode_len();
    out.append(s);
    if n < width {
        append_repeated(out, ' ', width - n);
    }
    assert(out@ =~= old(out)@ + left_aligned(s@, width as nat));
}

/// Cuts a text to at most `width` characters, with dots in place of its end.
pub fn shorten_end(value: &str, width: usize) -> (res: String)
    ensures
        res@ == shortened_end(value@, width as nat),
        res@.len() <= width,
{
    let mut out = String::new();
    let count = value.unicode_len();
    if width <= 3 {
        append_repeated(&mut out, '.', width);
        assert(out@ =~= repeated('.', width as nat));
        return out;
    }
    if count <= width {
        return value.to_owned();
    }
    out.append(value.substring_char(0, width - 3));
    append_repeated(&mut out, '.', 3);
    assert(out@ =~= shortened_end(value@, width as nat));
    out
}

/// Cuts a text to at most `width` characters, with dots in place of its
/// middle.
pub fn shorten_middle(value: &str, width: usize) -> (res: String)
    ensures
        res@ == shortened_middle(value@, width as nat),
        res@.len() <= width,
{
    let mut out = String::new();
    let count = value.unicode_len();
    if width <= 3 {
        append_repeated(&mut out, '.', width);
        assert(out@ =~= repeated('.', width as nat));
        return out;
    }
    if count <= width {
        return value.to_owned();
    }
    let left: usize = (width - 3) / 2;
    let right: usize = width - 3 - left;
    out.append(value.substring_char(0, left));
    append_repeated(&mut out, '.', 3);
    out.append(value.substring_char(count - right, count));
    assert(out@ =~= shortened_middle(value@, width as nat));
    out
}

/// Whether one text comes before another or equals it.
pub(crate) fn text_at_most(a: &str, b: &str) -> (res: bool)
    ensures
        res == text_le(a@, b@),
{
    let ghost le = |x: char, y: char| x <= y;
    let x = chars_of(a);
    let y = chars_of(b);
    let mut i: usize = 0;
    while i < x.len() && i < y.len() && x[i] == y[i]
        invariant
            i <= x@.len(),
            i <= y@.len(),
            forall|k: int| 0 <= k < i ==> x@[k] == y@[k],
        decreases x@.len() - i,
    {
        i = i + 1;
    }
    proof {
        crate::order::lemma_lex_common_prefix(x@, y@, i as int, le);
    }
    if i >= x.len() {
        true
    } else if i >= y.len() {
        false
    } else {
        x[i] < y[i]
    }
}

/// The order of texts is total.
pub(crate) proof fn lemma_text_le_total()
    ensures
        vstd::relations::total_ordering(|a: Seq<char>, b: Seq<char>| text_le(a, b)),
{
    let le = |x: char, y: char| x <= y;
    crate::order::lemma_lex_total(le);
    assert((|a: Seq<char>, b: Seq<char>| text_le(a, b)) =~= (|a: Seq<char>, b: Seq<char>|
        crate::order::lex_le(a, b, le)));
}

/// Splitting finds words and nothing else: no word is empty or has white space
/// in it.
pub proof fn lemma_words(s: Seq<char>)
    ensures
        forall|i: int| 0 <= i < words(s).len() ==> (#[trigger] words(s)[i]).len() > 0,
        forall|i: int, k: int|
            0 <= i < words(s).len() && 0 <= k < words(s)[i].len() ==> !white_space(
                #[trigger] words(s)[i][k],
            ),
{
    lemma_word_scan(s);
}

spec fn is_word(w: Seq<char>) -> bool {
    forall|k: int| 0 <= k < w.len() ==> !white_space(#[trigger] w[k])
}

proof fn lemma_word_scan(s: Seq<char>)
    ensures
        forall|i: int|
            0 <= i < word_scan(s).0.len() ==> is_word(#[trigger] word_scan(s).0[i])
                && word_scan(s).0[i].len() > 0,
        is_word(word_scan(s).1),
    decreases s.len(),
{
    if s.len() > 0 {
        lemma_word_scan(s.drop_last());
    }
}

/// Trimming leaves a part of the text, without white space at its ends; a text
/// without white space at its ends stays as it is.
pub proof fn lemma_trimmed(s: Seq<char>)
    ensures
        trimmed(s).len() > 0 ==> !white_space(trimmed(s)[0]) && !white_space(trimmed(s).last()),
        has_infix(s, trimmed(s)),
        s.len() > 0 && !white_space(s[0]) && !white_space(s.last()) ==> trimmed(s) == s,
        trimmed(trimmed(s)) == trimmed(s),
{
    let a = trimmed_start(s);
    let b = trimmed_end(a);
    lemma_trimmed_start(s);
    lemma_trimmed_end(a);
    let k = s.len() - a.len();
    assert(s.subrange(k, k + b.len()) =~= b);
    if b.len() > 0 {
        assert(b[0] == a[0]);
    }
}

proof fn lemma_trimmed_start(s: Seq<char>)
    ensures
        trimmed_start(s).len() <= s.len(),
        trimmed_start(s) == s.skip(s.len() - trimmed_start(s).len()),
        trimmed_start(s).len() > 0 ==> !white_space(trimmed_start(s)[0]),
    decreases s.len(),
{
    if s.len() > 0 && white_space(s[0]) {
        lemma_trimmed_start(s.drop_first());
        let d = s.drop_first();
        let t = trimmed_start(s);
        assert(d.skip(d.len() - t.len()) =~= s.skip(s.len() - t.len()));
    } else {
        assert(s.skip(0) =~= s);
    }
}

proof fn lemma_trimmed_end(s: Seq<char>)
    ensures
        trimmed_end(s).len() <= s.len(),
        trimmed_end(s) == s.take(trimmed_end(s).len() as int),
        trimmed_end(s).len() > 0 ==> !white_space(trimmed_end(s).last()),
    decreases s.len(),
{
    if s.len() > 0 && white_space(s.last()) {
        lemma_trimmed_end(s.drop_last());
        let t = trimmed_end(s);
        assert(s.drop_last().take(t.len() as int) =~= s.take(t.len() as int));
    } else {
        assert(s.take(s.len() as int) =~= s);
    }
}

/// A text that fits is not shortened. One that does not fit is as long as it
/// may be: its start is kept, or its start and its end, and three dots stand
/// for the rest.
pub proof fn lemma_shortened(s: Seq<char>, width: nat)
    requires
        width > 3,
    ensures
        s.len() <= width ==> shortened_end(s, width) == s && shortened_middle(s, width) == s,
        s.len() > width ==> {
            let e = shortened_end(s, width);
            let m = shortened_middle(s, width);
            let left = (width - 3) / 2;
            &&& e.len() == width && m.len() == width
            &&& e.take(width - 3) == s.take(width - 3)
            &&& e.skip(width - 3) == repeated('.', 3)
            &&& m.take(left) == s.take(left)
            &&& m.subrange(left, left + 3) == repeated('.', 3)
            &&& m.skip(left + 3) == s.skip(s.len() - (width - 3 - left))
        },
{
    if s.len() > width {
        let e = shortened_end(s, width);
        let m = shortened_middle(s, width);
        let left = (width - 3) / 2;
        assert(e.take(width - 3) =~= s.take(width - 3));
        assert(e.skip(width - 3) =~= repeated('.', 3));
        assert(m.take(left) =~= s.take(left));
        assert(m.subrange(left, left + 3) =~= repeated('.', 3));
        assert(m.skip(left + 3) =~= s.skip(s.len() - (width - 3 - left)));
    }
}

} // verus!
