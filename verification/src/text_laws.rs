//! What holds of texts, numbers and byte counts, whatever they are.

use vstd::prelude::*;

verus! {

/// Whether one sequence comes before another by the first place in which they
/// differ, or by ending there.
pub open spec fn comes_first(a: Seq<int>, b: Seq<int>, k: int) -> bool {
    &&& 0 <= k <= a.len() && k <= b.len()
    &&& forall|i: int| 0 <= i < k ==> a[i] == b[i]
    &&& k == a.len() || (k < b.len() && a[k] < b[k])
}

/// The numbers of characters.
pub open spec fn code_points(s: Seq<char>) -> Seq<int> {
    s.map_values(|c: char| c as int)
}

/// Of two texts the one is first that has the smaller character in the first
/// place in which they differ, or that the other one starts with.
pub proof fn lemma_text_order(a: Seq<char>, b: Seq<char>, k: int)
    requires
        comes_first(code_points(a), code_points(b), k),
    ensures
        crate::text::text_le(a, b),
        a != b ==> !crate::text::text_le(b, a),
{
    let le = |x: char, y: char| x <= y;
    let (x, y) = (code_points(a), code_points(b));
    assert forall|i: int| 0 <= i < k implies a[i] == b[i] by {
        assert(x[i] == y[i]);
    }
    crate::order::lemma_lex_common_prefix(a, b, k, le);
    crate::order::lemma_lex_common_prefix(b, a, k, le);
    if k < a.len() {
        assert(x[k] < y[k]);
    } else if k == b.len() {
        assert(a =~= b);
    }
}

/// A text occurs in another one exactly where the other one is made of it, of
/// what is before it and of what is behind it.
pub proof fn lemma_infix(before: Seq<char>, needle: Seq<char>, behind: Seq<char>, hay: Seq<char>)
    ensures
        crate::text::has_infix(before + needle + behind, needle),
        crate::text::has_infix(hay, needle) ==> exists|x: Seq<char>, y: Seq<char>|
            hay == #[trigger] (x + needle + y),
{
    let whole = before + needle + behind;
    let i = before.len() as int;
    assert(whole.subrange(i, i + needle.len()) =~= needle);
    if crate::text::has_infix(hay, needle) {
        let k = choose|k: int|
            0 <= k <= hay.len() - needle.len() && #[trigger] hay.subrange(k, k + needle.len())
                == needle;
        let x = hay.take(k);
        let y = hay.skip(k + needle.len());
        assert(hay =~= x + needle + y) by {
            assert forall|i: int| k <= i < k + needle.len() implies hay[i] == needle[i - k] by {
                assert(hay.subrange(k, k + needle.len())[i - k] == hay[i]);
            }
        }
    }
}

/// Trimming takes white space away from both ends, one character after the
/// other, and nothing else.
pub proof fn lemma_trimmed_ends(s: Seq<char>, c: char)
    ensures
        crate::text::white_space(c) ==> crate::text::trimmed(seq![c] + s) == crate::text::trimmed(
            s,
        ),
        crate::text::white_space(c) ==> crate::text::trimmed(s.push(c)) == crate::text::trimmed(s),
        s.len() == 0 ==> crate::text::trimmed(s).len() == 0,
        s.len() > 0 && !crate::text::white_space(s[0]) && !crate::text::white_space(s.last())
            ==> crate::text::trimmed(s) == s,
{
    assert((seq![c] + s).drop_first() =~= s);
    if crate::text::white_space(c) {
        lemma_trimmed_push(s, c);
    }
}

proof fn lemma_trimmed_push(s: Seq<char>, c: char)
    requires
        crate::text::white_space(c),
    ensures
        crate::text::trimmed(s.push(c)) == crate::text::trimmed(s),
    decreases s.len(),
{
    let p = s.push(c);
    if s.len() == 0 {
        assert(p.drop_first() =~= s);
    } else if crate::text::white_space(s[0]) {
        assert(p.drop_first() =~= s.drop_first().push(c));
        lemma_trimmed_push(s.drop_first(), c);
    } else {
        assert(p.drop_last() =~= s);
    }
}

/// The words of a text are those before a white space and those behind it; a
/// text without white space is one word, and an empty one none.
pub proof fn lemma_words_split(a: Seq<char>, c: char, b: Seq<char>)
    requires
        crate::text::white_space(c),
    ensures
        crate::text::words(a.push(c) + b) == crate::text::words(a) + crate::text::words(b),
        (forall|i: int| 0 <= i < a.len() ==> !crate::text::white_space(#[trigger] a[i])) && a.len()
            > 0 ==> crate::text::words(a) == seq![a],
        a.len() == 0 ==> crate::text::words(a).len() == 0,
{
    let (done, open) = crate::text::word_scan(a.push(c) + b);
    lemma_scan_behind(a, c, b);
    let (da, oa) = crate::text::word_scan(a);
    let (db, ob) = crate::text::word_scan(b);
    if ob.len() > 0 {
        assert((crate::text::words(a) + db).push(ob) =~= crate::text::words(a) + db.push(ob));
    }
    if forall|i: int| 0 <= i < a.len() ==> !crate::text::white_space(#[trigger] a[i]) {
        lemma_scan_word(a);
        assert(Seq::<Seq<char>>::empty().push(a) =~= seq![a]);
    }
}

proof fn lemma_scan_behind(a: Seq<char>, c: char, b: Seq<char>)
    requires
        crate::text::white_space(c),
    ensures
        crate::text::word_scan(a.push(c) + b) == (
            crate::text::words(a) + crate::text::word_scan(b).0,
            crate::text::word_scan(b).1,
        ),
    decreases b.len(),
{
    let s = a.push(c) + b;
    let w = crate::text::words(a);
    if b.len() == 0 {
        assert(s =~= a.push(c));
        assert(s.drop_last() =~= a);
        let (done, open) = crate::text::word_scan(a);
        assert(w + Seq::<Seq<char>>::empty() =~= w);
    } else {
        let d = b.drop_last();
        assert(s.drop_last() =~= a.push(c) + d);
        lemma_scan_behind(a, c, d);
        let (done, open) = crate::text::word_scan(d);
        assert((w + done).push(open) =~= w + done.push(open));
    }
}

proof fn lemma_scan_word(a: Seq<char>)
    requires
        forall|i: int| 0 <= i < a.len() ==> !crate::text::white_space(#[trigger] a[i]),
    ensures
        crate::text::word_scan(a) == (Seq::<Seq<char>>::empty(), a),
    decreases a.len(),
{
    if a.len() > 0 {
        let d = a.drop_last();
        assert forall|i: int| 0 <= i < d.len() implies !crate::text::white_space(#[trigger] d[i]) by {
            assert(d[i] == a[i]);
        }
        assert(!crate::text::white_space(a[a.len() - 1]));
        lemma_scan_word(d);
        assert(d.push(a.last()) =~= a);
    } else {
        assert(crate::text::word_scan(a).1 =~= a);
    }
}

/// What digits stand for.
pub open spec fn digits_value(s: Seq<char>) -> int {
    s.fold_left(0int, |v: int, c: char| 10 * v + (c as int - '0' as int))
}

/// The decimal form of a number stands for it, has digits only, and begins with
/// a zero only where it is one.
pub proof fn lemma_decimal(n: nat)
    ensures
        digits_value(crate::text::decimal(n)) == n,
        crate::text::decimal(n).len() > 0,
        forall|i: int|
            0 <= i < crate::text::decimal(n).len() ==> '0' <= #[trigger] crate::text::decimal(n)[i]
                <= '9',
        n > 0 ==> crate::text::decimal(n)[0] != '0',
        n < 10 ==> crate::text::decimal(n).len() == 1,
    decreases n,
{
    let f = |v: int, c: char| 10 * v + (c as int - '0' as int);
    let s = crate::text::decimal(n);
    if n < 10 {
        assert(s.drop_last() =~= Seq::<char>::empty());
        reveal_with_fuel(Seq::fold_left, 2);
    } else {
        lemma_decimal(n / 10);
        assert(s.drop_last() =~= crate::text::decimal(n / 10));
    }
}

/// Different numbers have different decimal forms.
pub proof fn lemma_decimal_apart(m: nat, n: nat)
    requires
        crate::text::decimal(m) == crate::text::decimal(n),
    ensures
        m == n,
{
    lemma_decimal(m);
    lemma_decimal(n);
}

/// An aligned text is as wide as it is to be or as long as it is, has the text
/// at its end or its start, and nothing else but spaces.
pub proof fn lemma_aligned(s: Seq<char>, width: nat)
    ensures
        ({
            let wide = if s.len() < width {
                width
            } else {
                s.len()
            };
            let r = crate::text::right_aligned(s, width);
            let l = crate::text::left_aligned(s, width);
            &&& r.len() == wide && l.len() == wide
            &&& r.skip(wide - s.len()) == s && l.take(s.len() as int) == s
            &&& forall|i: int| 0 <= i < wide - s.len() ==> #[trigger] r[i] == ' '
            &&& forall|i: int| s.len() <= i < wide ==> #[trigger] l[i] == ' '
        }),
{
    let wide = if s.len() < width {
        width
    } else {
        s.len()
    };
    assert(crate::text::right_aligned(s, width).skip(wide - s.len()) =~= s);
    assert(crate::text::left_aligned(s, width).take(s.len() as int) =~= s);
}

/// A place for up to three characters has dots only.
pub proof fn lemma_shortened_to_dots(s: Seq<char>, width: nat)
    requires
        width <= 3,
    ensures
        crate::text::shortened_end(s, width).len() == width,
        crate::text::shortened_middle(s, width).len() == width,
        forall|i: int|
            0 <= i < width ==> #[trigger] crate::text::shortened_end(s, width)[i] == '.'
                && crate::text::shortened_middle(s, width)[i] == '.',
{
}

/// A rounded quotient is nearest to the quotient; of two that are equally near
/// it is the even one.
pub proof fn lemma_rounded(n: nat, d: nat)
    requires
        d > 0,
    ensures
        ({
            let q = crate::size::rounded_quotient(n, d);
            &&& 2 * (q * d) <= 2 * n + d
            &&& 2 * n <= 2 * (q * d) + d
            &&& 2 * (q * d) == 2 * n + d || 2 * n == 2 * (q * d) + d ==> q % 2 == 0
        }),
{
    let q = n / d;
    let r = n % d;
    vstd::arithmetic::div_mod::lemma_fundamental_div_mod(n as int, d as int);
    assert(d * q == q * d) by (nonlinear_arith);
    assert((q + 1) * d == q * d + d) by (nonlinear_arith);
}

/// A byte count is taken to the nearest number of 53 bits: it is off by no more
/// than one part in as many, and small counts are not off at all.
pub proof fn lemma_nearest_double(n: nat)
    ensures
        ({
            let v = crate::size::nearest_double(n);
            let off = if v < n {
                n - v
            } else {
                v - n
            };
            &&& off * 0x20_0000_0000_0000 <= n
            &&& n < 0x20_0000_0000_0000 ==> v == n
        }),
{
    let s = crate::size::double_step(n);
    lemma_step(n);
    lemma_rounded(n, s);
    if n < 0x20_0000_0000_0000 {
        let q = crate::size::rounded_quotient(n, 1);
        assert(n / 1 == n && n % 1 == 0);
        assert(q * 1 == q);
    } else {
        let v = crate::size::nearest_double(n);
        let off = if v < n {
            n - v
        } else {
            v - n
        };
        assert(2 * off <= s);
        assert(off * 0x20_0000_0000_0000 <= s * 0x10_0000_0000_0000);
    }
}

proof fn lemma_step(n: nat)
    ensures
        0 < crate::size::double_step(n),
        n >= 0x20_0000_0000_0000 ==> crate::size::double_step(n) * 0x10_0000_0000_0000 <= n,
        n < 0x20_0000_0000_0000 ==> crate::size::double_step(n) == 1,
    decreases n,
{
    if n >= 0x20_0000_0000_0000 {
        lemma_step(n / 2);
        if n / 2 < 0x20_0000_0000_0000 {
            assert(crate::size::double_step(n / 2) == 1);
        }
    }
}

/// The bytes in a unit: 1024 of the unit before it.
pub proof fn lemma_units(unit: nat)
    requires
        unit < 5,
    ensures
        crate::size::unit_bytes(0) == 1,
        crate::size::unit_bytes(unit + 1) == 1024 * crate::size::unit_bytes(unit),
        crate::size::unit_name(0) == "B"@,
        crate::size::unit_name(1) == "KB"@,
        crate::size::unit_name(2) == "MB"@,
        crate::size::unit_name(3) == "GB"@,
        crate::size::unit_name(4) == "TB"@,
        crate::size::unit_name(5) == "PB"@,
{
}

/// A byte count is shown in the largest unit of which there is at least one. Up
/// to 1023 bytes are shown exactly; from ten of a unit on, the number shown is
/// off by at most half a unit, and below ten by at most half a tenth.
pub proof fn lemma_human_near(size: u64) -> (res: (nat, nat))
    ensures
        ({
            let v = crate::size::nearest_double(size as nat);
            let (unit, shown) = res;
            let scale = crate::size::unit_bytes(unit);
            &&& unit <= 5
            &&& unit > 0 ==> scale <= v
            &&& unit < 5 ==> v < 1024 * scale
            &&& unit == 0 ==> shown == size && crate::size::human(size) == crate::text::decimal(
                shown,
            ) + " B"@
            &&& unit > 0 && v >= 10 * scale ==> {
                &&& crate::size::human(size) == crate::text::decimal(shown) + " "@
                    + crate::size::unit_name(unit)
                &&& 2 * (shown * scale) <= 2 * v + scale
                &&& 2 * v <= 2 * (shown * scale) + scale
                &&& 2 * (shown * scale) == 2 * v + scale || 2 * v == 2 * (shown * scale) + scale
                    ==> shown % 2 == 0
            }
            &&& unit > 0 && v < 10 * scale ==> {
                &&& crate::size::human(size) == crate::text::decimal(shown / 10) + "."@
                    + crate::text::decimal(shown % 10) + " "@ + crate::size::unit_name(unit)
                &&& 2 * (shown * scale) <= 20 * v + scale
                &&& 20 * v <= 2 * (shown * scale) + scale
                &&& 2 * (shown * scale) == 20 * v + scale || 20 * v == 2 * (shown * scale) + scale
                    ==> shown % 2 == 0
            }
        }),
{
    let v = crate::size::nearest_double(size as nat);
    let unit = crate::size::unit_of(v);
    let scale = crate::size::unit_bytes(unit);
    reveal_strlit(" ");
    reveal_strlit("B");
    reveal_strlit(" B");
    if unit == 0 {
        assert(crate::size::human(size) =~= crate::text::decimal(size as nat) + " B"@);
        (unit, size as nat)
    } else if v >= 10 * scale {
        lemma_rounded(v, scale);
        (unit, crate::size::rounded_quotient(v, scale))
    } else {
        lemma_rounded(10 * v, scale);
        (unit, crate::size::rounded_quotient(10 * v, scale))
    }
}

/// The number of 53 bits that a byte count is taken to: one of 53 bits times a
/// power of two, nearest to the count among its neighbours, and with an even
/// last bit where it is between two.
pub proof fn lemma_double_bits(n: nat) -> (res: (nat, nat))
    requires
        n >= 0x20_0000_0000_0000,
    ensures
        ({
            let (q, e) = res;
            let step = vstd::arithmetic::power2::pow2(e);
            let v = crate::size::nearest_double(n);
            &&& v == q * step
            &&& 0x10_0000_0000_0000 * step <= n < 0x20_0000_0000_0000 * step
            &&& 2 * v <= 2 * n + step && 2 * n <= 2 * v + step
            &&& 2 * v == 2 * n + step || 2 * n == 2 * v + step ==> q % 2 == 0
        }),
{
    let e = lemma_step_power(n);
    let step = vstd::arithmetic::power2::pow2(e);
    lemma_rounded(n, step);
    (crate::size::rounded_quotient(n, step), e)
}

proof fn lemma_step_power(n: nat) -> (e: nat)
    requires
        n > 0,
    ensures
        crate::size::double_step(n) == vstd::arithmetic::power2::pow2(e),
        vstd::arithmetic::power2::pow2(e) > 0,
        n < 0x20_0000_0000_0000 ==> e == 0,
        n < 0x20_0000_0000_0000 * vstd::arithmetic::power2::pow2(e),
        n >= 0x20_0000_0000_0000 ==> 0x10_0000_0000_0000 * vstd::arithmetic::power2::pow2(e) <= n,
    decreases n,
{
    if n < 0x20_0000_0000_0000 {
        vstd::arithmetic::power2::lemma2_to64();
        0
    } else {
        let e = lemma_step_power(n / 2);
        let p = vstd::arithmetic::power2::pow2(e);
        vstd::arithmetic::power2::lemma_pow2_unfold(e + 1);
        assert(vstd::arithmetic::power2::pow2(e + 1) == 2 * p);
        if n / 2 < 0x20_0000_0000_0000 {
            vstd::arithmetic::power2::lemma2_to64();
        }
        e + 1
    }
}

} // verus!
