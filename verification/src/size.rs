//! Byte counts for people to read.

use vstd::prelude::*;

use crate::text::append_decimal;

verus! {

/// The integer nearest to a quotient; of two that are equally near, the even
/// one.
pub open spec fn rounded_quotient(n: nat, d: nat) -> nat {
    let q = n / d;
    let r = n % d;
    if 2 * r < d || (2 * r == d && q % 2 == 0) {
        q
    } else {
        q + 1
    }
}

/// The distance between neighbouring numbers of 53 significant bits around
/// `n`.
pub open spec fn double_step(n: nat) -> nat
    decreases n,
{
    if n < 0x20_0000_0000_0000 {
        1
    } else {
        2 * double_step(n / 2)
    }
}

/// The number of 53 significant bits nearest to `n`; of two that are equally
/// near, the one with an even last bit.
pub open spec fn nearest_double(n: nat) -> nat {
    rounded_quotient(n, double_step(n)) * double_step(n)
}

/// The power of 1024 that a byte count is shown in, at most the fifth.
pub open spec fn unit_of(v: nat) -> nat {
    if v < 0x400 {
        0
    } else if v < 0x10_0000 {
        1
    } else if v < 0x4000_0000 {
        2
    } else if v < 0x100_0000_0000 {
        3
    } else if v < 0x4_0000_0000_0000 {
        4
    } else {
        5
    }
}

/// The bytes in one of each unit.
pub open spec fn unit_bytes(unit: nat) -> nat {
    if unit == 0 {
        1
    } else if unit == 1 {
        0x400
    } else if unit == 2 {
        0x10_0000
    } else if unit == 3 {
        0x4000_0000
    } else if unit == 4 {
        0x100_0000_0000
    } else {
        0x4_0000_0000_0000
    }
}

/// The name of each unit.
pub open spec fn unit_name(unit: nat) -> Seq<char> {
    if unit == 0 {
        "B"@
    } else if unit == 1 {
        "KB"@
    } else if unit == 2 {
        "MB"@
    } else if unit == 3 {
        "GB"@
    } else if unit == 4 {
        "TB"@
    } else {
        "PB"@
    }
}

/// A byte count in the largest unit of which there is at least one: a whole
/// number of bytes, otherwise one decimal below ten and none from ten on. The
/// count is first taken to 53 significant bits.
pub open spec fn human(size: u64) -> Seq<char> {
    let v = nearest_double(size as nat);
    let unit = unit_of(v);
    let scale = unit_bytes(unit);
    if unit == 0 {
        crate::text::decimal(size as nat) + " "@ + unit_name(unit)
    } else if v >= 10 * scale {
        crate::text::decimal(rounded_quotient(v, scale)) + " "@ + unit_name(unit)
    } else {
        let tenths = rounded_quotient(10 * v, scale);
        crate::text::decimal(tenths / 10) + "."@ + crate::text::decimal(tenths % 10) + " "@
            + unit_name(unit)
    }
}

fn nearest_quotient(n: u128, d: u128) -> (res: u128)
    requires
        0 < d <= 0x1_0000_0000_0000_0000,
        n <= 0x10_0000_0000_0000_0000,
    ensures
        res == rounded_quotient(n as nat, d as nat),
{
    let q = n / d;
    let r = n % d;
    if 2 * r < d || (2 * r == d && q % 2 == 0) {
        q
    } else {
        assert(q <= n) by (nonlinear_arith)
            requires
                q == n / d,
                d > 0,
        ;
        q + 1
    }
}

proof fn lemma_step_bound(n: nat)
    ensures
        0 < double_step(n),
        n >= 0x20_0000_0000_0000 ==> double_step(n) * 0x10_0000_0000_0000 <= n,
        n <= 0xffff_ffff_ffff_ffff ==> nearest_double(n) <= 0x1_0000_0000_0000_0000,
        n < 0x20_0000_0000_0000 ==> nearest_double(n) == n,
    decreases n,
{
    if n >= 0x20_0000_0000_0000 {
        lemma_step_bound(n / 2);
        reveal_with_fuel(double_step, 13);
        let s = double_step(n);
        let q = n / s;
        assert(q * s <= n) by (nonlinear_arith)
            requires
                q == n / s,
                s > 0,
        ;
        assert((q + 1) * s == q * s + s) by (nonlinear_arith);
        if n <= 0xffff_ffff_ffff_ffff {
            let m = if s == 2 {
                0x8000_0000_0000_0000nat
            } else if s == 4 {
                0x4000_0000_0000_0000
            } else if s == 8 {
                0x2000_0000_0000_0000
            } else if s == 16 {
                0x1000_0000_0000_0000
            } else if s == 32 {
                0x800_0000_0000_0000
            } else if s == 64 {
                0x400_0000_0000_0000
            } else if s == 128 {
                0x200_0000_0000_0000
            } else if s == 256 {
                0x100_0000_0000_0000
            } else if s == 512 {
                0x80_0000_0000_0000
            } else if s == 1024 {
                0x40_0000_0000_0000
            } else {
                0x20_0000_0000_0000
            };
            assert(m * s == 0x1_0000_0000_0000_0000);
            assert(q < m) by (nonlinear_arith)
                requires
                    q * s <= n,
                    n < m * s,
            ;
            assert((q + 1) * s <= m * s) by (nonlinear_arith)
                requires
                    q < m,
            ;
        }
    }
}

fn to_double(n: u64) -> (res: u128)
    ensures
        res == nearest_double(n as nat),
        res <= 0x1_0000_0000_0000_0000,
{
    let mut step: u128 = 1;
    let mut m: u64 = n;
    proof {
        lemma_step_bound(n as nat);
    }
    while m >= 0x20_0000_0000_0000
        invariant
            double_step(n as nat) == step * double_step(m as nat),
            0 < step <= 0x1_0000_0000_0000_0000,
            step * m <= n,
            0x20_0000_0000_0000 <= n ==> 0 < m,
            0 < m || n == 0,
        decreases m,
    {
        let ghost before = step;
        proof {
            assert(step * m >= step * 0x20_0000_0000_0000) by (nonlinear_arith)
                requires
                    m >= 0x20_0000_0000_0000,
            ;
            assert(before * (2 * double_step((m / 2) as nat)) == (2 * before) * double_step(
                (m / 2) as nat,
            )) by (nonlinear_arith);
            assert((2 * before) * (m / 2) <= before * m) by (nonlinear_arith)
                requires
                    2 * (m / 2) <= m,
            ;
        }
        step = 2 * step;
        m = m / 2;
    }
    proof {
        assert(step * 1 == step);
    }
    nearest_quotient(n as u128, step) * step
}

/// A byte count for people to read.
pub fn human_size(size: u64) -> (res: String)
    ensures
        res@ == human(size),
{
    let v = to_double(size);
    let mut out = String::new();
    let (unit, scale): (&str, u128) = if v < 0x400 {
        ("B", 1)
    } else if v < 0x10_0000 {
        ("KB", 0x400)
    } else if v < 0x4000_0000 {
        ("MB", 0x10_0000)
    } else if v < 0x100_0000_0000 {
        ("GB", 0x4000_0000)
    } else if v < 0x4_0000_0000_0000 {
        ("TB", 0x100_0000_0000)
    } else {
        ("PB", 0x4_0000_0000_0000)
    };
    proof {
        assert(unit@ == unit_name(unit_of(v as nat)));
        assert(scale == unit_bytes(unit_of(v as nat)));
    }
    if v < 0x400 {
        append_decimal(&mut out, size);
    } else if v >= 10 * scale {
        let q = nearest_quotient(v, scale);
        assert(q <= 0xffff_ffff_ffff_ffff) by {
            lemma_quotient_fits(v as nat, scale as nat);
        }
        append_decimal(&mut out, q as u64);
    } else {
        let tenths = nearest_quotient(10 * v, scale);
        assert(tenths <= 0xffff_ffff_ffff_ffff) by {
            lemma_quotient_fits(10 * v as nat, scale as nat);
        }
        append_decimal(&mut out, (tenths / 10) as u64);
        out.append(".");
        append_decimal(&mut out, (tenths % 10) as u64);
    }
    out.append(" ");
    out.append(unit);
    assert(out@ =~= human(size));
    out
}

proof fn lemma_quotient_fits(n: nat, d: nat)
    requires
        0x400 <= d,
        n <= 0xa_0000_0000_0000_0000,
    ensures
        rounded_quotient(n, d) <= 0xffff_ffff_ffff_ffff,
{
    assert(n / d <= n / 0x400) by (nonlinear_arith)
        requires
            0x400 <= d,
    ;
}

/// Counts of up to 53 bits are shown as they are, and counts below 1024 in
/// bytes.
pub proof fn lemma_human(size: u64)
    ensures
        size < 0x20_0000_0000_0000 ==> nearest_double(size as nat) == size,
        size < 1024 ==> human(size) == crate::text::decimal(size as nat) + " "@ + "B"@,
{
    lemma_step_bound(size as nat);
}

} // verus!
