//! Signed 256-bit integers, enough to evaluate the perspective transform
//! exactly for any `i32` corners and any raster that fits in memory.
use vstd::prelude::*;

verus! {

/// The integer `hi * 2^128 + lo`.
#[derive(Clone, Copy)]
pub struct Wide {
    pub hi: i128,
    pub lo: u128,
}

impl Wide {
    pub open spec fn value(self) -> int {
        self.hi * 0x1_0000_0000_0000_0000_0000_0000_0000_0000 + self.lo
    }

    /// Bound on the high half under which sums and negations stay exact.
    pub open spec fn small(self) -> bool {
        -0x100_0000_0000_0000_0000_0000_0000_0000 <= self.hi <= 0x100_0000_0000_0000_0000_0000_0000_0000
    }
}

/// `x + y`.
pub fn wide_add(x: Wide, y: Wide) -> (r: Wide)
    requires
        x.small(),
        y.small(),
    ensures
        r.value() == x.value() + y.value(),
        x.hi + y.hi <= r.hi <= x.hi + y.hi + 1,
{
    if x.lo > u128::MAX - y.lo {
        Wide { hi: x.hi + y.hi + 1, lo: x.lo - (u128::MAX - y.lo) - 1 }
    } else {
        Wide { hi: x.hi + y.hi, lo: x.lo + y.lo }
    }
}

/// `-x`.
pub fn wide_neg(x: Wide) -> (r: Wide)
    requires
        x.small(),
    ensures
        r.value() == -x.value(),
        -x.hi - 1 <= r.hi <= -x.hi,
{
    if x.lo == 0 {
        Wide { hi: -x.hi, lo: 0 }
    } else {
        Wide { hi: -x.hi - 1, lo: u128::MAX - x.lo + 1 }
    }
}

/// Whether `x <= y`.
pub fn wide_le(x: Wide, y: Wide) -> (b: bool)
    ensures
        b == (x.value() <= y.value()),
{
    x.hi < y.hi || (x.hi == y.hi && x.lo <= y.lo)
}

/// Whether `x < 0`.
pub fn is_negative(x: Wide) -> (b: bool)
    ensures
        b == (x.value() < 0),
{
    x.hi < 0
}

/// Whether `x == 0`.
pub fn is_zero(x: Wide) -> (b: bool)
    ensures
        b == (x.value() == 0),
{
    x.hi == 0 && x.lo == 0
}

/// `a * b` for an unsigned 128-bit `a`.
pub fn mul_u128_u64(a: u128, b: u64) -> (r: Wide)
    ensures
        r.value() == a * b,
        0 <= r.hi <= 0x1_0000_0000_0000_0000,
{
    let a0: u128 = a % 0x1_0000_0000_0000_0000;
    let a1: u128 = a / 0x1_0000_0000_0000_0000;
    let bb: u128 = b as u128;
    proof {
        assert(a == a1 * 0x1_0000_0000_0000_0000 + a0);
        assert(a1 < 0x1_0000_0000_0000_0000);
        assert(a0 * bb <= 0xffff_ffff_ffff_ffff * 0xffff_ffff_ffff_ffff) by (nonlinear_arith)
            requires
                a0 <= 0xffff_ffff_ffff_ffff,
                bb <= 0xffff_ffff_ffff_ffff,
        ;
        assert(a1 * bb <= 0xffff_ffff_ffff_ffff * 0xffff_ffff_ffff_ffff) by (nonlinear_arith)
            requires
                a1 <= 0xffff_ffff_ffff_ffff,
                bb <= 0xffff_ffff_ffff_ffff,
        ;
    }
    let p0: u128 = a0 * bb;
    let p1: u128 = a1 * bb;
    let c1: u128 = p1 / 0x1_0000_0000_0000_0000;
    let c0: u128 = p1 % 0x1_0000_0000_0000_0000;
    proof {
        assert(p1 == c1 * 0x1_0000_0000_0000_0000 + c0);
        assert(c1 < 0x1_0000_0000_0000_0000);
    }
    let t = Wide { hi: c1 as i128, lo: c0 * 0x1_0000_0000_0000_0000 };
    let r = wide_add(t, Wide { hi: 0, lo: p0 });
    proof {
        assert(t.value() == p1 * 0x1_0000_0000_0000_0000);
        assert(a1 * bb * 0x1_0000_0000_0000_0000 + a0 * bb == a * bb) by (nonlinear_arith)
            requires
                a == a1 * 0x1_0000_0000_0000_0000 + a0,
        ;
    }
    r
}

/// `a * b` for a signed 128-bit `a`.
pub fn mul_i128_u64(a: i128, b: u64) -> (r: Wide)
    ensures
        r.value() == a * b,
        -0x1_0000_0000_0000_0001 <= r.hi <= 0x1_0000_0000_0000_0000,
{
    if a < 0 {
        let m: u128 = ((-(a + 1)) as u128) + 1;
        let p = mul_u128_u64(m, b);
        proof {
            assert(-(a * b) == m * b) by (nonlinear_arith)
                requires
                    m == -a,
            ;
        }
        wide_neg(p)
    } else {
        mul_u128_u64(a as u128, b)
    }
}

/// `x * m` for a non-negative `x` whose high half is at most `2^16`.
pub fn mul_wide_u64(x: Wide, m: u64) -> (r: Wide)
    requires
        0 <= x.hi <= 0x1_0000,
    ensures
        r.value() == x.value() * m,
        0 <= r.hi <= 0x2_0000_0000_0000_0000_0000,
{
    let low = mul_u128_u64(x.lo, m);
    proof {
        assert(x.hi * m <= 0x1_0000 * 0xffff_ffff_ffff_ffff) by (nonlinear_arith)
            requires
                0 <= x.hi <= 0x1_0000,
                m <= 0xffff_ffff_ffff_ffff,
        ;
        assert(0 <= x.hi * m) by (nonlinear_arith)
            requires
                0 <= x.hi,
                0 <= m,
        ;
    }
    let high = Wide { hi: x.hi * (m as i128), lo: 0 };
    let r = wide_add(low, high);
    proof {
        assert(x.value() * m == x.lo * m + x.hi * m * 0x1_0000_0000_0000_0000_0000_0000_0000_0000)
            by (nonlinear_arith)
            requires
                x.value() == x.hi * 0x1_0000_0000_0000_0000_0000_0000_0000_0000 + x.lo,
        ;
    }
    r
}

} // verus!
