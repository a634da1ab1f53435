use vstd::prelude::*;

verus! {

/// Rounds toward zero, as integer division of machine integers does.
pub open spec fn div_trunc(a: int, b: int) -> int {
    if a >= 0 {
        a / b
    } else {
        -((-a) / b)
    }
}

/// Rounds away from zero.
pub open spec fn div_away(a: int, b: int) -> int {
    if a >= 0 {
        (a + b - 1) / b
    } else {
        -((-a + b - 1) / b)
    }
}

pub open spec fn clamp(v: int, lim: int) -> int {
    if v < -lim {
        -lim
    } else if v > lim {
        lim
    } else {
        v
    }
}

pub open spec fn is_isqrt(n: int, r: int) -> bool {
    0 <= r && r * r <= n < (r + 1) * (r + 1)
}

pub fn div_trunc_exec(a: i128, b: i128) -> (r: i128)
    requires
        b > 0,
        a > i128::MIN,
    ensures
        r == div_trunc(a as int, b as int),
{
    if a >= 0 {
        a / b
    } else {
        -((-a) / b)
    }
}

pub fn div_away_exec(a: i128, b: i128) -> (r: i128)
    requires
        b > 0,
        -0x1000_0000_0000_0000_0000_0000_0000 < a < 0x1000_0000_0000_0000_0000_0000_0000,
        b < 0x1000_0000_0000_0000_0000_0000_0000,
    ensures
        r == div_away(a as int, b as int),
{
    if a >= 0 {
        (a + b - 1) / b
    } else {
        -((-a + b - 1) / b)
    }
}

/// Clamps `v` to `[-lim, lim]`.
pub fn clamp_exec(v: i128, lim: i64) -> (r: i64)
    requires
        lim >= 0,
    ensures
        r == clamp(v as int, lim as int),
{
    if v < -(lim as i128) {
        -lim
    } else if v > lim as i128 {
        lim
    } else {
        v as i64
    }
}

/// Integer square root, rounded down, by bisection.
fn isqrt(n: u128) -> (r: u128)
    requires
        n < 0x4_0000_0000_0000_0000_0000_0000,
    ensures
        is_isqrt(n as int, r as int),
        r < 0x8_0000_0000_0000,
{
    let mut lo: u128 = 0;
    let mut hi: u128 = 0x8_0000_0000_0000;
    assert(hi * hi == 0x40_0000_0000_0000_0000_0000_0000) by (nonlinear_arith)
        requires
            hi == 0x8_0000_0000_0000u128,
    ;
    while hi - lo > 1
        invariant
            lo < hi <= 0x8_0000_0000_0000,
            lo * lo <= n,
            n < hi * hi,
        decreases hi - lo,
    {
        let mid = lo + (hi - lo) / 2;
        assert(mid * mid <= 0x40_0000_0000_0000_0000_0000_0000) by (nonlinear_arith)
            requires
                mid <= 0x8_0000_0000_0000u128,
        ;
        if mid * mid <= n {
            lo = mid;
        } else {
            hi = mid;
        }
    }
    assert(hi == lo + 1);
    lo
}

/// The integer square root of `n`, rounded down.
pub open spec fn sqrt_floor(n: int) -> int {
    choose|r: int| is_isqrt(n, r)
}

pub proof fn lemma_isqrt_unique(n: int, r1: int, r2: int)
    requires
        is_isqrt(n, r1),
        is_isqrt(n, r2),
    ensures
        r1 == r2,
{
    if r1 < r2 {
        assert((r1 + 1) * (r1 + 1) <= r2 * r2) by (nonlinear_arith)
            requires
                0 <= r1 < r2,
        ;
    } else if r2 < r1 {
        assert((r2 + 1) * (r2 + 1) <= r1 * r1) by (nonlinear_arith)
            requires
                0 <= r2 < r1,
        ;
    }
}

/// Integer square root, rounded down, for a value of at most 98 bits.
pub fn sqrt_floor_exec(n: u128) -> (r: u128)
    requires
        n < 0x4_0000_0000_0000_0000_0000_0000,
    ensures
        r as int == sqrt_floor(n as int),
        is_isqrt(n as int, r as int),
        r < 0x8_0000_0000_0000,
{
    let r = isqrt(n);
    proof {
        lemma_isqrt_unique(n as int, r as int, sqrt_floor(n as int));
    }
    r
}

} // verus!
