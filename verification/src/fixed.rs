//! Fixed-point arithmetic.
//!
//! Every real-valued quantity of the simulation (excitations, weights,
//! positions, sizes, angles) is stored as an `i64` that counts millionths.
//! Sums and products stop at the ends of the `i64` range instead of wrapping,
//! and quotients round toward zero.

use vstd::prelude::*;

verus! {

/// The fixed-point representation of 1.
pub const UNIT: i64 = 1_000_000;

/// `x`, stopped at the ends of the `i64` range.
pub open spec fn sat(x: int) -> int {
    if x < i64::MIN {
        i64::MIN as int
    } else if x > i64::MAX {
        i64::MAX as int
    } else {
        x
    }
}

/// `x`, stopped at `lo` below and at `hi` above.
pub open spec fn confined(x: int, lo: int, hi: int) -> int {
    if x < lo {
        lo
    } else if x > hi {
        hi
    } else {
        x
    }
}

/// The absolute value of `x`.
pub open spec fn magnitude(x: int) -> int {
    if x < 0 {
        -x
    } else {
        x
    }
}

/// The quotient of `n` by a positive `d`, rounded toward zero.
pub open spec fn quot(n: int, d: int) -> int {
    if n >= 0 {
        n / d
    } else {
        -((-n) / d)
    }
}

/// The fixed-point product of two fixed-point numbers.
pub open spec fn product(a: int, b: int) -> int {
    sat(quot(a * b, UNIT as int))
}

/// An angle brought into the half-open turn `(-UNIT, UNIT]`, where `UNIT`
/// stands for a half turn.
pub open spec fn wrapped(angle: int) -> int {
    UNIT - ((UNIT - angle) % (2 * UNIT))
}

/// `r` is the integer square root of `n`, rounded down.
pub open spec fn is_root(n: int, r: int) -> bool {
    0 <= r && r * r <= n < (r + 1) * (r + 1)
}

/// The integer square root of `n`, rounded down.
pub open spec fn root(n: int) -> int {
    choose|r: int| is_root(n, r)
}

/// An integer has one square root rounded down.
pub proof fn lemma_root(n: int, r: int)
    requires
        is_root(n, r),
    ensures
        root(n) == r,
{
    let other = root(n);
    assert(is_root(n, other));
    if r < other {
        assert((r + 1) * (r + 1) <= other * other) by (nonlinear_arith)
            requires
                0 <= r,
                r + 1 <= other,
        ;
    }
    if other < r {
        assert((other + 1) * (other + 1) <= r * r) by (nonlinear_arith)
            requires
                0 <= other,
                other + 1 <= r,
        ;
    }
}

/// Every natural number has a square root rounded down.
pub proof fn lemma_root_exists(n: int)
    requires
        0 <= n,
    ensures
        is_root(n, root(n)),
    decreases n,
{
    if n == 0 {
        assert(is_root(0, 0));
    } else {
        lemma_root_exists(n - 1);
        let r = root(n - 1);
        if (r + 1) * (r + 1) <= n {
            assert((r + 2) * (r + 2) > n) by (nonlinear_arith)
                requires
                    0 <= r,
                    n - 1 < (r + 1) * (r + 1),
            ;
            assert(is_root(n, r + 1));
        } else {
            assert(is_root(n, r));
        }
    }
}

/// The product of a number with a fraction between -1 and 1 is no larger
/// in magnitude than the number.
pub proof fn lemma_product_of_fraction(a: int, fraction: int)
    requires
        0 <= a <= i64::MAX,
        -UNIT <= fraction <= UNIT,
    ensures
        -a <= product(a, fraction) <= a,
        fraction >= 0 ==> product(a, fraction) >= 0,
{
    let unit = UNIT as int;
    if fraction >= 0 {
        assert(0 <= a * fraction <= a * unit) by (nonlinear_arith)
            requires
                0 <= a,
                0 <= fraction <= unit,
        ;
        assert(0 <= (a * fraction) / unit <= a) by (nonlinear_arith)
            requires
                0 <= a * fraction <= a * unit,
                unit > 0,
        ;
    } else {
        assert(0 <= -(a * fraction) <= a * unit) by (nonlinear_arith)
            requires
                0 <= a,
                -unit <= fraction < 0,
        ;
        assert(0 <= (-(a * fraction)) / unit <= a) by (nonlinear_arith)
            requires
                0 <= -(a * fraction) <= a * unit,
                unit > 0,
        ;
    }
}

/// Narrows a wide intermediate result to `i64`, saturating.
pub fn saturate(x: i128) -> (r: i64)
    ensures
        r == sat(x as int),
{
    if x < i64::MIN as i128 {
        i64::MIN
    } else if x > i64::MAX as i128 {
        i64::MAX
    } else {
        x as i64
    }
}

/// Saturating sum.
pub fn fx_add(a: i64, b: i64) -> (r: i64)
    ensures
        r == sat(a + b),
{
    saturate(a as i128 + b as i128)
}

/// Saturating difference.
pub fn fx_sub(a: i64, b: i64) -> (r: i64)
    ensures
        r == sat(a - b),
{
    saturate(a as i128 - b as i128)
}

/// Saturating negation.
pub fn fx_neg(a: i64) -> (r: i64)
    ensures
        r == sat(-a),
{
    saturate(-(a as i128))
}

/// Absolute value, saturating at `i64::MAX`.
pub fn fx_abs(a: i64) -> (r: i64)
    ensures
        r == sat(magnitude(a as int)),
{
    if a < 0 {
        fx_neg(a)
    } else {
        a
    }
}

/// Saturating fixed-point product, rounded toward zero.
pub fn fx_mul(a: i64, b: i64) -> (r: i64)
    ensures
        r == product(a as int, b as int),
{
    assert(-0x4000_0000_0000_0000_0000_0000_0000_0000 <= (a as int) * (b as int)
        <= 0x4000_0000_0000_0000_0000_0000_0000_0000) by (nonlinear_arith)
        requires
            -0x8000_0000_0000_0000 <= a <= 0x7fff_ffff_ffff_ffff,
            -0x8000_0000_0000_0000 <= b <= 0x7fff_ffff_ffff_ffff,
    ;
    let wide: i128 = a as i128 * b as i128;
    saturate(wide / UNIT as i128)
}

/// Brings an angle into `(-UNIT, UNIT]`.
pub fn wrap_angle(angle: i64) -> (r: i64)
    ensures
        r == wrapped(angle as int),
        -UNIT < r <= UNIT,
{
    let turn: i128 = 2 * UNIT as i128;
    let turns: i128 = 4_611_686_018_428;
    let gap: i128 = UNIT as i128 - angle as i128;
    let rest: i128 = (gap + turns * turn) % turn;
    proof {
        vstd::arithmetic::div_mod::lemma_mod_multiples_vanish(turns as int, gap as int, turn as int);
    }
    (UNIT as i128 - rest) as i64
}

/// Integer square root, rounded down.
pub fn isqrt(n: u128) -> (r: u64)
    ensures
        r == root(n as int),
        is_root(n as int, r as int),
{
    let mut lo: u128 = 0;
    let mut hi: u128 = 0x1_0000_0000_0000_0000;
    assert(n < hi * hi) by (nonlinear_arith)
        requires
            n <= 0xffff_ffff_ffff_ffff_ffff_ffff_ffff_ffff,
            hi == 0x1_0000_0000_0000_0000,
    ;
    while hi - lo > 1
        invariant
            lo < hi <= 0x1_0000_0000_0000_0000,
            lo * lo <= n < hi * hi,
        decreases hi - lo,
    {
        let mid: u128 = lo + (hi - lo) / 2;
        assert(mid * mid <= 0xffff_ffff_ffff_ffff * 0xffff_ffff_ffff_ffff) by (nonlinear_arith)
            requires
                0 <= mid <= 0xffff_ffff_ffff_ffff,
        ;
        if mid * mid <= n {
            lo = mid;
        } else {
            hi = mid;
        }
    }
    proof {
        lemma_root(n as int, lo as int);
    }
    lo as u64
}

} // verus!
