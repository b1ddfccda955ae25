//! Fixed-point arithmetic: every length and speed is a whole number of
//! millionths of a unit.

use vstd::prelude::*;

verus! {

/// How many stored steps make up one unit of length.
pub const SCALE: i64 = 1_000_000;

/// Largest speed a disc may carry on either axis; sums are held to it.
pub const SPEED_LIMIT: i64 = 1_000_000_000_000;

/// `x` held to the closed interval from `lo` to `hi`.
pub open spec fn clamp_to(x: int, lo: int, hi: int) -> int {
    if x < lo {
        lo
    } else if x > hi {
        hi
    } else {
        x
    }
}

/// The magnitude of `x`.
pub open spec fn magnitude(x: int) -> int {
    if x < 0 {
        -x
    } else {
        x
    }
}

/// The quotient of `a` by a positive `b`, rounded toward zero.
pub open spec fn trunc_div(a: int, b: int) -> int {
    if a >= 0 {
        a / b
    } else {
        -((-a) / b)
    }
}

/// `v` times `num / den`, rounded toward zero.
pub open spec fn scaled(v: int, num: int, den: int) -> int {
    trunc_div(v * num, den)
}

/// A speed held to the speed limit.
pub open spec fn capped(v: int) -> int {
    clamp_to(v, -(SPEED_LIMIT as int), SPEED_LIMIT as int)
}

/// Whether `r` is the whole-number square root of `n`.
pub open spec fn is_floor_sqrt(n: int, r: int) -> bool {
    0 <= r && r * r <= n && n < (r + 1) * (r + 1)
}

pub fn clamp(x: i64, lo: i64, hi: i64) -> (r: i64)
    ensures
        r == clamp_to(x as int, lo as int, hi as int),
{
    if x < lo {
        lo
    } else if x > hi {
        hi
    } else {
        x
    }
}

pub fn abs(x: i64) -> (r: i64)
    requires
        x > i64::MIN,
    ensures
        r == magnitude(x as int),
{
    if x < 0 {
        -x
    } else {
        x
    }
}

/// Divides rounding toward zero.
pub fn div_toward_zero(a: i128, b: i128) -> (q: i128)
    requires
        b > 0,
        a > i128::MIN,
    ensures
        q == trunc_div(a as int, b as int),
{
    if a >= 0 {
        let q: u128 = (a as u128) / (b as u128);
        q as i128
    } else {
        let q: u128 = ((-a) as u128) / (b as u128);
        -(q as i128)
    }
}

/// Multiplies a stored value by the ratio `num / den`, rounding toward zero.
pub fn scale(v: i64, num: i64, den: i64) -> (r: i64)
    requires
        0 <= num <= den,
        den > 0,
        v > i64::MIN,
    ensures
        r == scaled(v as int, num as int, den as int),
        magnitude(r as int) <= magnitude(v as int),
{
    proof {
        lemma_product_bound(v as int, num as int, 0x8000_0000_0000_0000, 0x8000_0000_0000_0000);
        lemma_scaled_shrinks(v as int, num as int, den as int);
    }
    let wide: i128 = (v as i128) * (num as i128);
    let q = div_toward_zero(wide, den as i128);
    q as i64
}

/// A product is no longer than the product of bounds on its factors.
pub proof fn lemma_product_bound(a: int, b: int, la: int, lb: int)
    requires
        magnitude(a) <= la,
        magnitude(b) <= lb,
    ensures
        magnitude(a * b) <= la * lb,
        -(la * lb) <= a * b <= la * lb,
{
    let ma = magnitude(a);
    let mb = magnitude(b);
    assert(0 <= ma * mb <= la * lb) by (nonlinear_arith)
        requires
            0 <= ma <= la,
            0 <= mb <= lb,
    ;
    assert(a * b == ma * mb || a * b == -(ma * mb)) by (nonlinear_arith)
        requires
            ma == a || ma == -a,
            mb == b || mb == -b,
    ;
}

/// A ratio of at most one never lengthens a value, and keeps its sign.
pub proof fn lemma_scaled_shrinks(v: int, num: int, den: int)
    requires
        0 <= num <= den,
        den > 0,
    ensures
        magnitude(scaled(v, num, den)) <= magnitude(v),
        v >= 0 ==> scaled(v, num, den) >= 0,
        v <= 0 ==> scaled(v, num, den) <= 0,
{
    let m = magnitude(v);
    assert(0 <= m * num <= m * den) by (nonlinear_arith)
        requires
            0 <= m,
            0 <= num <= den,
    ;
    assert((m * num) / den <= m && (m * num) / den >= 0) by (nonlinear_arith)
        requires
            0 <= m * num <= m * den,
            den > 0,
    ;
    if v >= 0 {
        assert(v * num == m * num);
    } else {
        assert(-(v * num) == m * num) by (nonlinear_arith)
            requires
                m == -v,
        ;
        if v * num == 0 {
            assert((0int) / den == 0) by (nonlinear_arith)
                requires
                    den > 0,
            ;
        }
    }
}

/// Holds a speed to the speed limit.
pub fn cap(v: i128) -> (r: i64)
    ensures
        r == capped(v as int),
{
    if v < -(SPEED_LIMIT as i128) {
        -SPEED_LIMIT
    } else if v > SPEED_LIMIT as i128 {
        SPEED_LIMIT
    } else {
        v as i64
    }
}

/// Adds two speeds and holds the sum to the speed limit.
pub fn add_capped(a: i64, b: i64) -> (r: i64)
    ensures
        r == capped(a as int + b as int),
{
    cap((a as i128) + (b as i128))
}

/// The whole-number square root: the largest `r` whose square does not
/// exceed `n`.
pub fn isqrt(n: u128) -> (r: u64)
    requires
        n < 0x4000_0000_0000_0000_0000_0000_0000_0000u128,
    ensures
        is_floor_sqrt(n as int, r as int),
        r <= i64::MAX,
{
    let mut lo: u128 = 0;
    let mut hi: u128 = 0x8000_0000_0000_0000u128;
    assert(hi * hi == 0x4000_0000_0000_0000_0000_0000_0000_0000u128) by (nonlinear_arith)
        requires
            hi == 0x8000_0000_0000_0000u128,
    ;
    while hi - lo > 1
        invariant
            lo < hi <= 0x8000_0000_0000_0000u128,
            lo * lo <= n,
            n < hi * hi,
        decreases hi - lo,
    {
        let mid: u128 = lo + (hi - lo) / 2;
        assert(mid * mid < 0x4000_0000_0000_0000_0000_0000_0000_0000u128) by (nonlinear_arith)
            requires
                mid < 0x8000_0000_0000_0000u128,
        ;
        if mid * mid <= n {
            lo = mid;
        } else {
            hi = mid;
        }
    }
    lo as u64
}


/// The whole-number square root of `n`.
pub open spec fn floor_sqrt(n: int) -> int {
    choose|r: int| is_floor_sqrt(n, r)
}

/// A number has at most one whole-number square root.
pub proof fn lemma_floor_sqrt_unique(n: int, r1: int, r2: int)
    requires
        is_floor_sqrt(n, r1),
        is_floor_sqrt(n, r2),
    ensures
        r1 == r2,
{
    if r1 < r2 {
        assert((r1 + 1) * (r1 + 1) <= r2 * r2) by (nonlinear_arith)
            requires
                0 <= r1 + 1 <= r2,
        ;
    }
    if r2 < r1 {
        assert((r2 + 1) * (r2 + 1) <= r1 * r1) by (nonlinear_arith)
            requires
                0 <= r2 + 1 <= r1,
        ;
    }
}

/// Whoever holds a whole-number square root of `n` holds `floor_sqrt(n)`.
pub proof fn lemma_floor_sqrt_is(n: int, r: int)
    requires
        is_floor_sqrt(n, r),
    ensures
        floor_sqrt(n) == r,
{
    lemma_floor_sqrt_unique(n, r, floor_sqrt(n));
}

/// No square is negative.
pub proof fn lemma_square_nonnegative(a: int)
    ensures
        a * a >= 0,
{
    assert(a * a >= 0) by (nonlinear_arith);
}

/// Two squares that sum to zero are squares of zero.
pub proof fn lemma_zero_squares(a: int, b: int)
    requires
        a * a + b * b == 0,
    ensures
        a == 0,
        b == 0,
{
    assert(a == 0 && b == 0) by (nonlinear_arith)
        requires
            a * a + b * b == 0,
    ;
}

/// A square below the square of a bound has its root below the bound.
pub proof fn lemma_square_below(a: int, bound: int)
    requires
        a * a < bound * bound,
        0 <= bound,
    ensures
        magnitude(a) < bound,
{
    let m = magnitude(a);
    assert(m * m == a * a) by (nonlinear_arith)
        requires
            m == a || m == -a,
    ;
    if m >= bound {
        assert(bound * bound <= m * m) by (nonlinear_arith)
            requires
                0 <= bound <= m,
        ;
    }
}

/// Rounding a quotient toward zero never lengthens the dividend.
pub proof fn lemma_trunc_div_shrinks(a: int, b: int)
    requires
        b >= 1,
    ensures
        magnitude(trunc_div(a, b)) <= magnitude(a),
        a >= 0 ==> trunc_div(a, b) >= 0,
        a <= 0 ==> trunc_div(a, b) <= 0,
{
    let m = magnitude(a);
    assert(0 <= m / b <= m) by (nonlinear_arith)
        requires
            0 <= m,
            b >= 1,
    ;
}


/// Every number from zero up has a whole-number square root.
pub proof fn lemma_floor_sqrt_exists(n: int)
    requires
        n >= 0,
    ensures
        is_floor_sqrt(n, floor_sqrt(n)),
    decreases n,
{
    if n == 0 {
        assert(is_floor_sqrt(0, 0));
    } else {
        lemma_floor_sqrt_exists(n - 1);
        let r = floor_sqrt(n - 1);
        if n < (r + 1) * (r + 1) {
            assert(is_floor_sqrt(n, r));
        } else {
            assert((r + 1) * (r + 1) < (r + 2) * (r + 2)) by (nonlinear_arith)
                requires
                    r >= 0,
            ;
            assert(is_floor_sqrt(n, r + 1));
        }
    }
}

/// The quotient of a product by twice a length, taken back times twice
/// the length, falls short of the product by less than twice the length.
pub proof fn lemma_half_quotient(x: int, o: int, len: int)
    requires
        x >= 0,
        o >= 0,
        len >= 1,
    ensures
        (x * o) / (2 * len) >= 0,
        2 * len * ((x * o) / (2 * len)) <= x * o,
        x * o - 2 * len + 1 <= 2 * len * ((x * o) / (2 * len)),
{
    let p = x * o;
    let d = 2 * len;
    assert(p >= 0) by (nonlinear_arith)
        requires
            p == x * o,
            x >= 0,
            o >= 0,
    ;
    vstd::arithmetic::div_mod::lemma_fundamental_div_mod(p, d);
    vstd::arithmetic::div_mod::lemma_mod_bound(p, d);
    vstd::arithmetic::div_mod::lemma_div_pos_is_pos(p, d);
}

} // verus!
