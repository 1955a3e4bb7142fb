//! Exact integer arithmetic for the fixed-point lattice: truncating
//! division, the integer square root, and clamping of signed distances.

use vstd::prelude::*;

verus! {

/// Lattice units per world unit: all coordinates, radii and distances are
/// fixed-point numbers with this scale.
pub const FP: i64 = 65536;

/// Largest magnitude a signed distance may take; the empty field reports
/// this distance everywhere.
pub const D_MAX: i64 = 0x20000000000000;

/// Magnitude of a value.
pub open spec fn sabs(x: int) -> int {
    if x >= 0 {
        x
    } else {
        -x
    }
}

/// Smaller of two values.
pub open spec fn smin(a: int, b: int) -> int {
    if a <= b {
        a
    } else {
        b
    }
}

/// Larger of two values.
pub open spec fn smax(a: int, b: int) -> int {
    if a >= b {
        a
    } else {
        b
    }
}

/// Truncating (round-toward-zero) division, the semantics of machine
/// division on signed integers.
pub open spec fn tdiv(a: int, b: int) -> int
    recommends
        b > 0,
{
    if a >= 0 {
        a / b
    } else {
        -((-a) / b)
    }
}

/// Clamp a value into the symmetric band of admissible signed distances.
pub open spec fn clamp_d(x: int) -> int {
    if x > D_MAX {
        D_MAX as int
    } else if x < -D_MAX {
        -D_MAX as int
    } else {
        x
    }
}

/// The integer square root: the largest `r` with `r * r <= n`.
pub open spec fn isq(n: nat) -> nat
    decreases n,
{
    if n == 0 {
        0
    } else {
        let r = isq((n - 1) as nat);
        if (r + 1) * (r + 1) <= n {
            r + 1
        } else {
            r
        }
    }
}

/// `isq(n)` is the floor of the square root of `n`.
pub proof fn lemma_isq(n: nat)
    ensures
        isq(n) * isq(n) <= n,
        n < (isq(n) + 1) * (isq(n) + 1),
    decreases n,
{
    if n == 0 {
        assert(isq(0) == 0);
        assert(n < (isq(n) + 1) * (isq(n) + 1)) by (nonlinear_arith)
            requires
                n == 0,
                isq(n) == 0,
        ;
    } else {
        lemma_isq((n - 1) as nat);
        let r = isq((n - 1) as nat);
        assert(r * r <= n - 1 < (r + 1) * (r + 1));
        if (r + 1) * (r + 1) <= n {
            assert(isq(n) == r + 1);
            assert(n < (r + 2) * (r + 2)) by (nonlinear_arith)
                requires
                    n <= (r + 1) * (r + 1),
            ;
        } else {
            assert(isq(n) == r);
            assert(r * r <= n);
            assert(n < (r + 1) * (r + 1));
        }
    }
}

/// Any `r` bracketing `n` between consecutive squares is the square root.
pub proof fn lemma_isq_unique(n: nat, r: nat)
    requires
        r * r <= n,
        n < (r + 1) * (r + 1),
    ensures
        isq(n) == r,
{
    lemma_isq(n);
    let s = isq(n);
    assert(s == r) by (nonlinear_arith)
        requires
            r * r <= n,
            n < (r + 1) * (r + 1),
            s * s <= n,
            n < (s + 1) * (s + 1),
    ;
}

/// `isq(n)` is at most `k` whenever `n` lies below the next square.
pub proof fn lemma_isq_le(n: nat, k: nat)
    requires
        n < (k + 1) * (k + 1),
    ensures
        isq(n) <= k,
{
    lemma_isq(n);
    assert(isq(n) <= k) by (nonlinear_arith)
        requires
            isq(n) * isq(n) <= n,
            n < (k + 1) * (k + 1),
    ;
}

/// The square root of a positive number is positive.
pub proof fn lemma_isq_pos(n: nat)
    requires
        n >= 1,
    ensures
        isq(n) >= 1,
{
    lemma_isq(n);
    assert(isq(n) >= 1) by (nonlinear_arith)
        requires
            n >= 1,
            n < (isq(n) + 1) * (isq(n) + 1),
    ;
}

/// Bounds on both factors bound the product.
pub proof fn lemma_mul_bound(a: int, b: int, aa: int, bb: int)
    by (nonlinear_arith)
    requires
        -aa <= a <= aa,
        -bb <= b <= bb,
        0 <= aa,
        0 <= bb,
    ensures
        -(aa * bb) <= a * b <= aa * bb,
{
}

/// A square is never negative.
pub proof fn lemma_square_nonneg(a: int)
    by (nonlinear_arith)
    ensures
        a * a >= 0,
{
}

/// Truncating division by `b` maps `[-b*c, b*c]` into `[-c, c]`.
pub proof fn lemma_tdiv_bound(a: int, b: int, c: int)
    requires
        b > 0,
        c >= 0,
        -(b * c) <= a <= b * c,
    ensures
        -c <= tdiv(a, b) <= c,
{
    if a >= 0 {
        assert(0 <= a / b <= c) by (nonlinear_arith)
            requires
                b > 0,
                c >= 0,
                0 <= a <= b * c,
        ;
    } else {
        assert(0 <= (-a) / b <= c) by (nonlinear_arith)
            requires
                b > 0,
                c >= 0,
                0 <= -a <= b * c,
        ;
    }
}

/// Truncating division never grows the magnitude.
pub proof fn lemma_tdiv_shrinks(a: int, b: int)
    requires
        b >= 1,
    ensures
        a >= 0 ==> 0 <= tdiv(a, b) <= a,
        a < 0 ==> a <= tdiv(a, b) <= 0,
{
    if a >= 0 {
        assert(0 <= a / b <= a) by (nonlinear_arith)
            requires
                b >= 1,
                a >= 0,
        ;
    } else {
        assert(0 <= (-a) / b <= -a) by (nonlinear_arith)
            requires
                b >= 1,
                a < 0,
        ;
    }
}

/// Truncating division is monotone, and moving the dividend by `d`
/// moves the quotient by at most `d / b` plus one.
pub proof fn lemma_tdiv_diff(x: int, y: int, b: int)
    requires
        b >= 1,
        x <= y,
    ensures
        0 <= tdiv(y, b) - tdiv(x, b) <= tdiv(y - x, b) + 1,
{
    vstd::arithmetic::div_mod::lemma_fundamental_div_mod(y - x, b);
    vstd::arithmetic::div_mod::lemma_mod_bound(y - x, b);
    let qd = (y - x) / b;
    let rd = (y - x) % b;
    if x >= 0 {
        vstd::arithmetic::div_mod::lemma_fundamental_div_mod(x, b);
        vstd::arithmetic::div_mod::lemma_mod_bound(x, b);
        vstd::arithmetic::div_mod::lemma_fundamental_div_mod(y, b);
        vstd::arithmetic::div_mod::lemma_mod_bound(y, b);
        assert(0 <= y / b - x / b <= qd + 1) by (nonlinear_arith)
            requires
                b >= 1,
                0 <= x <= y,
                x == b * (x / b) + x % b,
                y == b * (y / b) + y % b,
                y - x == b * qd + rd,
                0 <= x % b < b,
                0 <= y % b < b,
                0 <= rd < b,
        ;
    } else if y < 0 {
        vstd::arithmetic::div_mod::lemma_fundamental_div_mod(-x, b);
        vstd::arithmetic::div_mod::lemma_mod_bound(-x, b);
        vstd::arithmetic::div_mod::lemma_fundamental_div_mod(-y, b);
        vstd::arithmetic::div_mod::lemma_mod_bound(-y, b);
        assert(0 <= (-x) / b - (-y) / b <= qd + 1) by (nonlinear_arith)
            requires
                b >= 1,
                x <= y < 0,
                -x == b * ((-x) / b) + (-x) % b,
                -y == b * ((-y) / b) + (-y) % b,
                y - x == b * qd + rd,
                0 <= (-x) % b < b,
                0 <= (-y) % b < b,
                0 <= rd < b,
        ;
    } else {
        vstd::arithmetic::div_mod::lemma_fundamental_div_mod(-x, b);
        vstd::arithmetic::div_mod::lemma_mod_bound(-x, b);
        vstd::arithmetic::div_mod::lemma_fundamental_div_mod(y, b);
        vstd::arithmetic::div_mod::lemma_mod_bound(y, b);
        assert(0 <= y / b + (-x) / b <= qd + 1) by (nonlinear_arith)
            requires
                b >= 1,
                x < 0 <= y,
                -x == b * ((-x) / b) + (-x) % b,
                y == b * (y / b) + y % b,
                y - x == b * qd + rd,
                0 <= (-x) % b < b,
                0 <= y % b < b,
                0 <= rd < b,
        ;
    }
}

/// Clamping to the distance band never grows a difference.
pub proof fn lemma_clamp_d_diff(x: int, y: int)
    requires
        x <= y,
    ensures
        0 <= clamp_d(y) - clamp_d(x) <= y - x,
{
}

/// Executable integer square root by bisection.
pub fn isqrt(n: u128) -> (r: u128)
    ensures
        r == isq(n as nat),
{
    let mut lo: u128 = 0;
    let mut hi: u128 = 0x10000000000000000;
    while lo + 1 < hi
        invariant
            lo < hi,
            hi <= 0x10000000000000000,
            (lo as nat) * (lo as nat) <= n as nat,
            (n as nat) < (hi as nat) * (hi as nat),
        decreases hi - lo,
    {
        let mid = lo + (hi - lo) / 2;
        assert(mid * mid <= u128::MAX) by (nonlinear_arith)
            requires
                mid < 0x10000000000000000u128,
        ;
        if mid * mid <= n {
            lo = mid;
        } else {
            hi = mid;
        }
    }
    proof {
        lemma_isq_unique(n as nat, lo as nat);
    }
    lo
}

/// Executable truncating division on wide integers.
pub fn div_t(a: i128, b: i128) -> (r: i128)
    requires
        0 < b,
        -0x40000000000000000000000000000000 < a,
    ensures
        r == tdiv(a as int, b as int),
{
    if a >= 0 {
        ((a as u128) / (b as u128)) as i128
    } else {
        let m = ((-a) as u128) / (b as u128);
        -(m as i128)
    }
}

/// Executable clamp of a wide result into the admissible distance band.
pub fn clamp_dist(x: i128) -> (r: i64)
    ensures
        r == clamp_d(x as int),
{
    if x > D_MAX as i128 {
        D_MAX
    } else if x < -(D_MAX as i128) {
        -D_MAX
    } else {
        x as i64
    }
}

/// Executable minimum on distances.
pub fn min_i64(a: i64, b: i64) -> (r: i64)
    ensures
        r == if a <= b { a as int } else { b as int },
{
    if a <= b {
        a
    } else {
        b
    }
}

/// Executable maximum on distances.
pub fn max_i64(a: i64, b: i64) -> (r: i64)
    ensures
        r == if a >= b { a as int } else { b as int },
{
    if a >= b {
        a
    } else {
        b
    }
}

} // verus!
