//! Vectors, bases, frames and rays on the fixed-point lattice.
//!
//! A `Vec3` stores raw lattice coordinates; a world coordinate `c` is the
//! lattice value `c * FP`.  Products of two lattice values are divided by
//! `FP` again (truncating toward zero), so every operation here is an
//! exact integer function of its inputs.

use vstd::prelude::*;
use crate::math::{tdiv, isq, FP};
use crate::math::{
    div_t,
    isqrt,
    lemma_isq,
    lemma_isq_le,
    lemma_isq_pos,
    lemma_mul_bound,
    lemma_square_nonneg,
    lemma_tdiv_bound,
};

verus! {

/// Bound on coordinates accepted by the general-purpose vector operations;
/// results then provably fit in their types.
pub const V_MAX: i64 = 0x2000000000;

#[derive(Clone, Copy, PartialEq, Eq, Structural, Debug)]
pub struct Vec3 {
    pub x: i64,
    pub y: i64,
    pub z: i64,
}

impl View for Vec3 {
    type V = (int, int, int);

    open spec fn view(&self) -> (int, int, int) {
        (self.x as int, self.y as int, self.z as int)
    }
}

/// All three coordinates lie in `[-b, b]`.
pub open spec fn in_box(v: (int, int, int), b: int) -> bool {
    &&& -b <= v.0 <= b
    &&& -b <= v.1 <= b
    &&& -b <= v.2 <= b
}

/// Raw dot product of lattice triples (scale `FP * FP`).
pub open spec fn dot_raw(a: (int, int, int), b: (int, int, int)) -> int {
    a.0 * b.0 + a.1 * b.1 + a.2 * b.2
}

/// Raw squared norm (scale `FP * FP`).
pub open spec fn norm2_raw(v: (int, int, int)) -> int {
    dot_raw(v, v)
}

/// Norm of a lattice vector, itself a lattice value.
pub open spec fn norm_raw(v: (int, int, int)) -> int {
    isq(norm2_raw(v) as nat) as int
}

/// Componentwise `a + s * b / FP`: add `b` scaled by the fixed-point
/// factor `s`.
pub open spec fn add_scaled(a: (int, int, int), s: int, b: (int, int, int)) -> (int, int, int) {
    (
        a.0 + tdiv(s * b.0, FP as int),
        a.1 + tdiv(s * b.1, FP as int),
        a.2 + tdiv(s * b.2, FP as int),
    )
}

/// Componentwise difference.
pub open spec fn sub_v(a: (int, int, int), b: (int, int, int)) -> (int, int, int) {
    (a.0 - b.0, a.1 - b.1, a.2 - b.2)
}

/// Fixed-point cross product.
pub open spec fn cross_v(a: (int, int, int), b: (int, int, int)) -> (int, int, int) {
    (
        tdiv(a.1 * b.2 - a.2 * b.1, FP as int),
        tdiv(a.2 * b.0 - a.0 * b.2, FP as int),
        tdiv(a.0 * b.1 - a.1 * b.0, FP as int),
    )
}

/// Fixed-point normalization; the zero vector stays the zero vector.
pub open spec fn normalize_v(v: (int, int, int)) -> (int, int, int) {
    if norm2_raw(v) == 0 {
        v
    } else {
        let n = norm_raw(v);
        (tdiv(v.0 * FP, n), tdiv(v.1 * FP, n), tdiv(v.2 * FP, n))
    }
}

/// Rodrigues' rotation of `v` about the unit axis `k` by the angle whose
/// cosine and sine are given at unit scale.
pub open spec fn rodrigues_v(
    v: (int, int, int),
    k: (int, int, int),
    cos: int,
    sin: int,
) -> (int, int, int) {
    let kxv = cross_v(k, v);
    let kdv = tdiv(dot_raw(k, v), FP as int);
    let t3 = tdiv(kdv * (FP - cos), FP as int);
    (
        tdiv(v.0 * cos, FP as int) + tdiv(kxv.0 * sin, FP as int) + tdiv(k.0 * t3, FP as int),
        tdiv(v.1 * cos, FP as int) + tdiv(kxv.1 * sin, FP as int) + tdiv(k.1 * t3, FP as int),
        tdiv(v.2 * cos, FP as int) + tdiv(kxv.2 * sin, FP as int) + tdiv(k.2 * t3, FP as int),
    )
}

/// The squared norm of a vector is never negative.
pub proof fn lemma_norm2_nonneg(v: (int, int, int))
    ensures
        norm2_raw(v) >= 0,
{
    lemma_square_nonneg(v.0);
    lemma_square_nonneg(v.1);
    lemma_square_nonneg(v.2);
}

/// The norm bounds every coordinate of a vector.
pub proof fn lemma_norm_dominates(v: (int, int, int))
    ensures
        norm_raw(v) >= 0,
        -norm_raw(v) <= v.0 <= norm_raw(v),
        -norm_raw(v) <= v.1 <= norm_raw(v),
        -norm_raw(v) <= v.2 <= norm_raw(v),
{
    lemma_norm2_nonneg(v);
    lemma_isq(norm2_raw(v) as nat);
    let n = norm_raw(v);
    assert(-n <= v.0 <= n && -n <= v.1 <= n && -n <= v.2 <= n) by (nonlinear_arith)
        requires
            n >= 0,
            norm2_raw(v) < (n + 1) * (n + 1),
            norm2_raw(v) == v.0 * v.0 + v.1 * v.1 + v.2 * v.2,
    ;
}

/// A vector with zero squared norm is the zero vector.
pub proof fn lemma_norm2_zero(v: (int, int, int))
    requires
        norm2_raw(v) == 0,
    ensures
        v == (0int, 0int, 0int),
{
    assert(v.0 == 0 && v.1 == 0 && v.2 == 0) by (nonlinear_arith)
        requires
            v.0 * v.0 + v.1 * v.1 + v.2 * v.2 == 0,
    ;
}

/// Each component of a normalized vector has magnitude at most `FP`.
pub proof fn lemma_normalized_small(v: (int, int, int))
    ensures
        in_box(normalize_v(v), FP as int) || norm2_raw(v) == 0,
{
    if norm2_raw(v) != 0 {
        lemma_norm_dominates(v);
        lemma_norm2_nonneg(v);
        let n = norm_raw(v);
        lemma_isq_pos(norm2_raw(v) as nat);
        lemma_mul_bound(v.0, FP as int, n, FP as int);
        lemma_tdiv_bound(v.0 * (FP as int), n, FP as int);
        lemma_mul_bound(v.1, FP as int, n, FP as int);
        lemma_tdiv_bound(v.1 * (FP as int), n, FP as int);
        lemma_mul_bound(v.2, FP as int, n, FP as int);
        lemma_tdiv_bound(v.2 * (FP as int), n, FP as int);
    }
}


/// Lagrange's identity in three dimensions: the Cauchy-Schwarz gap is a
/// sum of squares.  The expansion is staged in small products so each
/// step stays within the nonlinear solver's reach.
proof fn lemma_lagrange(q0: int, q1: int, q2: int, d0: int, d1: int, d2: int)
    ensures
        (q0 * q0 + q1 * q1 + q2 * q2) * (d0 * d0 + d1 * d1 + d2 * d2) - (q0 * d0 + q1 * d1 + q2
            * d2) * (q0 * d0 + q1 * d1 + q2 * d2) == (q0 * d1 - q1 * d0) * (q0 * d1 - q1 * d0) + (
        q1 * d2 - q2 * d1) * (q1 * d2 - q2 * d1) + (q2 * d0 - q0 * d2) * (q2 * d0 - q0 * d2),
{
    let s0 = q0 * q0;
    let s1 = q1 * q1;
    let s2 = q2 * q2;
    let t0 = d0 * d0;
    let t1 = d1 * d1;
    let t2 = d2 * d2;
    let u0 = q0 * d0;
    let u1 = q1 * d1;
    let u2 = q2 * d2;
    let x01 = q0 * d1;
    let x10 = q1 * d0;
    let x12 = q1 * d2;
    let x21 = q2 * d1;
    let x20 = q2 * d0;
    let x02 = q0 * d2;
    assert((s0 + s1 + s2) * (t0 + t1 + t2) == s0 * t0 + s0 * t1 + s0 * t2 + s1 * t0 + s1 * t1 + s1
        * t2 + s2 * t0 + s2 * t1 + s2 * t2) by (nonlinear_arith);
    assert(s0 * t0 == u0 * u0 && s1 * t1 == u1 * u1 && s2 * t2 == u2 * u2) by (nonlinear_arith)
        requires
            s0 == q0 * q0,
            s1 == q1 * q1,
            s2 == q2 * q2,
            t0 == d0 * d0,
            t1 == d1 * d1,
            t2 == d2 * d2,
            u0 == q0 * d0,
            u1 == q1 * d1,
            u2 == q2 * d2,
    ;
    assert(s0 * t1 == x01 * x01 && s1 * t0 == x10 * x10 && s1 * t2 == x12 * x12 && s2 * t1 == x21
        * x21 && s2 * t0 == x20 * x20 && s0 * t2 == x02 * x02) by (nonlinear_arith)
        requires
            s0 == q0 * q0,
            s1 == q1 * q1,
            s2 == q2 * q2,
            t0 == d0 * d0,
            t1 == d1 * d1,
            t2 == d2 * d2,
            x01 == q0 * d1,
            x10 == q1 * d0,
            x12 == q1 * d2,
            x21 == q2 * d1,
            x20 == q2 * d0,
            x02 == q0 * d2,
    ;
    assert((u0 + u1 + u2) * (u0 + u1 + u2) == u0 * u0 + u1 * u1 + u2 * u2 + 2 * (u0 * u1) + 2 * (
    u0 * u2) + 2 * (u1 * u2)) by (nonlinear_arith);
    assert(u0 * u1 == x01 * x10 && u1 * u2 == x12 * x21 && u2 * u0 == x20 * x02)
        by (nonlinear_arith)
        requires
            u0 == q0 * d0,
            u1 == q1 * d1,
            u2 == q2 * d2,
            x01 == q0 * d1,
            x10 == q1 * d0,
            x12 == q1 * d2,
            x21 == q2 * d1,
            x20 == q2 * d0,
            x02 == q0 * d2,
    ;
    assert(u2 * u0 == u0 * u2) by (nonlinear_arith);
    assert((x01 - x10) * (x01 - x10) == x01 * x01 - 2 * (x01 * x10) + x10 * x10)
        by (nonlinear_arith);
    assert((x12 - x21) * (x12 - x21) == x12 * x12 - 2 * (x12 * x21) + x21 * x21)
        by (nonlinear_arith);
    assert((x20 - x02) * (x20 - x02) == x20 * x20 - 2 * (x20 * x02) + x02 * x02)
        by (nonlinear_arith);
}


/// Cauchy-Schwarz on the lattice: a dot product is bounded by the
/// product of the rounded norms.
pub proof fn lemma_dot_cauchy_schwarz(n: (int, int, int), d: (int, int, int))
    ensures
        -((norm_raw(n) + 1) * (norm_raw(d) + 1)) < dot_raw(n, d) < (norm_raw(n) + 1) * (norm_raw(
            d,
        ) + 1),
{
    lemma_norm2_nonneg(n);
    lemma_norm2_nonneg(d);
    lemma_isq(norm2_raw(n) as nat);
    lemma_isq(norm2_raw(d) as nat);
    lemma_lagrange(n.0, n.1, n.2, d.0, d.1, d.2);
    lemma_square_nonneg(n.0 * d.1 - n.1 * d.0);
    lemma_square_nonneg(n.1 * d.2 - n.2 * d.1);
    lemma_square_nonneg(n.2 * d.0 - n.0 * d.2);
    let a = norm_raw(n);
    let b = norm_raw(d);
    assert(-((a + 1) * (b + 1)) < dot_raw(n, d) < (a + 1) * (b + 1)) by (nonlinear_arith)
        requires
            dot_raw(n, d) * dot_raw(n, d) <= norm2_raw(n) * norm2_raw(d),
            norm2_raw(n) < (a + 1) * (a + 1),
            norm2_raw(d) < (b + 1) * (b + 1),
            norm2_raw(n) >= 0,
            norm2_raw(d) >= 0,
            a >= 0,
            b >= 0,
    ;
}

/// The triangle inequality of the lattice norm, with one unit of
/// rounding: a point is no farther out than another plus their distance.
pub proof fn lemma_norm_triangle(p: (int, int, int), q: (int, int, int))
    ensures
        norm_raw(p) <= norm_raw(q) + norm_raw(sub_v(p, q)) + 1,
{
    let d = sub_v(p, q);
    lemma_norm2_nonneg(p);
    lemma_norm2_nonneg(q);
    lemma_norm2_nonneg(d);
    lemma_isq(norm2_raw(p) as nat);
    lemma_isq(norm2_raw(q) as nat);
    lemma_isq(norm2_raw(d) as nat);
    let a = norm_raw(q);
    let b = norm_raw(d);
    // Cauchy-Schwarz by the Lagrange identity
    lemma_lagrange(q.0, q.1, q.2, d.0, d.1, d.2);
    lemma_square_nonneg(q.0 * d.1 - q.1 * d.0);
    lemma_square_nonneg(q.1 * d.2 - q.2 * d.1);
    lemma_square_nonneg(q.2 * d.0 - q.0 * d.2);
    assert(dot_raw(q, d) * dot_raw(q, d) <= norm2_raw(q) * norm2_raw(d));
    // the cross term is bounded by the product of the rounded norms
    assert(-((a + 1) * (b + 1)) < dot_raw(q, d) < (a + 1) * (b + 1)) by (nonlinear_arith)
        requires
            dot_raw(q, d) * dot_raw(q, d) <= norm2_raw(q) * norm2_raw(d),
            norm2_raw(q) < (a + 1) * (a + 1),
            norm2_raw(d) < (b + 1) * (b + 1),
            norm2_raw(q) >= 0,
            norm2_raw(d) >= 0,
            a >= 0,
            b >= 0,
    ;
    // expand the squared norm of the sum
    assert(norm2_raw(p) == norm2_raw(q) + 2 * dot_raw(q, d) + norm2_raw(d)) by (nonlinear_arith)
        requires
            p.0 == q.0 + d.0,
            p.1 == q.1 + d.1,
            p.2 == q.2 + d.2,
            norm2_raw(p) == p.0 * p.0 + p.1 * p.1 + p.2 * p.2,
            norm2_raw(q) == q.0 * q.0 + q.1 * q.1 + q.2 * q.2,
            norm2_raw(d) == d.0 * d.0 + d.1 * d.1 + d.2 * d.2,
            dot_raw(q, d) == q.0 * d.0 + q.1 * d.1 + q.2 * d.2,
    ;
    assert(norm2_raw(p) < (a + b + 2) * (a + b + 2)) by (nonlinear_arith)
        requires
            norm2_raw(p) == norm2_raw(q) + 2 * dot_raw(q, d) + norm2_raw(d),
            norm2_raw(q) < (a + 1) * (a + 1),
            norm2_raw(d) < (b + 1) * (b + 1),
            -((a + 1) * (b + 1)) < dot_raw(q, d) < (a + 1) * (b + 1),
            a >= 0,
            b >= 0,
    ;
    lemma_isq_le(norm2_raw(p) as nat, (a + b + 1) as nat);
}

impl Vec3 {
    pub fn new(x: i64, y: i64, z: i64) -> (v: Self)
        ensures
            v@ == (x as int, y as int, z as int),
    {
        Self { x, y, z }
    }

    pub fn zero() -> (v: Self)
        ensures
            v@ == (0int, 0int, 0int),
    {
        Self::new(0, 0, 0)
    }

    pub fn up() -> (v: Self)
        ensures
            v@ == (0int, FP as int, 0int),
    {
        Self::new(0, FP, 0)
    }

    pub fn down() -> (v: Self)
        ensures
            v@ == (0int, -FP as int, 0int),
    {
        Self::new(0, -FP, 0)
    }

    pub fn left() -> (v: Self)
        ensures
            v@ == (-FP as int, 0int, 0int),
    {
        Self::new(-FP, 0, 0)
    }

    pub fn right() -> (v: Self)
        ensures
            v@ == (FP as int, 0int, 0int),
    {
        Self::new(FP, 0, 0)
    }

    pub fn forward() -> (v: Self)
        ensures
            v@ == (0int, 0int, FP as int),
    {
        Self::new(0, 0, FP)
    }

    pub fn backward() -> (v: Self)
        ensures
            v@ == (0int, 0int, -FP as int),
    {
        Self::new(0, 0, -FP)
    }

    pub fn set(self, x: i64, y: i64, z: i64) -> (v: Self)
        ensures
            v@ == (x as int, y as int, z as int),
    {
        Self { x, y, z }
    }

    pub fn cross(a: &Self, b: &Self) -> (v: Vec3)
        requires
            in_box(a@, 0x4000000000),
            in_box(b@, 0x4000000000),
        ensures
            v@ == cross_v(a@, b@),
    {
        proof {
            lemma_mul_bound(a.y as int, b.z as int, 0x4000000000, 0x4000000000);
            lemma_mul_bound(a.z as int, b.y as int, 0x4000000000, 0x4000000000);
            lemma_mul_bound(a.z as int, b.x as int, 0x4000000000, 0x4000000000);
            lemma_mul_bound(a.x as int, b.z as int, 0x4000000000, 0x4000000000);
            lemma_mul_bound(a.x as int, b.y as int, 0x4000000000, 0x4000000000);
            lemma_mul_bound(a.y as int, b.x as int, 0x4000000000, 0x4000000000);
        }
        let cx = (a.y as i128) * (b.z as i128) - (a.z as i128) * (b.y as i128);
        let cy = (a.z as i128) * (b.x as i128) - (a.x as i128) * (b.z as i128);
        let cz = (a.x as i128) * (b.y as i128) - (a.y as i128) * (b.x as i128);
        let x = div_t(cx, FP as i128);
        let y = div_t(cy, FP as i128);
        let z = div_t(cz, FP as i128);
        proof {
            lemma_tdiv_bound(cx as int, FP as int, 0x2000000000000000);
            lemma_tdiv_bound(cy as int, FP as int, 0x2000000000000000);
            lemma_tdiv_bound(cz as int, FP as int, 0x2000000000000000);
        }
        Vec3 { x: x as i64, y: y as i64, z: z as i64 }
    }

    /// `self + scale * other / FP`.
    pub fn add(self, scale: i64, other: &Vec3) -> (v: Self)
        requires
            in_box(self@, 0x2000000000000000),
            -0x10000000000000000000 <= scale * other.x <= 0x10000000000000000000,
            -0x10000000000000000000 <= scale * other.y <= 0x10000000000000000000,
            -0x10000000000000000000 <= scale * other.z <= 0x10000000000000000000,
        ensures
            v@ == add_scaled(self@, scale as int, other@),
    {
        let dx = div_t((scale as i128) * (other.x as i128), FP as i128);
        let dy = div_t((scale as i128) * (other.y as i128), FP as i128);
        let dz = div_t((scale as i128) * (other.z as i128), FP as i128);
        proof {
            lemma_tdiv_bound((scale * other.x) as int, FP as int, 0x1000000000000000);
            lemma_tdiv_bound((scale * other.y) as int, FP as int, 0x1000000000000000);
            lemma_tdiv_bound((scale * other.z) as int, FP as int, 0x1000000000000000);
        }
        Self { x: self.x + dx as i64, y: self.y + dy as i64, z: self.z + dz as i64 }
    }

    /// Componentwise difference, `self - other` on raw coordinates.
    pub fn diff(&self, other: &Vec3) -> (v: Vec3)
        requires
            in_box(self@, 0x2000000000000000),
            in_box(other@, 0x2000000000000000),
        ensures
            v@ == sub_v(self@, other@),
    {
        Vec3 { x: self.x - other.x, y: self.y - other.y, z: self.z - other.z }
    }

    /// Scale by a fixed-point factor.
    pub fn scale(self, scale: i64) -> (v: Self)
        requires
            -0x10000000000000000000 <= self.x * scale <= 0x10000000000000000000,
            -0x10000000000000000000 <= self.y * scale <= 0x10000000000000000000,
            -0x10000000000000000000 <= self.z * scale <= 0x10000000000000000000,
        ensures
            v@ == (
                tdiv(self.x * scale, FP as int),
                tdiv(self.y * scale, FP as int),
                tdiv(self.z * scale, FP as int),
            ),
    {
        let x = div_t((self.x as i128) * (scale as i128), FP as i128);
        let y = div_t((self.y as i128) * (scale as i128), FP as i128);
        let z = div_t((self.z as i128) * (scale as i128), FP as i128);
        proof {
            lemma_tdiv_bound((self.x * scale) as int, FP as int, 0x1000000000000000);
            lemma_tdiv_bound((self.y * scale) as int, FP as int, 0x1000000000000000);
            lemma_tdiv_bound((self.z * scale) as int, FP as int, 0x1000000000000000);
        }
        Self { x: x as i64, y: y as i64, z: z as i64 }
    }

    /// Componentwise product with another vector of fixed-point factors.
    pub fn scale_vec(self, scale: &Vec3) -> (v: Self)
        requires
            -0x10000000000000000000 <= self.x * scale.x <= 0x10000000000000000000,
            -0x10000000000000000000 <= self.y * scale.y <= 0x10000000000000000000,
            -0x10000000000000000000 <= self.z * scale.z <= 0x10000000000000000000,
        ensures
            v@ == (
                tdiv(self.x * scale.x, FP as int),
                tdiv(self.y * scale.y, FP as int),
                tdiv(self.z * scale.z, FP as int),
            ),
    {
        let x = div_t((self.x as i128) * (scale.x as i128), FP as i128);
        let y = div_t((self.y as i128) * (scale.y as i128), FP as i128);
        let z = div_t((self.z as i128) * (scale.z as i128), FP as i128);
        proof {
            lemma_tdiv_bound((self.x * scale.x) as int, FP as int, 0x1000000000000000);
            lemma_tdiv_bound((self.y * scale.y) as int, FP as int, 0x1000000000000000);
            lemma_tdiv_bound((self.z * scale.z) as int, FP as int, 0x1000000000000000);
        }
        Self { x: x as i64, y: y as i64, z: z as i64 }
    }

    /// Fixed-point dot product.
    pub fn dot(&self, other: &Vec3) -> (d: i64)
        requires
            in_box(self@, 0x4000000000),
            in_box(other@, 0x4000000000),
        ensures
            d == tdiv(dot_raw(self@, other@), FP as int),
    {
        proof {
            lemma_mul_bound(self.x as int, other.x as int, 0x4000000000, 0x4000000000);
            lemma_mul_bound(self.y as int, other.y as int, 0x4000000000, 0x4000000000);
            lemma_mul_bound(self.z as int, other.z as int, 0x4000000000, 0x4000000000);
        }
        let s = (self.x as i128) * (other.x as i128) + (self.y as i128) * (other.y as i128)
            + (self.z as i128) * (other.z as i128);
        let d = div_t(s, FP as i128);
        proof {
            lemma_tdiv_bound(s as int, FP as int, 0x3000000000000000);
        }
        d as i64
    }

    /// Fixed-point squared norm.
    pub fn norm2(&self) -> (d: i64)
        requires
            in_box(self@, V_MAX as int),
        ensures
            d == tdiv(norm2_raw(self@), FP as int),
            d >= 0,
    {
        proof {
            lemma_norm2_nonneg(self@);
        }
        self.dot(self)
    }

    /// Norm, exact up to the integer square root.
    pub fn norm(&self) -> (d: i64)
        requires
            in_box(self@, V_MAX as int),
        ensures
            d == norm_raw(self@),
            d >= 0,
    {
        proof {
            lemma_mul_bound(self.x as int, self.x as int, V_MAX as int, V_MAX as int);
            lemma_mul_bound(self.y as int, self.y as int, V_MAX as int, V_MAX as int);
            lemma_mul_bound(self.z as int, self.z as int, V_MAX as int, V_MAX as int);
            lemma_norm2_nonneg(self@);
        }
        let s = (self.x as i128) * (self.x as i128) + (self.y as i128) * (self.y as i128)
            + (self.z as i128) * (self.z as i128);
        let r = isqrt(s as u128);
        proof {
            assert((V_MAX as int) * (V_MAX as int) == 0x4000000000000000000) by (nonlinear_arith)
                requires
                    V_MAX == 0x2000000000,
            ;
            assert((s as nat) <= 0xc000000000000000000);
            assert((0x3FFFFFFFFFnat + 1) * (0x3FFFFFFFFFnat + 1) == 0x10000000000000000000) by (nonlinear_arith);
            lemma_isq_le(s as nat, 0x3FFFFFFFFF);
        }
        r as i64
    }

    /// Normalize to a unit vector at scale `FP`; the zero vector is kept.
    pub fn normalize(self) -> (v: Self)
        requires
            in_box(self@, 0x4000000000000000),
        ensures
            v@ == normalize_v(self@),
            in_box(v@, FP as int) || self@ == (0int, 0int, 0int),
    {
        proof {
            lemma_mul_bound(self.x as int, self.x as int, 0x4000000000000000, 0x4000000000000000);
            lemma_mul_bound(self.y as int, self.y as int, 0x4000000000000000, 0x4000000000000000);
            lemma_mul_bound(self.z as int, self.z as int, 0x4000000000000000, 0x4000000000000000);
            lemma_norm2_nonneg(self@);
        }
        let s = (self.x as i128) * (self.x as i128) + (self.y as i128) * (self.y as i128)
            + (self.z as i128) * (self.z as i128);
        if s == 0 {
            proof {
                lemma_norm2_zero(self@);
            }
            return self;
        }
        let n = isqrt(s as u128);
        proof {
            lemma_isq_pos(s as nat);
            assert((0x7FFFFFFFFFFFFFFFnat + 1) * (0x7FFFFFFFFFFFFFFFnat + 1)
                == 0x40000000000000000000000000000000) by (nonlinear_arith);
            lemma_isq_le(s as nat, 0x7FFFFFFFFFFFFFFF);
            lemma_norm_dominates(self@);
            lemma_normalized_small(self@);
            lemma_mul_bound(self.x as int, FP as int, 0x4000000000000000, FP as int);
            lemma_mul_bound(self.y as int, FP as int, 0x4000000000000000, FP as int);
            lemma_mul_bound(self.z as int, FP as int, 0x4000000000000000, FP as int);
        }
        let x = div_t((self.x as i128) * (FP as i128), n as i128);
        let y = div_t((self.y as i128) * (FP as i128), n as i128);
        let z = div_t((self.z as i128) * (FP as i128), n as i128);
        Self { x: x as i64, y: y as i64, z: z as i64 }
    }

    /// Fixed-point squared distance to another point.
    pub fn dist2(&self, other: &Vec3) -> (d: i64)
        requires
            in_box(self@, V_MAX as int),
            in_box(other@, V_MAX as int),
        ensures
            d == tdiv(norm2_raw(sub_v(other@, self@)), FP as int),
            d >= 0,
    {
        let dx = other.x - self.x;
        let dy = other.y - self.y;
        let dz = other.z - self.z;
        proof {
            lemma_mul_bound(dx as int, dx as int, 2 * V_MAX as int, 2 * V_MAX as int);
            lemma_mul_bound(dy as int, dy as int, 2 * V_MAX as int, 2 * V_MAX as int);
            lemma_mul_bound(dz as int, dz as int, 2 * V_MAX as int, 2 * V_MAX as int);
            lemma_norm2_nonneg(sub_v(other@, self@));
        }
        let s = (dx as i128) * (dx as i128) + (dy as i128) * (dy as i128) + (dz as i128)
            * (dz as i128);
        let d = div_t(s, FP as i128);
        proof {
            lemma_tdiv_bound(s as int, FP as int, 0x3000000000000000);
        }
        d as i64
    }

    /// Distance to another point, exact up to the integer square root.
    pub fn dist(&self, other: &Vec3) -> (d: i64)
        requires
            in_box(self@, V_MAX as int),
            in_box(other@, V_MAX as int),
        ensures
            d == norm_raw(sub_v(other@, self@)),
            d >= 0,
    {
        let dx = other.x - self.x;
        let dy = other.y - self.y;
        let dz = other.z - self.z;
        proof {
            lemma_mul_bound(dx as int, dx as int, 2 * V_MAX as int, 2 * V_MAX as int);
            lemma_mul_bound(dy as int, dy as int, 2 * V_MAX as int, 2 * V_MAX as int);
            lemma_mul_bound(dz as int, dz as int, 2 * V_MAX as int, 2 * V_MAX as int);
            lemma_norm2_nonneg(sub_v(other@, self@));
        }
        let s = (dx as i128) * (dx as i128) + (dy as i128) * (dy as i128) + (dz as i128)
            * (dz as i128);
        let r = isqrt(s as u128);
        proof {
            assert((2 * V_MAX as int) * (2 * V_MAX as int) == 0x10000000000000000000) by (nonlinear_arith)
                requires
                    V_MAX == 0x2000000000,
            ;
            assert((s as nat) <= 0x30000000000000000000);
            assert((0x7FFFFFFFFFnat + 1) * (0x7FFFFFFFFFnat + 1) == 0x40000000000000000000) by (nonlinear_arith);
            lemma_isq_le(s as nat, 0x7FFFFFFFFF);
        }
        r as i64
    }
}

/// The right-hand rule on the lattice: the first two identity axes
/// cross to the third.
pub proof fn lemma_cross_right_up(a: (int, int, int), b: (int, int, int))
    requires
        a == (FP as int, 0int, 0int),
        b == (0int, FP as int, 0int),
    ensures
        cross_v(a, b) == (0int, 0int, FP as int),
{
    assert(a.0 * b.1 == 0x100000000int && a.1 * b.2 == 0 && a.2 * b.1 == 0 && a.2 * b.0 == 0
        && a.0 * b.2 == 0 && a.1 * b.0 == 0) by (nonlinear_arith)
        requires
            a.0 == 65536,
            b.1 == 65536,
            a.1 == 0,
            a.2 == 0,
            b.0 == 0,
            b.2 == 0,
    ;
    assert(tdiv(0x100000000, FP as int) == FP as int);
    assert(tdiv(0, FP as int) == 0);
}

#[derive(Clone, Copy, Debug)]
pub struct Basis {
    pub axes: (Vec3, Vec3, Vec3),
}

#[derive(Clone, Copy, Debug)]
pub struct Frame {
    pub origin: Vec3,
    pub basis: Basis,
}

#[derive(Clone, Copy, Debug)]
pub struct Ray {
    pub origin: Vec3,
    pub direction: Vec3,
}

/// A basis maps local coordinates to the span of its axes.
pub open spec fn basis_project(b: Basis, local: (int, int, int)) -> (int, int, int) {
    add_scaled(
        add_scaled(add_scaled((0int, 0int, 0int), local.0, b.axes.0@), local.1, b.axes.1@),
        local.2,
        b.axes.2@,
    )
}

/// Per-axis unprojection: the component of `g` along each axis, divided by
/// the axis' squared norm.
pub open spec fn basis_unproject(b: Basis, g: (int, int, int)) -> (int, int, int) {
    (
        tdiv(dot_raw(g, b.axes.0@) * FP, norm2_raw(b.axes.0@)),
        tdiv(dot_raw(g, b.axes.1@) * FP, norm2_raw(b.axes.1@)),
        tdiv(dot_raw(g, b.axes.2@) * FP, norm2_raw(b.axes.2@)),
    )
}

/// The axes' coordinates fit the projection arithmetic.
pub open spec fn axes_bounded(b: Basis) -> bool {
    &&& in_box(b.axes.0@, V_MAX as int)
    &&& in_box(b.axes.1@, V_MAX as int)
    &&& in_box(b.axes.2@, V_MAX as int)
}

/// The axes a basis must have for unprojection: bounded and non-zero.
pub open spec fn basis_wf(b: Basis) -> bool {
    &&& axes_bounded(b)
    &&& norm2_raw(b.axes.0@) > 0
    &&& norm2_raw(b.axes.1@) > 0
    &&& norm2_raw(b.axes.2@) > 0
}

/// The component of `g` along an axis, over the axis' squared norm, is
/// bounded by the largest coordinate of `g`: on integers `|a| <= a * a`.
proof fn lemma_unproject_bound(g: (int, int, int), a: (int, int, int), m: int)
    requires
        in_box(g, m),
        0 <= m,
        norm2_raw(a) > 0,
    ensures
        -(m * norm2_raw(a)) <= dot_raw(g, a) <= m * norm2_raw(a),
{
    assert(-(m * norm2_raw(a)) <= dot_raw(g, a) <= m * norm2_raw(a)) by (nonlinear_arith)
        requires
            in_box(g, m),
            0 <= m,
            dot_raw(g, a) == g.0 * a.0 + g.1 * a.1 + g.2 * a.2,
            norm2_raw(a) == a.0 * a.0 + a.1 * a.1 + a.2 * a.2,
    ;
}

impl Basis {
    pub fn new(i: Vec3, j: Vec3, k: Vec3) -> (b: Self)
        ensures
            b.axes.0 == i && b.axes.1 == j && b.axes.2 == k,
    {
        Self { axes: (i, j, k) }
    }

    pub fn identity() -> (b: Self)
        ensures
            b.axes.0@ == (FP as int, 0int, 0int),
            b.axes.1@ == (0int, FP as int, 0int),
            b.axes.2@ == (0int, 0int, FP as int),
    {
        Self::new(Vec3::right(), Vec3::up(), Vec3::forward())
    }

    pub fn into_frame(self, origin: Vec3) -> (f: Frame)
        ensures
            f.origin == origin && f.basis == self,
    {
        Frame { origin, basis: self }
    }

    pub fn project(&self, local: &Vec3) -> (v: Vec3)
        requires
            axes_bounded(*self),
            in_box(local@, V_MAX as int),
        ensures
            v@ == basis_project(*self, local@),
            in_box(v@, 0x1000000000000000),
    {
        proof {
            assert((V_MAX as int) * (V_MAX as int) == 0x4000000000000000000) by (nonlinear_arith)
                requires
                    V_MAX == 0x2000000000,
            ;
            lemma_mul_bound(local.x as int, self.axes.0.x as int, V_MAX as int, V_MAX as int);
            lemma_mul_bound(local.x as int, self.axes.0.y as int, V_MAX as int, V_MAX as int);
            lemma_mul_bound(local.x as int, self.axes.0.z as int, V_MAX as int, V_MAX as int);
            lemma_mul_bound(local.y as int, self.axes.1.x as int, V_MAX as int, V_MAX as int);
            lemma_mul_bound(local.y as int, self.axes.1.y as int, V_MAX as int, V_MAX as int);
            lemma_mul_bound(local.y as int, self.axes.1.z as int, V_MAX as int, V_MAX as int);
            lemma_mul_bound(local.z as int, self.axes.2.x as int, V_MAX as int, V_MAX as int);
            lemma_mul_bound(local.z as int, self.axes.2.y as int, V_MAX as int, V_MAX as int);
            lemma_mul_bound(local.z as int, self.axes.2.z as int, V_MAX as int, V_MAX as int);
            lemma_tdiv_bound((local.x * self.axes.0.x) as int, FP as int, 0x400000000000000);
            lemma_tdiv_bound((local.x * self.axes.0.y) as int, FP as int, 0x400000000000000);
            lemma_tdiv_bound((local.x * self.axes.0.z) as int, FP as int, 0x400000000000000);
            lemma_tdiv_bound((local.y * self.axes.1.x) as int, FP as int, 0x400000000000000);
            lemma_tdiv_bound((local.y * self.axes.1.y) as int, FP as int, 0x400000000000000);
            lemma_tdiv_bound((local.y * self.axes.1.z) as int, FP as int, 0x400000000000000);
            lemma_tdiv_bound((local.z * self.axes.2.x) as int, FP as int, 0x400000000000000);
            lemma_tdiv_bound((local.z * self.axes.2.y) as int, FP as int, 0x400000000000000);
            lemma_tdiv_bound((local.z * self.axes.2.z) as int, FP as int, 0x400000000000000);
        }
        Vec3::zero().add(local.x, &self.axes.0).add(local.y, &self.axes.1).add(
            local.z,
            &self.axes.2,
        )
    }

    pub fn unproject(&self, global: &Vec3) -> (v: Vec3)
        requires
            basis_wf(*self),
            in_box(global@, V_MAX as int),
        ensures
            v@ == basis_unproject(*self, global@),
    {
        proof {
            let g = global@;
            lemma_unproject_bound(g, self.axes.0@, V_MAX as int);
            lemma_unproject_bound(g, self.axes.1@, V_MAX as int);
            lemma_unproject_bound(g, self.axes.2@, V_MAX as int);
            lemma_mul_bound(g.0, self.axes.0.x as int, V_MAX as int, V_MAX as int);
            lemma_mul_bound(g.1, self.axes.0.y as int, V_MAX as int, V_MAX as int);
            lemma_mul_bound(g.2, self.axes.0.z as int, V_MAX as int, V_MAX as int);
            lemma_mul_bound(g.0, self.axes.1.x as int, V_MAX as int, V_MAX as int);
            lemma_mul_bound(g.1, self.axes.1.y as int, V_MAX as int, V_MAX as int);
            lemma_mul_bound(g.2, self.axes.1.z as int, V_MAX as int, V_MAX as int);
            lemma_mul_bound(g.0, self.axes.2.x as int, V_MAX as int, V_MAX as int);
            lemma_mul_bound(g.1, self.axes.2.y as int, V_MAX as int, V_MAX as int);
            lemma_mul_bound(g.2, self.axes.2.z as int, V_MAX as int, V_MAX as int);
            lemma_mul_bound(self.axes.0.x as int, self.axes.0.x as int, V_MAX as int, V_MAX as int);
            lemma_mul_bound(self.axes.0.y as int, self.axes.0.y as int, V_MAX as int, V_MAX as int);
            lemma_mul_bound(self.axes.0.z as int, self.axes.0.z as int, V_MAX as int, V_MAX as int);
            lemma_mul_bound(self.axes.1.x as int, self.axes.1.x as int, V_MAX as int, V_MAX as int);
            lemma_mul_bound(self.axes.1.y as int, self.axes.1.y as int, V_MAX as int, V_MAX as int);
            lemma_mul_bound(self.axes.1.z as int, self.axes.1.z as int, V_MAX as int, V_MAX as int);
            lemma_mul_bound(self.axes.2.x as int, self.axes.2.x as int, V_MAX as int, V_MAX as int);
            lemma_mul_bound(self.axes.2.y as int, self.axes.2.y as int, V_MAX as int, V_MAX as int);
            lemma_mul_bound(self.axes.2.z as int, self.axes.2.z as int, V_MAX as int, V_MAX as int);
        }
        let dx = (global.x as i128) * (self.axes.0.x as i128) + (global.y as i128)
            * (self.axes.0.y as i128) + (global.z as i128) * (self.axes.0.z as i128);
        let nx = (self.axes.0.x as i128) * (self.axes.0.x as i128) + (self.axes.0.y as i128)
            * (self.axes.0.y as i128) + (self.axes.0.z as i128) * (self.axes.0.z as i128);
        let dy = (global.x as i128) * (self.axes.1.x as i128) + (global.y as i128)
            * (self.axes.1.y as i128) + (global.z as i128) * (self.axes.1.z as i128);
        let ny = (self.axes.1.x as i128) * (self.axes.1.x as i128) + (self.axes.1.y as i128)
            * (self.axes.1.y as i128) + (self.axes.1.z as i128) * (self.axes.1.z as i128);
        let dz = (global.x as i128) * (self.axes.2.x as i128) + (global.y as i128)
            * (self.axes.2.y as i128) + (global.z as i128) * (self.axes.2.z as i128);
        let nz = (self.axes.2.x as i128) * (self.axes.2.x as i128) + (self.axes.2.y as i128)
            * (self.axes.2.y as i128) + (self.axes.2.z as i128) * (self.axes.2.z as i128);
        let x = div_t(dx * (FP as i128), nx);
        let y = div_t(dy * (FP as i128), ny);
        let z = div_t(dz * (FP as i128), nz);
        proof {
            let n0 = norm2_raw(self.axes.0@);
            let n1 = norm2_raw(self.axes.1@);
            let n2 = norm2_raw(self.axes.2@);
            assert(-(n0 * 0x20000000000000) <= (dx as int) * (FP as int) <= n0
                * 0x20000000000000) by (nonlinear_arith)
                requires
                    -(0x2000000000 * n0) <= dx as int <= 0x2000000000 * n0,
                    n0 >= 0,
                    FP == 65536,
            ;
            assert(-(n1 * 0x20000000000000) <= (dy as int) * (FP as int) <= n1
                * 0x20000000000000) by (nonlinear_arith)
                requires
                    -(0x2000000000 * n1) <= dy as int <= 0x2000000000 * n1,
                    n1 >= 0,
                    FP == 65536,
            ;
            assert(-(n2 * 0x20000000000000) <= (dz as int) * (FP as int) <= n2
                * 0x20000000000000) by (nonlinear_arith)
                requires
                    -(0x2000000000 * n2) <= dz as int <= 0x2000000000 * n2,
                    n2 >= 0,
                    FP == 65536,
            ;
            lemma_tdiv_bound((dx as int) * (FP as int), n0, 0x20000000000000);
            lemma_tdiv_bound((dy as int) * (FP as int), n1, 0x20000000000000);
            lemma_tdiv_bound((dz as int) * (FP as int), n2, 0x20000000000000);
        }
        Vec3 { x: x as i64, y: y as i64, z: z as i64 }
    }
}

impl Frame {
    pub fn new(origin: Vec3, i: Vec3, j: Vec3, k: Vec3) -> (f: Self)
        ensures
            f.origin == origin,
            f.basis.axes.0 == i && f.basis.axes.1 == j && f.basis.axes.2 == k,
    {
        Self { origin, basis: Basis::new(i, j, k) }
    }

    pub fn identity() -> (f: Self)
        ensures
            f.origin@ == (0int, 0int, 0int),
            f.basis.axes.0@ == (FP as int, 0int, 0int),
            f.basis.axes.1@ == (0int, FP as int, 0int),
            f.basis.axes.2@ == (0int, 0int, FP as int),
    {
        Self::new(Vec3::zero(), Vec3::right(), Vec3::up(), Vec3::forward())
    }

    /// Move the frame's origin by a world offset.
    pub fn translate(self, by: &Vec3) -> (f: Self)
        requires
            in_box(self.origin@, 0x2000000000000000),
            in_box(by@, 0x100000000000000),
        ensures
            f.origin@ == add_scaled(self.origin@, FP as int, by@),
            f.basis == self.basis,
    {
        proof {
            lemma_mul_bound(FP as int, by.x as int, FP as int, 0x100000000000000);
            lemma_mul_bound(FP as int, by.y as int, FP as int, 0x100000000000000);
            lemma_mul_bound(FP as int, by.z as int, FP as int, 0x100000000000000);
        }
        Self { origin: self.origin.add(FP, by), basis: self.basis }
    }

    pub fn project_vec(&self, local: &Vec3) -> (v: Vec3)
        requires
            axes_bounded(self.basis),
            in_box(local@, V_MAX as int),
        ensures
            v@ == basis_project(self.basis, local@),
            in_box(v@, 0x1000000000000000),
    {
        self.basis.project(local)
    }

    pub fn unproject_vec(&self, global: &Vec3) -> (v: Vec3)
        requires
            basis_wf(self.basis),
            in_box(global@, V_MAX as int),
        ensures
            v@ == basis_unproject(self.basis, global@),
    {
        self.basis.unproject(global)
    }

    pub fn project_point(&self, local: &Vec3) -> (v: Vec3)
        requires
            axes_bounded(self.basis),
            in_box(local@, V_MAX as int),
            in_box(self.origin@, 0x100000000000000),
        ensures
            v@ == add_scaled(basis_project(self.basis, local@), FP as int, self.origin@),
            in_box(v@, 0x2000000000000000),
    {
        proof {
            lemma_mul_bound(FP as int, self.origin.x as int, FP as int, 0x100000000000000);
            lemma_mul_bound(FP as int, self.origin.y as int, FP as int, 0x100000000000000);
            lemma_mul_bound(FP as int, self.origin.z as int, FP as int, 0x100000000000000);
            lemma_tdiv_bound(FP * (self.origin.x as int), FP as int, 0x100000000000000);
            lemma_tdiv_bound(FP * (self.origin.y as int), FP as int, 0x100000000000000);
            lemma_tdiv_bound(FP * (self.origin.z as int), FP as int, 0x100000000000000);
        }
        self.basis.project(local).add(FP, &self.origin)
    }

    pub fn unproject_point(&self, global: &Vec3) -> (v: Vec3)
        requires
            basis_wf(self.basis),
            in_box(global@, 0x1000000000),
            in_box(self.origin@, 0x1000000000),
        ensures
            v@ == basis_unproject(self.basis, sub_v(global@, self.origin@)),
    {
        self.basis.unproject(&global.diff(&self.origin))
    }
}

impl Ray {
    pub fn new(origin: Vec3, direction: Vec3) -> (r: Self)
        ensures
            r.origin == origin && r.direction == direction,
    {
        Self { origin, direction }
    }
}

} // verus!
