//! The signed-distance-field algebra: primitive surfaces, CSG and
//! transform combinators, and their exact fixed-point semantics.
//!
//! Every node's distance is clamped into `[-D_MAX, D_MAX]`; clamping can
//! only understate a distance, which sphere tracing tolerates.  A tree is
//! queried through `distance`, `epsilon`, `material` and `normal`, each of
//! which returns exactly the value of the matching specification
//! function.

use vstd::prelude::*;
use crate::linear::{Vec3, in_box, dot_raw, norm2_raw, norm_raw, sub_v, normalize_v, cross_v, add_scaled};
use crate::math::{tdiv, clamp_d, isq, smin, smax, FP, D_MAX};
use crate::math::{
    div_t,
    isqrt,
    clamp_dist,
    min_i64,
    max_i64,
    lemma_isq_le,
    lemma_tdiv_bound,
};
use crate::mat::Material;

verus! {

/// Box the distance functions accept around the origin.
pub const P_IN: i64 = 0x80000000000000;

/// Box the normal functions accept: room is left for the gradient probes.
pub const P_NRM: i64 = 0x7fffc000000000;

/// Box a rescaled point is clamped into before it is handed to the child.
pub const P_SC: i64 = 0x7fff0000000000;

/// Largest admissible total translation along any path of a tree.
pub const SHIFT_MAX: i64 = 0x8000000000;

/// Largest magnitude of a primitive's parameters.
pub const G_MAX: i64 = 0x2000000000;

/// Largest admissible scale factor (fixed-point, scale `FP`).
pub const K_MAX: i64 = 0x4000000;

/// Thickness of a polygonal face: a tenth of a world unit.
pub const FACE_THICKNESS: i64 = 6553;

/// Largest admissible number of vertices of a polygonal face.
pub const FACE_MAX_VERTS: usize = 0x100000;

/// A ball of the given radius about the origin.
#[derive(Clone, Copy, PartialEq, Eq, Structural, Debug)]
pub struct Sphere {
    pub radius: i64,
}

/// The half-space `normal . p <= 0`; `normal` is expected at unit scale.
#[derive(Clone, Copy, PartialEq, Eq, Structural, Debug)]
pub struct Plane {
    pub normal: Vec3,
}

/// A flat disk: the sphere of the given radius cut by the plane.
#[derive(Clone, Copy, PartialEq, Eq, Structural, Debug)]
pub struct Disk {
    pub normal: Vec3,
    pub radius: i64,
}

/// The empty field: its distance is `D_MAX` everywhere.
#[derive(Clone, Copy, PartialEq, Eq, Structural, Debug)]
pub struct EmptySDF {}

/// A finite, thick, convex polygonal slab.  `normal` and `centroid` are
/// derived from the vertices at construction; `epsilon` is a thousandth
/// of the shortest edge.
#[derive(Clone, Debug)]
pub struct PolyFace {
    pub normal: Vec3,
    pub centroid: Vec3,
    pub vertices: Vec<Vec3>,
    pub epsilon: i64,
}

/// A signed-distance tree.
pub enum Sdf {
    Sphere(Sphere),
    Plane(Plane),
    Disk(Disk),
    Face(PolyFace),
    Empty(EmptySDF),
    Union(Box<Sdf>, Box<Sdf>),
    SmoothUnionPoly(Box<Sdf>, Box<Sdf>, i64),
    Intersection(Box<Sdf>, Box<Sdf>),
    Difference(Box<Sdf>, Box<Sdf>),
    Negation(Box<Sdf>),
    Translate(Box<Sdf>, Vec3),
    Scale(Box<Sdf>, i64),
    Rotate(Box<Sdf>, Vec3, i64, i64),
    Shaded(Box<Sdf>, Material),
}

/// Largest coordinate magnitude of a triple.
pub open spec fn amax3(t: (int, int, int)) -> int {
    smax(smax(if t.0 >= 0 { t.0 } else { -t.0 }, if t.1 >= 0 { t.1 } else { -t.1 }),
        if t.2 >= 0 { t.2 } else { -t.2 })
}

/// Total translation offset along the deepest path of the tree.
pub open spec fn max_shift(s: Sdf) -> int
    decreases s,
{
    match s {
        Sdf::Sphere(_) => 0,
        Sdf::Plane(_) => 0,
        Sdf::Disk(_) => 0,
        Sdf::Face(_) => 0,
        Sdf::Empty(_) => 0,
        Sdf::Union(a, b) => smax(max_shift(*a), max_shift(*b)),
        Sdf::SmoothUnionPoly(a, b, _) => smax(max_shift(*a), max_shift(*b)),
        Sdf::Intersection(a, b) => smax(max_shift(*a), max_shift(*b)),
        Sdf::Difference(a, b) => smax(max_shift(*a), max_shift(*b)),
        Sdf::Negation(a) => max_shift(*a),
        Sdf::Translate(a, t) => amax3(t@) + max_shift(*a),
        Sdf::Scale(a, _) => max_shift(*a),
        Sdf::Rotate(a, _, _, _) => max_shift(*a),
        Sdf::Shaded(a, _) => max_shift(*a),
    }
}

/// Well-formedness of a tree: parameters bounded, scale factors positive,
/// and the translation budget kept.
pub open spec fn wf(s: Sdf) -> bool
    decreases s,
{
    match s {
        Sdf::Sphere(sp) => 0 < sp.radius <= G_MAX,
        Sdf::Plane(pl) => in_box(pl.normal@, G_MAX as int),
        Sdf::Disk(d) => in_box(d.normal@, G_MAX as int) && 0 < d.radius <= G_MAX,
        Sdf::Face(f) => face_wf(f),
        Sdf::Empty(_) => true,
        Sdf::Union(a, b) => wf(*a) && wf(*b),
        Sdf::SmoothUnionPoly(a, b, k) => wf(*a) && wf(*b) && 1 <= k <= G_MAX && 0 <= eps_of(*a)
            <= G_MAX && 0 <= eps_of(*b) <= G_MAX,
        Sdf::Intersection(a, b) => wf(*a) && wf(*b),
        Sdf::Difference(a, b) => wf(*a) && wf(*b),
        Sdf::Negation(a) => wf(*a),
        Sdf::Translate(a, t) => wf(*a) && in_box(t@, G_MAX as int),
        Sdf::Scale(a, k) => wf(*a) && 1 <= k <= K_MAX,
        Sdf::Rotate(a, ax, c, sn) => wf(*a) && in_box(ax@, FP as int) && -FP <= c <= FP && -FP
            <= sn <= FP && 0 <= eps_of(*a) <= G_MAX,
        Sdf::Shaded(a, _) => wf(*a),
    }
}

/// Clamp one coordinate into `[-b, b]`.
pub open spec fn clamp1(x: int, b: int) -> int {
    if x > b {
        b
    } else if x < -b {
        -b
    } else {
        x
    }
}

/// The point a `Scale` node hands to its child: divided by the factor and
/// clamped into the inner box.
pub open spec fn scale_pt(p: (int, int, int), k: int) -> (int, int, int) {
    (
        clamp1(tdiv(p.0 * FP, k), P_SC as int),
        clamp1(tdiv(p.1 * FP, k), P_SC as int),
        clamp1(tdiv(p.2 * FP, k), P_SC as int),
    )
}

/// The polynomial smooth-minimum blend of two distances, honoring its
/// parameter `k`: near-equal distances are pulled below their minimum by
/// up to a quarter of `k`.
pub open spec fn poly_smooth(da: int, db: int, k: int) -> int {
    let h = tdiv(smax(k - crate::math::sabs(da - db), 0) * FP, k);
    let hh = tdiv(h * h, FP as int);
    smin(da, db) - tdiv(hh * k, 4 * (FP as int))
}

/// The query point of a `Rotate` node: the point turned back by the
/// node's angle about its axis, clamped into the inner box.
pub open spec fn rot_q(p: (int, int, int), ax: (int, int, int), cos: int, sin: int) -> (
    int,
    int,
    int,
) {
    let r = crate::linear::rodrigues_v(p, ax, cos, -sin);
    (clamp1(r.0, P_SC as int), clamp1(r.1, P_SC as int), clamp1(r.2, P_SC as int))
}

/// The signed distance of the tree at a point, on raw lattice
/// coordinates.
pub open spec fn sd(s: Sdf, p: (int, int, int)) -> int
    decreases s,
{
    match s {
        Sdf::Sphere(sp) => clamp_d(isq(norm2_raw(p) as nat) - sp.radius),
        Sdf::Plane(pl) => clamp_d(tdiv(dot_raw(pl.normal@, p), FP as int)),
        Sdf::Disk(d) => clamp_d(
            smax(tdiv(dot_raw(d.normal@, p), FP as int), isq(norm2_raw(p) as nat) - d.radius),
        ),
        Sdf::Face(f) => face_sd(f, p),
        Sdf::Empty(_) => D_MAX as int,
        Sdf::Union(a, b) => smin(sd(*a, p), sd(*b, p)),
        Sdf::SmoothUnionPoly(a, b, k) => clamp_d(poly_smooth(sd(*a, p), sd(*b, p), k as int)),
        Sdf::Intersection(a, b) => smax(sd(*a, p), sd(*b, p)),
        Sdf::Difference(a, b) => smax(sd(*a, p), -sd(*b, p)),
        Sdf::Negation(a) => -sd(*a, p),
        Sdf::Translate(a, t) => sd(*a, sub_v(p, t@)),
        Sdf::Scale(a, k) => clamp_d(tdiv(sd(*a, scale_pt(p, k as int)) * k, FP as int)),
        Sdf::Rotate(a, ax, c, sn) => sd(*a, rot_q(p, ax@, c as int, sn as int)),
        Sdf::Shaded(a, _) => sd(*a, p),
    }
}

/// The surface tolerance of the tree.  The sphere's and the disk's
/// scale with their radius; on the lattice that ratio is floored at one
/// unit so the tolerance stays positive.
pub open spec fn eps_of(s: Sdf) -> int
    decreases s,
{
    match s {
        Sdf::Sphere(sp) => smax(sp.radius / 10000, 1),
        Sdf::Plane(_) => (FP as int) / 1000,
        Sdf::Disk(d) => smax(d.radius / 1000, 1),
        Sdf::Face(f) => f.epsilon as int,
        Sdf::Empty(_) => FP as int,
        Sdf::Union(a, b) => smin(eps_of(*a), eps_of(*b)),
        Sdf::SmoothUnionPoly(a, b, _) => smin(eps_of(*a), eps_of(*b)) / 10,
        Sdf::Intersection(a, b) => smin(eps_of(*a), eps_of(*b)),
        Sdf::Difference(a, b) => smin(eps_of(*a), eps_of(*b)),
        Sdf::Negation(a) => eps_of(*a),
        Sdf::Translate(a, _) => eps_of(*a),
        Sdf::Scale(a, _) => eps_of(*a),
        Sdf::Rotate(a, _, _, _) => eps_of(*a),
        Sdf::Shaded(a, _) => eps_of(*a),
    }
}

/// The material governing a point: a `Shaded` node supplies one, CSG
/// nodes defer to the nearer child, and transforms inherit.
pub open spec fn mat_at(s: Sdf, p: (int, int, int)) -> Option<Material>
    decreases s,
{
    match s {
        Sdf::Sphere(_) => None,
        Sdf::Plane(_) => None,
        Sdf::Disk(_) => None,
        Sdf::Face(_) => None,
        Sdf::Empty(_) => None,
        Sdf::Union(a, b) => if sd(*a, p) < sd(*b, p) {
            mat_at(*a, p)
        } else {
            mat_at(*b, p)
        },
        Sdf::SmoothUnionPoly(_, _, _) => None,
        Sdf::Intersection(a, b) => if sd(*a, p) < sd(*b, p) {
            mat_at(*a, p)
        } else {
            mat_at(*b, p)
        },
        Sdf::Difference(a, _) => mat_at(*a, p),
        Sdf::Negation(a) => mat_at(*a, p),
        Sdf::Translate(a, _) => mat_at(*a, p),
        Sdf::Scale(a, _) => mat_at(*a, p),
        Sdf::Rotate(a, _, _, _) => mat_at(*a, p),
        Sdf::Shaded(_, m) => Some(m),
    }
}


/// Componentwise negation.
pub open spec fn neg3(v: (int, int, int)) -> (int, int, int) {
    (-v.0, -v.1, -v.2)
}

/// The central-difference gradient of the distance at the tree's own
/// tolerance, normalized.
pub open spec fn grad_normal(s: Sdf, p: (int, int, int)) -> (int, int, int) {
    let e = eps_of(s);
    normalize_v(
        (
            sd(s, (p.0 + e, p.1, p.2)) - sd(s, (p.0 - e, p.1, p.2)),
            sd(s, (p.0, p.1 + e, p.2)) - sd(s, (p.0, p.1 - e, p.2)),
            sd(s, (p.0, p.1, p.2 + e)) - sd(s, (p.0, p.1, p.2 - e)),
        ),
    )
}

/// The outward surface normal at a point: primitives take the gradient
/// of their distance, CSG nodes the nearer child's normal, a negation
/// flips it, and transforms move the query point.
pub open spec fn normal_of(s: Sdf, p: (int, int, int)) -> (int, int, int)
    decreases s,
{
    match s {
        Sdf::Sphere(_) => grad_normal(s, p),
        Sdf::Plane(_) => grad_normal(s, p),
        Sdf::Disk(_) => grad_normal(s, p),
        Sdf::Face(f) => f.normal@,
        Sdf::Empty(_) => grad_normal(s, p),
        Sdf::Union(a, b) => if sd(*a, p) < sd(*b, p) {
            normal_of(*a, p)
        } else {
            normal_of(*b, p)
        },
        Sdf::SmoothUnionPoly(_, _, _) => grad_normal(s, p),
        Sdf::Intersection(a, b) => if sd(*a, p) < sd(*b, p) {
            normal_of(*a, p)
        } else {
            normal_of(*b, p)
        },
        Sdf::Difference(a, b) => if sd(*a, p) < -sd(*b, p) {
            normal_of(*a, p)
        } else {
            neg3(normal_of(*b, p))
        },
        Sdf::Negation(a) => neg3(normal_of(*a, p)),
        Sdf::Translate(a, t) => normal_of(*a, sub_v(p, t@)),
        Sdf::Scale(a, k) => normal_of(*a, scale_pt(p, k as int)),
        Sdf::Rotate(_, _, _, _) => grad_normal(s, p),
        Sdf::Shaded(a, _) => normal_of(*a, p),
    }
}


/// Well-formedness of a polygonal face's stored fields.
pub open spec fn face_wf(f: PolyFace) -> bool {
    &&& forall|i: int|
        0 <= i < f.vertices@.len() ==> in_box(#[trigger] f.vertices@[i]@, G_MAX as int)
    &&& in_box(f.normal@, FP as int)
    &&& in_box(f.centroid@, G_MAX as int)
    &&& 0 <= f.epsilon <= D_MAX
    &&& f.vertices@.len() <= FACE_MAX_VERTS
}

/// The outward normal of one edge: the edge direction turned a quarter
/// turn around the face normal, normalized.
pub open spec fn edge_normal(n: (int, int, int), a: (int, int, int), b: (int, int, int)) -> (
    int,
    int,
    int,
) {
    let e = sub_v(b, a);
    normalize_v(add_scaled(cross_v(n, e), tdiv(dot_raw(n, e), FP as int), n))
}

/// The half-space term of edge `i`: how far the point lies beyond it.
pub open spec fn face_term(f: PolyFace, p: (int, int, int), i: int) -> int {
    let a = f.vertices@[i]@;
    let b = f.vertices@[(i + 1) % (f.vertices@.len() as int)]@;
    tdiv(dot_raw(sub_v(p, a), edge_normal(f.normal@, a, b)), FP as int) - f.epsilon
}

/// The slab term: the larger of the front-plane and back-plane distances.
pub open spec fn face_base(f: PolyFace, p: (int, int, int)) -> int {
    let fr = tdiv(dot_raw(f.normal@, sub_v(p, f.centroid@)), FP as int);
    smax(fr, -fr - FACE_THICKNESS)
}

/// The largest of the slab term and the first `i` edge terms.
pub open spec fn face_fold(f: PolyFace, p: (int, int, int), i: nat) -> int
    decreases i,
{
    if i == 0 {
        face_base(f, p)
    } else {
        smax(face_fold(f, p, (i - 1) as nat), face_term(f, p, i - 1))
    }
}

/// The distance of a polygonal face; degenerate faces are empty.
pub open spec fn face_sd(f: PolyFace, p: (int, int, int)) -> int {
    if f.vertices@.len() < 3 {
        D_MAX as int
    } else {
        clamp_d(face_fold(f, p, f.vertices@.len()))
    }
}

/// The sum of the first `i` vertices, coordinate by coordinate.
pub open spec fn sum_pref(vs: Seq<Vec3>, i: int) -> (int, int, int)
    decreases i,
{
    if i <= 0 {
        (0int, 0int, 0int)
    } else {
        let t = sum_pref(vs, i - 1);
        (t.0 + vs[i - 1]@.0, t.1 + vs[i - 1]@.1, t.2 + vs[i - 1]@.2)
    }
}

/// The truncating mean of the vertices; zero for degenerate faces.
pub open spec fn centroid_sp(vs: Seq<Vec3>) -> (int, int, int) {
    if vs.len() >= 3 {
        let t = sum_pref(vs, vs.len() as int);
        let n = vs.len() as int;
        (tdiv(t.0, n), tdiv(t.1, n), tdiv(t.2, n))
    } else {
        (0int, 0int, 0int)
    }
}

/// The stored face normal: the cross product of the first two vertices
/// about the centroid, normalized; zero for degenerate faces.
pub open spec fn face_normal_sp(vs: Seq<Vec3>) -> (int, int, int) {
    if vs.len() >= 3 {
        let c = centroid_sp(vs);
        normalize_v(cross_v(sub_v(vs[1]@, c), sub_v(vs[0]@, c)))
    } else {
        (0int, 0int, 0int)
    }
}

/// A thousandth of the shortest of the first `i` edge lengths; over no
/// edges it is the distance band's width, so the minimum is unconstrained.
pub open spec fn eps_pref(vs: Seq<Vec3>, i: int) -> int
    decreases i,
{
    if i <= 0 {
        D_MAX as int
    } else {
        let d = norm_raw(sub_v(vs[i % (vs.len() as int)]@, vs[i - 1]@));
        smin(eps_pref(vs, i - 1), tdiv(d, 1000))
    }
}

/// The surface tolerance stored in a face.
pub open spec fn face_eps_sp(vs: Seq<Vec3>) -> int {
    eps_pref(vs, vs.len() as int)
}

/// The translation budget is never negative.
pub proof fn lemma_shift_nonneg(s: Sdf)
    ensures
        max_shift(s) >= 0,
    decreases s,
{
    match s {
        Sdf::Union(a, b) => {
            lemma_shift_nonneg(*a);
            lemma_shift_nonneg(*b);
        },
        Sdf::SmoothUnionPoly(a, b, _) => {
            lemma_shift_nonneg(*a);
            lemma_shift_nonneg(*b);
        },
        Sdf::Intersection(a, b) => {
            lemma_shift_nonneg(*a);
            lemma_shift_nonneg(*b);
        },
        Sdf::Difference(a, b) => {
            lemma_shift_nonneg(*a);
            lemma_shift_nonneg(*b);
        },
        Sdf::Negation(a) => lemma_shift_nonneg(*a),
        Sdf::Translate(a, _) => lemma_shift_nonneg(*a),
        Sdf::Scale(a, _) => lemma_shift_nonneg(*a),
        Sdf::Rotate(a, _, _, _) => lemma_shift_nonneg(*a),
        Sdf::Shaded(a, _) => lemma_shift_nonneg(*a),
        _ => {},
    }
}

/// Every tree's distance stays inside the admissible band.
pub proof fn lemma_sd_bounded(s: Sdf, p: (int, int, int))
    ensures
        -D_MAX <= sd(s, p) <= D_MAX,
    decreases s,
{
    match s {
        Sdf::Union(a, b) => {
            lemma_sd_bounded(*a, p);
            lemma_sd_bounded(*b, p);
        },
        Sdf::SmoothUnionPoly(a, b, _) => {
            lemma_sd_bounded(*a, p);
            lemma_sd_bounded(*b, p);
        },
        Sdf::Intersection(a, b) => {
            lemma_sd_bounded(*a, p);
            lemma_sd_bounded(*b, p);
        },
        Sdf::Difference(a, b) => {
            lemma_sd_bounded(*a, p);
            lemma_sd_bounded(*b, p);
        },
        Sdf::Negation(a) => lemma_sd_bounded(*a, p),
        Sdf::Translate(a, t) => lemma_sd_bounded(*a, sub_v(p, t@)),
        Sdf::Rotate(a, ax, c, sn) => lemma_sd_bounded(*a, rot_q(p, ax@, c as int, sn as int)),
        Sdf::Shaded(a, _) => lemma_sd_bounded(*a, p),
        _ => {},
    }
}

impl Sphere {
    pub fn new(radius: i64) -> (s: Self)
        ensures
            s.radius == radius,
    {
        Self { radius }
    }

    /// Distance from the surface of the ball.
    pub fn distance(&self, point: &Vec3) -> (d: i64)
        requires
            0 < self.radius <= G_MAX,
            in_box(point@, P_IN as int),
        ensures
            d == sd(Sdf::Sphere(*self), point@),
    {
        proof {
            crate::linear::lemma_norm2_nonneg(point@);
            crate::math::lemma_mul_bound(point@.0, point@.0, P_IN as int, P_IN as int);
            crate::math::lemma_mul_bound(point@.1, point@.1, P_IN as int, P_IN as int);
            crate::math::lemma_mul_bound(point@.2, point@.2, P_IN as int, P_IN as int);
            assert((P_IN as int) * (P_IN as int) == 0x4000000000000000000000000000) by (nonlinear_arith)
                requires
                    P_IN == 0x80000000000000,
            ;
        }
        let s = (point.x as i128) * (point.x as i128) + (point.y as i128) * (point.y as i128)
            + (point.z as i128) * (point.z as i128);
        proof {
            assert((0xFFFFFFFFFFFFFFnat + 1) * (0xFFFFFFFFFFFFFFnat + 1)
                == 0x10000000000000000000000000000) by (nonlinear_arith);
            lemma_isq_le(s as nat, 0xFFFFFFFFFFFFFF);
        }
        let n = isqrt(s as u128);
        clamp_dist(n as i128 - self.radius as i128)
    }

    /// Surface tolerance, proportional to the radius and positive.
    pub fn epsilon(&self) -> (e: i64)
        requires
            0 < self.radius,
        ensures
            e == eps_of(Sdf::Sphere(*self)),
            e >= 1,
    {
        max_i64(self.radius / 10000, 1)
    }
}

impl Plane {
    pub fn new(normal: Vec3) -> (s: Self)
        ensures
            s.normal == normal,
    {
        Self { normal }
    }

    /// Signed distance to the half-space boundary.
    pub fn distance(&self, point: &Vec3) -> (d: i64)
        requires
            in_box(self.normal@, G_MAX as int),
            in_box(point@, P_IN as int),
        ensures
            d == sd(Sdf::Plane(*self), point@),
    {
        proof {
            crate::math::lemma_mul_bound(
                self.normal@.0,
                point@.0,
                G_MAX as int,
                P_IN as int,
            );
            crate::math::lemma_mul_bound(
                self.normal@.1,
                point@.1,
                G_MAX as int,
                P_IN as int,
            );
            crate::math::lemma_mul_bound(
                self.normal@.2,
                point@.2,
                G_MAX as int,
                P_IN as int,
            );
            assert((G_MAX as int) * (P_IN as int) == 0x100000000000000000000000) by (nonlinear_arith)
                requires
                    G_MAX == 0x2000000000,
                    P_IN == 0x80000000000000,
            ;
        }
        let dot = (self.normal.x as i128) * (point.x as i128) + (self.normal.y as i128)
            * (point.y as i128) + (self.normal.z as i128) * (point.z as i128);
        let d = div_t(dot, FP as i128);
        clamp_dist(d)
    }

    /// Fixed surface tolerance of a half-space.
    pub fn epsilon(&self) -> (e: i64)
        ensures
            e == eps_of(Sdf::Plane(*self)),
    {
        FP / 1000
    }
}

impl Disk {
    pub fn new(normal: Vec3, radius: i64) -> (s: Self)
        ensures
            s.normal == normal && s.radius == radius,
    {
        Self { normal, radius }
    }

    /// Intersection of the plane with a ball of the given radius.
    pub fn distance(&self, point: &Vec3) -> (d: i64)
        requires
            in_box(self.normal@, G_MAX as int),
            0 < self.radius <= G_MAX,
            in_box(point@, P_IN as int),
        ensures
            d == sd(Sdf::Disk(*self), point@),
    {
        let pd = Plane { normal: self.normal }.distance(point);
        let sp = Sphere { radius: self.radius }.distance(point);
        proof {
            let both = smax(
                tdiv(dot_raw(self.normal@, point@), FP as int),
                isq(norm2_raw(point@) as nat) - self.radius,
            );
            assert(clamp_d(smax(clamp_d(tdiv(dot_raw(self.normal@, point@), FP as int)),
                clamp_d(isq(norm2_raw(point@) as nat) - self.radius))) == clamp_d(both));
        }
        let m = max_i64(pd, sp);
        clamp_dist(m as i128)
    }

    /// Surface tolerance, proportional to the radius and positive.
    pub fn epsilon(&self) -> (e: i64)
        requires
            0 < self.radius,
        ensures
            e == eps_of(Sdf::Disk(*self)),
            e >= 1,
    {
        max_i64(self.radius / 1000, 1)
    }
}

impl EmptySDF {
    /// The empty field is beyond every far plane.
    pub fn distance(&self, _point: &Vec3) -> (d: i64)
        ensures
            d == sd(Sdf::Empty(*self), _point@),
    {
        D_MAX
    }

    /// Tolerance of one world unit.
    pub fn epsilon(&self) -> (e: i64)
        ensures
            e == eps_of(Sdf::Empty(*self)),
    {
        FP
    }
}


impl PolyFace {
    /// Build a face from its vertices: centroid and normal are derived,
    /// the tolerance is a thousandth of the shortest edge.
    pub fn new(vertices: Vec<Vec3>) -> (f: Self)
        requires
            vertices@.len() <= FACE_MAX_VERTS,
            forall|i: int|
                0 <= i < vertices@.len() ==> in_box(#[trigger] vertices@[i]@, G_MAX as int),
        ensures
            f.vertices@ == vertices@,
            f.centroid@ == centroid_sp(vertices@),
            f.normal@ == face_normal_sp(vertices@),
            f.epsilon == face_eps_sp(vertices@),
            face_wf(f),
    {
        let len = vertices.len();
        let (centroid, normal) = if len >= 3 {
            let mut sx: i128 = 0;
            let mut sy: i128 = 0;
            let mut sz: i128 = 0;
            let mut i: usize = 0;
            while i < len
                invariant
                    len == vertices@.len(),
                    len <= FACE_MAX_VERTS,
                    forall|j: int|
                        0 <= j < vertices@.len() ==> in_box(
                            #[trigger] vertices@[j]@,
                            G_MAX as int,
                        ),
                    i <= len,
                    (sx as int, sy as int, sz as int) == sum_pref(vertices@, i as int),
                    -(i * G_MAX) <= sx <= i * G_MAX,
                    -(i * G_MAX) <= sy <= i * G_MAX,
                    -(i * G_MAX) <= sz <= i * G_MAX,
                decreases len - i,
            {
                let v = vertices[i];
                sx = sx + v.x as i128;
                sy = sy + v.y as i128;
                sz = sz + v.z as i128;
                i = i + 1;
            }
            proof {
                crate::math::lemma_tdiv_bound(sx as int, len as int, G_MAX as int);
                crate::math::lemma_tdiv_bound(sy as int, len as int, G_MAX as int);
                crate::math::lemma_tdiv_bound(sz as int, len as int, G_MAX as int);
            }
            let c = Vec3 {
                x: div_t(sx, len as i128) as i64,
                y: div_t(sy, len as i128) as i64,
                z: div_t(sz, len as i128) as i64,
            };
            let a = vertices[0].diff(&c);
            let b = vertices[1].diff(&c);
            let n = Vec3::cross(&b, &a);
            proof {
                crate::linear::lemma_normalized_small(n@);
                if n@ == (0int, 0int, 0int) {
                    assert(crate::linear::norm2_raw(n@) == 0) by (nonlinear_arith)
                        requires
                            n@ == (0int, 0int, 0int),
                            crate::linear::norm2_raw(n@) == n@.0 * n@.0 + n@.1 * n@.1 + n@.2
                                * n@.2,
                    ;
                }
                cross_in_box(b@, a@);
            }
            (c, n.normalize())
        } else {
            (Vec3::zero(), Vec3::zero())
        };
        let mut eps: i64 = D_MAX;
        let mut i: usize = 0;
        while i < len
            invariant
                len == vertices@.len(),
                forall|j: int|
                    0 <= j < vertices@.len() ==> in_box(#[trigger] vertices@[j]@, G_MAX as int),
                i <= len,
                eps == eps_pref(vertices@, i as int),
                0 <= eps <= D_MAX,
            decreases len - i,
        {
            let j = if i + 1 == len {
                0
            } else {
                i + 1
            };
            proof {
                if i + 1 == len {
                    assert(((i + 1) as int) % (len as int) == 0) by (nonlinear_arith)
                        requires
                            (i + 1) as int == len as int,
                            (len as int) > 0,
                    ;
                } else {
                    assert(((i + 1) as int) % (len as int) == (i + 1) as int) by (nonlinear_arith)
                        requires
                            0 <= (i + 1) as int,
                            ((i + 1) as int) < (len as int),
                    ;
                }
            }
            let d = vertices[i].dist(&vertices[j]);
            let step = ((d as u64) / 1000) as i64;
            eps = crate::math::min_i64(eps, step);
            i = i + 1;
        }
        PolyFace { normal, centroid, vertices, epsilon: eps }
    }

    /// The largest of the slab planes and all edge half-spaces, clamped;
    /// a face with fewer than three vertices is empty.
    pub fn distance(&self, point: &Vec3) -> (d: i64)
        requires
            face_wf(*self),
            in_box(point@, P_IN as int),
        ensures
            d == face_sd(*self, point@),
    {
        let len = self.vertices.len();
        if len < 3 {
            return D_MAX;
        }
        let rel = point.diff(&self.centroid);
        proof {
            crate::math::lemma_mul_bound(
                self.normal@.0,
                rel@.0,
                FP as int,
                0x100000000000000,
            );
            crate::math::lemma_mul_bound(
                self.normal@.1,
                rel@.1,
                FP as int,
                0x100000000000000,
            );
            crate::math::lemma_mul_bound(
                self.normal@.2,
                rel@.2,
                FP as int,
                0x100000000000000,
            );
        }
        let fr128 = (self.normal.x as i128) * (rel.x as i128) + (self.normal.y as i128)
            * (rel.y as i128) + (self.normal.z as i128) * (rel.z as i128);
        let front = div_t(fr128, FP as i128);
        proof {
            crate::math::lemma_tdiv_bound(fr128 as int, FP as int, 0x300000000000000);
        }
        let front = front as i64;
        let mut acc = max_i64(front, -front - FACE_THICKNESS);
        proof {
            assert(acc == face_fold(*self, point@, 0));
        }
        let mut i: usize = 0;
        while i < len
            invariant
                face_wf(*self),
                in_box(point@, P_IN as int),
                len == self.vertices@.len(),
                3 <= len,
                i <= len,
                acc == face_fold(*self, point@, i as nat),
                -0x1000000000000000 <= acc <= 0x1000000000000000,
            decreases len - i,
        {
            let a = self.vertices[i];
            let j = if i + 1 == len {
                0
            } else {
                i + 1
            };
            proof {
                if i + 1 == len {
                    assert(((i + 1) as int) % (len as int) == 0) by (nonlinear_arith)
                        requires
                            (i + 1) as int == len as int,
                            (len as int) > 0,
                    ;
                } else {
                    assert(((i + 1) as int) % (len as int) == (i + 1) as int) by (nonlinear_arith)
                        requires
                            0 <= (i + 1) as int,
                            ((i + 1) as int) < (len as int),
                    ;
                }
            }
            let b = self.vertices[j];
            let e = b.diff(&a);
            let cr = Vec3::cross(&self.normal, &e);
            let kd = self.normal.dot(&e);
            proof {
                cross_from_small_in_box(self.normal@, e@);
                crate::math::lemma_mul_bound(
                    self.normal@.0,
                    e@.0,
                    FP as int,
                    0x4000000000,
                );
                crate::math::lemma_mul_bound(
                    self.normal@.1,
                    e@.1,
                    FP as int,
                    0x4000000000,
                );
                crate::math::lemma_mul_bound(
                    self.normal@.2,
                    e@.2,
                    FP as int,
                    0x4000000000,
                );
                crate::math::lemma_tdiv_bound(
                    dot_raw(self.normal@, e@),
                    FP as int,
                    0xC0000000000,
                );
                crate::math::lemma_mul_bound(kd as int, self.normal@.0, 0xC0000000000, FP as int);
                crate::math::lemma_mul_bound(kd as int, self.normal@.1, 0xC0000000000, FP as int);
                crate::math::lemma_mul_bound(kd as int, self.normal@.2, 0xC0000000000, FP as int);
            }
            let rot = cr.add(kd, &self.normal);
            let en = rot.normalize();
            proof {
                if rot@ == (0int, 0int, 0int) {
                    assert(crate::linear::norm2_raw(rot@) == 0) by (nonlinear_arith)
                        requires
                            rot@ == (0int, 0int, 0int),
                            crate::linear::norm2_raw(rot@) == rot@.0 * rot@.0 + rot@.1 * rot@.1
                                + rot@.2 * rot@.2,
                    ;
                }
            }
            let pa = point.diff(&a);
            proof {
                crate::math::lemma_mul_bound(pa@.0, en@.0, 0x100000000000000, FP as int);
                crate::math::lemma_mul_bound(pa@.1, en@.1, 0x100000000000000, FP as int);
                crate::math::lemma_mul_bound(pa@.2, en@.2, 0x100000000000000, FP as int);
            }
            let t128 = (pa.x as i128) * (en.x as i128) + (pa.y as i128) * (en.y as i128)
                + (pa.z as i128) * (en.z as i128);
            let t = div_t(t128, FP as i128);
            proof {
                crate::math::lemma_tdiv_bound(t128 as int, FP as int, 0x300000000000000);
            }
            let term = t as i64 - self.epsilon;
            acc = max_i64(acc, term);
            proof {
                assert(e@ == sub_v(b@, a@));
                assert(term == face_term(*self, point@, i as int));
                assert(acc == face_fold(*self, point@, (i + 1) as nat));
            }
            i = i + 1;
        }
        clamp_dist(acc as i128)
    }

    /// The stored tolerance of the face.
    pub fn epsilon(&self) -> (e: i64)
        ensures
            e == self.epsilon,
    {
        self.epsilon
    }

    /// The stored face normal, regardless of the query point.
    pub fn normal(&self, _point: &Vec3) -> (n: Vec3)
        ensures
            n == self.normal,
    {
        self.normal
    }
}

/// The cross product of vectors from boxes `2 * FP` and `2 ^ 38` lies in
/// a box of `2 ^ 39`.
proof fn cross_from_small_in_box(n: (int, int, int), e: (int, int, int))
    requires
        in_box(n, FP as int),
        in_box(e, 0x4000000000),
    ensures
        in_box(cross_v(n, e), 0x8000000000),
{
    crate::math::lemma_mul_bound(n.1, e.2, FP as int, 0x4000000000);
    crate::math::lemma_mul_bound(n.2, e.1, FP as int, 0x4000000000);
    crate::math::lemma_mul_bound(n.2, e.0, FP as int, 0x4000000000);
    crate::math::lemma_mul_bound(n.0, e.2, FP as int, 0x4000000000);
    crate::math::lemma_mul_bound(n.0, e.1, FP as int, 0x4000000000);
    crate::math::lemma_mul_bound(n.1, e.0, FP as int, 0x4000000000);
    crate::math::lemma_tdiv_bound(n.1 * e.2 - n.2 * e.1, FP as int, 0x8000000000);
    crate::math::lemma_tdiv_bound(n.2 * e.0 - n.0 * e.2, FP as int, 0x8000000000);
    crate::math::lemma_tdiv_bound(n.0 * e.1 - n.1 * e.0, FP as int, 0x8000000000);
}

/// The cross product of two vectors from the doubled parameter box fits
/// well inside the box that `normalize` accepts.
proof fn cross_in_box(a: (int, int, int), b: (int, int, int))
    requires
        in_box(a, 0x4000000000),
        in_box(b, 0x4000000000),
    ensures
        in_box(cross_v(a, b), 0x2000000000000000),
{
    crate::math::lemma_mul_bound(a.1, b.2, 0x4000000000, 0x4000000000);
    crate::math::lemma_mul_bound(a.2, b.1, 0x4000000000, 0x4000000000);
    crate::math::lemma_mul_bound(a.2, b.0, 0x4000000000, 0x4000000000);
    crate::math::lemma_mul_bound(a.0, b.2, 0x4000000000, 0x4000000000);
    crate::math::lemma_mul_bound(a.0, b.1, 0x4000000000, 0x4000000000);
    crate::math::lemma_mul_bound(a.1, b.0, 0x4000000000, 0x4000000000);
    crate::math::lemma_tdiv_bound(a.1 * b.2 - a.2 * b.1, FP as int, 0x2000000000000000);
    crate::math::lemma_tdiv_bound(a.2 * b.0 - a.0 * b.2, FP as int, 0x2000000000000000);
    crate::math::lemma_tdiv_bound(a.0 * b.1 - a.1 * b.0, FP as int, 0x2000000000000000);
}

impl Sdf {
    /// The signed distance of this tree at a point; exactly `sd`.
    pub fn distance(&self, point: &Vec3) -> (d: i64)
        requires
            wf(*self),
            max_shift(*self) <= SHIFT_MAX,
            in_box(point@, P_IN - max_shift(*self)),
        ensures
            d == sd(*self, point@),
            -D_MAX <= d <= D_MAX,
        decreases *self,
    {
        proof {
            lemma_shift_nonneg(*self);
            lemma_sd_bounded(*self, point@);
        }
        match self {
            Sdf::Sphere(sp) => sp.distance(point),
            Sdf::Plane(pl) => pl.distance(point),
            Sdf::Disk(dk) => dk.distance(point),
            Sdf::Face(f) => f.distance(point),
            Sdf::Empty(e) => e.distance(point),
            Sdf::Union(a, b) => {
                proof {
                    lemma_shift_nonneg(**a);
                    lemma_shift_nonneg(**b);
                }
                let da = a.distance(point);
                let db = b.distance(point);
                min_i64(da, db)
            },
            Sdf::SmoothUnionPoly(a, b, k) => {
                proof {
                    lemma_shift_nonneg(**a);
                    lemma_shift_nonneg(**b);
                }
                let da = a.distance(point);
                let db = b.distance(point);
                let delta = if da >= db {
                    da - db
                } else {
                    db - da
                };
                let raw = if *k > delta {
                    *k - delta
                } else {
                    0
                };
                proof {
                    crate::math::lemma_mul_bound(raw as int, FP as int, *k as int, FP as int);
                    lemma_tdiv_bound((raw * FP) as int, *k as int, FP as int);
                }
                let h = div_t((raw as i128) * (FP as i128), *k as i128) as i64;
                proof {
                    crate::math::lemma_mul_bound(h as int, h as int, FP as int, FP as int);
                    assert((FP as int) * (FP as int) == 0x100000000) by (nonlinear_arith)
                        requires
                            FP == 65536,
                    ;
                    lemma_tdiv_bound((h * h) as int, FP as int, FP as int);
                }
                let hh = div_t((h as i128) * (h as i128), FP as i128) as i64;
                proof {
                    crate::math::lemma_mul_bound(hh as int, *k as int, FP as int, G_MAX as int);
                    assert((FP as int) * (G_MAX as int) == 0x20000000000000) by (nonlinear_arith)
                        requires
                            FP == 65536,
                            G_MAX == 0x2000000000,
                    ;
                    lemma_tdiv_bound((hh * *k) as int, 262144, 0x800000000);
                    assert(4 * (FP as int) == 262144);
                }
                let corr = div_t((hh as i128) * (*k as i128), 262144) as i64;
                clamp_dist((min_i64(da, db) as i128) - (corr as i128))
            },
            Sdf::Intersection(a, b) => {
                proof {
                    lemma_shift_nonneg(**a);
                    lemma_shift_nonneg(**b);
                }
                let da = a.distance(point);
                let db = b.distance(point);
                max_i64(da, db)
            },
            Sdf::Difference(a, b) => {
                proof {
                    lemma_shift_nonneg(**a);
                    lemma_shift_nonneg(**b);
                }
                let da = a.distance(point);
                let db = b.distance(point);
                max_i64(da, -db)
            },
            Sdf::Negation(a) => {
                let da = a.distance(point);
                -da
            },
            Sdf::Translate(a, t) => {
                proof {
                    lemma_shift_nonneg(**a);
                }
                let q = point.diff(t);
                a.distance(&q)
            },
            Sdf::Scale(a, k) => {
                proof {
                    lemma_shift_nonneg(**a);
                }
                let qx = clamp_scaled(div_t((point.x as i128) * (FP as i128), *k as i128));
                let qy = clamp_scaled(div_t((point.y as i128) * (FP as i128), *k as i128));
                let qz = clamp_scaled(div_t((point.z as i128) * (FP as i128), *k as i128));
                let q = Vec3 { x: qx, y: qy, z: qz };
                let dc = a.distance(&q);
                proof {
                    lemma_sd_bounded(**a, q@);
                    crate::math::lemma_mul_bound(dc as int, *k as int, D_MAX as int, K_MAX as int);
                    assert((D_MAX as int) * (K_MAX as int) == 0x80000000000000000000) by (nonlinear_arith)
                        requires
                            D_MAX == 0x20000000000000,
                            K_MAX == 0x4000000,
                    ;
                }
                clamp_dist(div_t((dc as i128) * (*k as i128), FP as i128))
            },
            Sdf::Rotate(a, ax, c, sn) => {
                proof {
                    lemma_shift_nonneg(**a);
                }
                let q = rotate_query(point, ax, *c, -*sn);
                a.distance(&q)
            },
            Sdf::Shaded(a, _) => a.distance(point),
        }
    }

    /// The surface tolerance of this tree; exactly `eps_of`.
    pub fn epsilon(&self) -> (e: i64)
        requires
            wf(*self),
        ensures
            e == eps_of(*self),
        decreases *self,
    {
        match self {
            Sdf::Sphere(sp) => sp.epsilon(),
            Sdf::Plane(pl) => pl.epsilon(),
            Sdf::Disk(dk) => dk.epsilon(),
            Sdf::Face(f) => f.epsilon(),
            Sdf::Empty(e) => e.epsilon(),
            Sdf::Union(a, b) => min_i64(a.epsilon(), b.epsilon()),
            Sdf::SmoothUnionPoly(a, b, _) => {
                let e = min_i64(a.epsilon(), b.epsilon());
                ((e as u64) / 10) as i64
            },
            Sdf::Intersection(a, b) => min_i64(a.epsilon(), b.epsilon()),
            Sdf::Difference(a, b) => min_i64(a.epsilon(), b.epsilon()),
            Sdf::Negation(a) => a.epsilon(),
            Sdf::Translate(a, _) => a.epsilon(),
            Sdf::Scale(a, _) => a.epsilon(),
            Sdf::Rotate(a, _, _, _) => a.epsilon(),
            Sdf::Shaded(a, _) => a.epsilon(),
        }
    }

    /// The material at a point; exactly `mat_at`.
    pub fn material(&self, point: &Vec3) -> (m: Option<Material>)
        requires
            wf(*self),
            max_shift(*self) <= SHIFT_MAX,
            in_box(point@, P_IN - max_shift(*self)),
        ensures
            m == mat_at(*self, point@),
        decreases *self,
    {
        proof {
            lemma_shift_nonneg(*self);
        }
        match self {
            Sdf::Sphere(_) => None,
            Sdf::Plane(_) => None,
            Sdf::Disk(_) => None,
            Sdf::Face(_) => None,
            Sdf::Empty(_) => None,
            Sdf::Union(a, b) => {
                proof {
                    lemma_shift_nonneg(**a);
                    lemma_shift_nonneg(**b);
                }
                let da = a.distance(point);
                let db = b.distance(point);
                if da < db {
                    a.material(point)
                } else {
                    b.material(point)
                }
            },
            Sdf::SmoothUnionPoly(_, _, _) => None,
            Sdf::Intersection(a, b) => {
                proof {
                    lemma_shift_nonneg(**a);
                    lemma_shift_nonneg(**b);
                }
                let da = a.distance(point);
                let db = b.distance(point);
                if da < db {
                    a.material(point)
                } else {
                    b.material(point)
                }
            },
            Sdf::Difference(a, _) => a.material(point),
            Sdf::Negation(a) => a.material(point),
            Sdf::Translate(a, _) => a.material(point),
            Sdf::Scale(a, _) => a.material(point),
            Sdf::Rotate(a, _, _, _) => a.material(point),
            Sdf::Shaded(_, m) => Some(*m),
        }
    }


    /// The outward surface normal at a point; exactly `normal_of`.
    pub fn normal(&self, point: &Vec3) -> (v: Vec3)
        requires
            wf(*self),
            max_shift(*self) <= SHIFT_MAX,
            in_box(point@, P_NRM - max_shift(*self)),
        ensures
            v@ == normal_of(*self, point@),
            in_box(v@, FP as int),
        decreases *self,
    {
        proof {
            lemma_shift_nonneg(*self);
        }
        match self {
            Sdf::Sphere(_) => gradient_normal(self, point),
            Sdf::Plane(_) => gradient_normal(self, point),
            Sdf::Disk(_) => gradient_normal(self, point),
            Sdf::Face(f) => f.normal,
            Sdf::Empty(_) => gradient_normal(self, point),
            Sdf::Union(a, b) => {
                proof {
                    lemma_shift_nonneg(**a);
                    lemma_shift_nonneg(**b);
                }
                let da = a.distance(point);
                let db = b.distance(point);
                if da < db {
                    a.normal(point)
                } else {
                    b.normal(point)
                }
            },
            Sdf::SmoothUnionPoly(_, _, _) => gradient_normal(self, point),
            Sdf::Intersection(a, b) => {
                proof {
                    lemma_shift_nonneg(**a);
                    lemma_shift_nonneg(**b);
                }
                let da = a.distance(point);
                let db = b.distance(point);
                if da < db {
                    a.normal(point)
                } else {
                    b.normal(point)
                }
            },
            Sdf::Difference(a, b) => {
                proof {
                    lemma_shift_nonneg(**a);
                    lemma_shift_nonneg(**b);
                }
                let da = a.distance(point);
                let db = b.distance(point);
                if da < -db {
                    a.normal(point)
                } else {
                    let n = b.normal(point);
                    Vec3 { x: -n.x, y: -n.y, z: -n.z }
                }
            },
            Sdf::Negation(a) => {
                let n = a.normal(point);
                Vec3 { x: -n.x, y: -n.y, z: -n.z }
            },
            Sdf::Translate(a, t) => {
                proof {
                    lemma_shift_nonneg(**a);
                }
                let q = point.diff(t);
                a.normal(&q)
            },
            Sdf::Scale(a, k) => {
                proof {
                    lemma_shift_nonneg(**a);
                    assert(max_shift(*self) == max_shift(**a));
                    assert(in_box(point@, P_NRM as int));
                    crate::math::lemma_mul_bound(point.x as int, FP as int, 0x80000000000000, 65536);
                    crate::math::lemma_mul_bound(point.y as int, FP as int, 0x80000000000000, 65536);
                    crate::math::lemma_mul_bound(point.z as int, FP as int, 0x80000000000000, 65536);
                }
                let qx = clamp_scaled(div_t((point.x as i128) * (FP as i128), *k as i128));
                let qy = clamp_scaled(div_t((point.y as i128) * (FP as i128), *k as i128));
                let qz = clamp_scaled(div_t((point.z as i128) * (FP as i128), *k as i128));
                let q = Vec3 { x: qx, y: qy, z: qz };
                a.normal(&q)
            },
            Sdf::Rotate(_, _, _, _) => gradient_normal(self, point),
            Sdf::Shaded(a, _) => a.normal(point),
        }
    }

    /// Wrap this tree in a union with another.
    pub fn union(self, other: Sdf) -> (s: Sdf)
        ensures
            s == Sdf::Union(Box::new(self), Box::new(other)),
    {
        Sdf::Union(Box::new(self), Box::new(other))
    }

    /// Blend this tree smoothly with another by the polynomial
    /// smooth-minimum with parameter `k`.
    pub fn smooth_union(self, other: Sdf, k: i64) -> (s: Sdf)
        ensures
            s == Sdf::SmoothUnionPoly(Box::new(self), Box::new(other), k),
    {
        Sdf::SmoothUnionPoly(Box::new(self), Box::new(other), k)
    }

    /// Wrap this tree in an intersection with another.
    pub fn intersection(self, other: Sdf) -> (s: Sdf)
        ensures
            s == Sdf::Intersection(Box::new(self), Box::new(other)),
    {
        Sdf::Intersection(Box::new(self), Box::new(other))
    }

    /// Subtract another tree from this one.
    pub fn difference(self, other: Sdf) -> (s: Sdf)
        ensures
            s == Sdf::Difference(Box::new(self), Box::new(other)),
    {
        Sdf::Difference(Box::new(self), Box::new(other))
    }

    /// Invert this tree: inside becomes outside.
    pub fn negate(self) -> (s: Sdf)
        ensures
            s == Sdf::Negation(Box::new(self)),
    {
        Sdf::Negation(Box::new(self))
    }

    /// Move this tree by an offset.
    pub fn translate(self, translation: Vec3) -> (s: Sdf)
        ensures
            s == Sdf::Translate(Box::new(self), translation),
    {
        Sdf::Translate(Box::new(self), translation)
    }

    /// Rescale this tree by a fixed-point factor.
    pub fn scale(self, scale: i64) -> (s: Sdf)
        ensures
            s == Sdf::Scale(Box::new(self), scale),
    {
        Sdf::Scale(Box::new(self), scale)
    }

    /// Turn this tree about an axis.  `axis` is a unit vector of the
    /// lattice; `cos` and `sin` are the angle's cosine and sine at unit
    /// scale, supplied by the caller since trigonometry is beyond
    /// lattice arithmetic.
    pub fn rotate(self, axis: Vec3, cos: i64, sin: i64) -> (s: Sdf)
        ensures
            s == Sdf::Rotate(Box::new(self), axis, cos, sin),
    {
        Sdf::Rotate(Box::new(self), axis, cos, sin)
    }

    /// Attach a material to this tree.
    pub fn shaded(self, mat: Material) -> (s: Sdf)
        ensures
            s == Sdf::Shaded(Box::new(self), mat),
    {
        Sdf::Shaded(Box::new(self), mat)
    }
}

/// Negating a tree twice leaves its distance unchanged, at every point.
pub proof fn lemma_negation_involution(x: Sdf, p: (int, int, int))
    ensures
        sd(Sdf::Negation(Box::new(Sdf::Negation(Box::new(x)))), p) == sd(x, p),
{
    let inner = Sdf::Negation(Box::new(x));
    assert(sd(Sdf::Negation(Box::new(inner)), p) == -sd(inner, p));
    assert(sd(inner, p) == -sd(x, p));
}

/// De Morgan for solids: carving `b` out of `a` is intersecting `a` with
/// the negation of `b`, distance for distance.
pub proof fn lemma_difference_de_morgan(a: Sdf, b: Sdf, p: (int, int, int))
    ensures
        sd(Sdf::Difference(Box::new(a), Box::new(b)), p) == sd(
            Sdf::Intersection(Box::new(a), Box::new(Sdf::Negation(Box::new(b)))),
            p,
        ),
{
    let neg = Sdf::Negation(Box::new(b));
    assert(sd(Sdf::Intersection(Box::new(a), Box::new(neg)), p) == smax(sd(a, p), sd(neg, p)));
    assert(sd(neg, p) == -sd(b, p));
    assert(sd(Sdf::Difference(Box::new(a), Box::new(b)), p) == smax(sd(a, p), -sd(b, p)));
}

/// Two nested translations compose: the distance is the child's at the
/// point moved back by the sum of the offsets.
pub proof fn lemma_translate_composition(x: Sdf, a: Vec3, b: Vec3, p: (int, int, int))
    ensures
        sd(Sdf::Translate(Box::new(Sdf::Translate(Box::new(x), a)), b), p) == sd(
            x,
            (p.0 - a@.0 - b@.0, p.1 - a@.1 - b@.1, p.2 - a@.2 - b@.2),
        ),
{
    let inner = Sdf::Translate(Box::new(x), a);
    assert(sd(Sdf::Translate(Box::new(inner), b), p) == sd(inner, sub_v(p, b@)));
    assert(sd(inner, sub_v(p, b@)) == sd(x, sub_v(sub_v(p, b@), a@)));
    assert(sub_v(sub_v(p, b@), a@) == (p.0 - a@.0 - b@.0, p.1 - a@.1 - b@.1, p.2 - a@.2 - b@.2));
}

/// A union varies no faster than its children: any bound on how much each
/// child's distance changes between two points bounds the union's change.
pub proof fn lemma_lipschitz_union(a: Sdf, b: Sdf, p: (int, int, int), q: (int, int, int), l: int)
    requires
        -l <= sd(a, p) - sd(a, q) <= l,
        -l <= sd(b, p) - sd(b, q) <= l,
    ensures
        -l <= sd(Sdf::Union(Box::new(a), Box::new(b)), p) - sd(
            Sdf::Union(Box::new(a), Box::new(b)),
            q,
        ) <= l,
{
}

/// An intersection varies no faster than its children.
pub proof fn lemma_lipschitz_intersection(
    a: Sdf,
    b: Sdf,
    p: (int, int, int),
    q: (int, int, int),
    l: int,
)
    requires
        -l <= sd(a, p) - sd(a, q) <= l,
        -l <= sd(b, p) - sd(b, q) <= l,
    ensures
        -l <= sd(Sdf::Intersection(Box::new(a), Box::new(b)), p) - sd(
            Sdf::Intersection(Box::new(a), Box::new(b)),
            q,
        ) <= l,
{
}

/// A difference varies no faster than its children.
pub proof fn lemma_lipschitz_difference(
    a: Sdf,
    b: Sdf,
    p: (int, int, int),
    q: (int, int, int),
    l: int,
)
    requires
        -l <= sd(a, p) - sd(a, q) <= l,
        -l <= sd(b, p) - sd(b, q) <= l,
    ensures
        -l <= sd(Sdf::Difference(Box::new(a), Box::new(b)), p) - sd(
            Sdf::Difference(Box::new(a), Box::new(b)),
            q,
        ) <= l,
{
}

/// A negation varies exactly as fast as its child.
pub proof fn lemma_lipschitz_negation(a: Sdf, p: (int, int, int), q: (int, int, int), l: int)
    requires
        -l <= sd(a, p) - sd(a, q) <= l,
    ensures
        -l <= sd(Sdf::Negation(Box::new(a)), p) - sd(Sdf::Negation(Box::new(a)), q) <= l,
{
}

/// A translation varies exactly as the child does under the same
/// displacement of both points.
pub proof fn lemma_lipschitz_translate(
    a: Sdf,
    t: Vec3,
    p: (int, int, int),
    q: (int, int, int),
    l: int,
)
    requires
        -l <= sd(a, sub_v(p, t@)) - sd(a, sub_v(q, t@)) <= l,
    ensures
        -l <= sd(Sdf::Translate(Box::new(a), t), p) - sd(Sdf::Translate(Box::new(a), t), q) <= l,
{
}


/// A rescaled tree varies at most `k / FP` times as fast as its child
/// does at the rescaled points, up to one lattice unit of rounding —
/// the scale factor is exactly the `max_scale` of the path.
pub proof fn lemma_lipschitz_scale(
    a: Sdf,
    k: i64,
    p: (int, int, int),
    q: (int, int, int),
    l: int,
)
    requires
        1 <= k <= K_MAX,
        0 <= l,
        -l <= sd(a, scale_pt(p, k as int)) - sd(a, scale_pt(q, k as int)) <= l,
    ensures
        -(tdiv(l * k, FP as int) + 1) <= sd(Sdf::Scale(Box::new(a), k), p) - sd(
            Sdf::Scale(Box::new(a), k),
            q,
        ) <= tdiv(l * k, FP as int) + 1,
{
    let d1 = sd(a, scale_pt(p, k as int));
    let d2 = sd(a, scale_pt(q, k as int));
    assert(d1 * k - d2 * k == (d1 - d2) * k && -(l * k) <= (d1 - d2) * k <= l * k)
        by (nonlinear_arith)
        requires
            -l <= d1 - d2 <= l,
            1 <= k,
            0 <= l,
    ;
    if d1 * k <= d2 * k {
        crate::math::lemma_tdiv_diff(d1 * k, d2 * k, FP as int);
        assert(tdiv(d2 * k - d1 * k, FP as int) <= tdiv(l * k, FP as int)) by {
            lemma_tdiv_mono(d2 * k - d1 * k, l * k, FP as int);
        }
        if tdiv(d1 * k, FP as int) <= tdiv(d2 * k, FP as int) {
            crate::math::lemma_clamp_d_diff(
                tdiv(d1 * k, FP as int),
                tdiv(d2 * k, FP as int),
            );
        }
    } else {
        crate::math::lemma_tdiv_diff(d2 * k, d1 * k, FP as int);
        assert(tdiv(d1 * k - d2 * k, FP as int) <= tdiv(l * k, FP as int)) by {
            lemma_tdiv_mono(d1 * k - d2 * k, l * k, FP as int);
        }
        if tdiv(d2 * k, FP as int) <= tdiv(d1 * k, FP as int) {
            crate::math::lemma_clamp_d_diff(
                tdiv(d2 * k, FP as int),
                tdiv(d1 * k, FP as int),
            );
        }
    }
}

/// Truncating division is monotone in the dividend.
proof fn lemma_tdiv_mono(x: int, y: int, b: int)
    requires
        b >= 1,
        x <= y,
    ensures
        tdiv(x, b) <= tdiv(y, b),
{
    crate::math::lemma_tdiv_diff(x, y, b);
}



/// A half-space's distance is Lipschitz on the lattice, with the
/// normal's length (one for a unit normal) as the factor and one unit of
/// rounding.
pub proof fn lemma_lipschitz_plane(pl: Plane, p: (int, int, int), q: (int, int, int))
    ensures
        ({
            let bound = tdiv(
                (norm_raw(pl.normal@) + 1) * (norm_raw(sub_v(p, q)) + 1),
                FP as int,
            ) + 1;
            -bound <= sd(Sdf::Plane(pl), p) - sd(Sdf::Plane(pl), q) <= bound
        }),
{
    let n = pl.normal@;
    let d = sub_v(p, q);
    crate::linear::lemma_dot_cauchy_schwarz(n, d);
    crate::linear::lemma_norm2_nonneg(n);
    crate::linear::lemma_norm2_nonneg(d);
    crate::math::lemma_isq(norm2_raw(n) as nat);
    crate::math::lemma_isq(norm2_raw(d) as nat);
    assert(dot_raw(n, p) - dot_raw(n, q) == dot_raw(n, d)) by (nonlinear_arith)
        requires
            dot_raw(n, p) == n.0 * p.0 + n.1 * p.1 + n.2 * p.2,
            dot_raw(n, q) == n.0 * q.0 + n.1 * q.1 + n.2 * q.2,
            dot_raw(n, d) == n.0 * (p.0 - q.0) + n.1 * (p.1 - q.1) + n.2 * (p.2 - q.2),
    ;
    let c = (norm_raw(n) + 1) * (norm_raw(d) + 1);
    if dot_raw(n, p) <= dot_raw(n, q) {
        crate::math::lemma_tdiv_diff(dot_raw(n, p), dot_raw(n, q), FP as int);
        lemma_tdiv_mono(dot_raw(n, q) - dot_raw(n, p), c, FP as int);
        crate::math::lemma_clamp_d_diff(
            tdiv(dot_raw(n, p), FP as int),
            tdiv(dot_raw(n, q), FP as int),
        );
    } else {
        crate::math::lemma_tdiv_diff(dot_raw(n, q), dot_raw(n, p), FP as int);
        lemma_tdiv_mono(dot_raw(n, p) - dot_raw(n, q), c, FP as int);
        crate::math::lemma_clamp_d_diff(
            tdiv(dot_raw(n, q), FP as int),
            tdiv(dot_raw(n, p), FP as int),
        );
    }
}

/// A ball's distance is Lipschitz on the lattice: between two points it
/// changes by at most their distance, plus one unit of rounding.
pub proof fn lemma_lipschitz_sphere(sp: Sphere, p: (int, int, int), q: (int, int, int))
    ensures
        -(norm_raw(sub_v(p, q)) + 1) <= sd(Sdf::Sphere(sp), p) - sd(Sdf::Sphere(sp), q) <= norm_raw(
            sub_v(p, q),
        ) + 1,
{
    crate::linear::lemma_norm_triangle(p, q);
    crate::linear::lemma_norm_triangle(q, p);
    assert(norm2_raw(sub_v(q, p)) == norm2_raw(sub_v(p, q))) by (nonlinear_arith)
        requires
            norm2_raw(sub_v(q, p)) == (q.0 - p.0) * (q.0 - p.0) + (q.1 - p.1) * (q.1 - p.1) + (q.2
                - p.2) * (q.2 - p.2),
            norm2_raw(sub_v(p, q)) == (p.0 - q.0) * (p.0 - q.0) + (p.1 - q.1) * (p.1 - q.1) + (p.2
                - q.2) * (p.2 - q.2),
    ;
    let np = norm_raw(p) as int;
    let nq = norm_raw(q) as int;
    if np - sp.radius <= nq - sp.radius {
        crate::math::lemma_clamp_d_diff(np - sp.radius, nq - sp.radius);
    } else {
        crate::math::lemma_clamp_d_diff(nq - sp.radius, np - sp.radius);
    }
}

/// The surface of a ball: the reported distance is small exactly where
/// the lattice norm of the point is within that tolerance of the radius.
pub proof fn lemma_sphere_surface(sp: Sphere, p: (int, int, int), e: int)
    requires
        0 < sp.radius <= G_MAX,
        0 < e <= D_MAX,
    ensures
        (-e < sd(Sdf::Sphere(sp), p) < e) <==> (sp.radius - e < norm_raw(p) < sp.radius + e),
{
    crate::linear::lemma_norm2_nonneg(p);
    crate::math::lemma_isq(norm2_raw(p) as nat);
}

/// The surface of a half-space: the reported distance is small exactly
/// where the component along the normal is small.
pub proof fn lemma_plane_surface(pl: Plane, p: (int, int, int), e: int)
    requires
        0 < e <= D_MAX,
    ensures
        (-e < sd(Sdf::Plane(pl), p) < e) <==> (-e < tdiv(dot_raw(pl.normal@, p), FP as int) < e),
{
}

/// The surface of a disk: the reported distance is small exactly where
/// both the plane and the bounding sphere are within tolerance on the
/// near side, and the nearer of the two is within it in magnitude.
pub proof fn lemma_disk_surface(dk: Disk, p: (int, int, int), e: int)
    requires
        0 < dk.radius <= G_MAX,
        0 < e <= D_MAX,
    ensures
        (-e < sd(Sdf::Disk(dk), p) < e) <==> {
            let pd = tdiv(dot_raw(dk.normal@, p), FP as int);
            let sp = norm_raw(p) - dk.radius;
            -e < smax(pd, sp) < e
        },
{
    crate::linear::lemma_norm2_nonneg(p);
    crate::math::lemma_isq(norm2_raw(p) as nat);
}


/// Probe the distance on both sides of a point along each axis and
/// normalize the differences.
fn gradient_normal(s: &Sdf, point: &Vec3) -> (v: Vec3)
    requires
        wf(*s),
        0 <= max_shift(*s) <= SHIFT_MAX,
        0 <= eps_of(*s) <= G_MAX,
        in_box(point@, P_NRM - max_shift(*s)),
    ensures
        v@ == grad_normal(*s, point@),
        in_box(v@, FP as int),
{
    let e = s.epsilon();
    let px = s.distance(&Vec3 { x: point.x + e, y: point.y, z: point.z });
    let mx = s.distance(&Vec3 { x: point.x - e, y: point.y, z: point.z });
    let py = s.distance(&Vec3 { x: point.x, y: point.y + e, z: point.z });
    let my = s.distance(&Vec3 { x: point.x, y: point.y - e, z: point.z });
    let pz = s.distance(&Vec3 { x: point.x, y: point.y, z: point.z + e });
    let mz = s.distance(&Vec3 { x: point.x, y: point.y, z: point.z - e });
    let g = Vec3 { x: px - mx, y: py - my, z: pz - mz };
    proof {
        crate::linear::lemma_normalized_small(g@);
        if crate::linear::norm2_raw(g@) == 0 {
            crate::linear::lemma_norm2_zero(g@);
        }
    }
    g.normalize()
}

/// Rotate a query point about a unit axis by the angle with the given
/// cosine and sine, clamping the result into the inner box.
fn rotate_query(p: &Vec3, axis: &Vec3, cos: i64, sin: i64) -> (q: Vec3)
    requires
        in_box(p@, P_IN as int),
        in_box(axis@, FP as int),
        -FP <= cos <= FP,
        -(2 * FP) <= sin <= 2 * FP,
    ensures
        ({
            let r = crate::linear::rodrigues_v(p@, axis@, cos as int, sin as int);
            q@ == (
                clamp1(r.0, P_SC as int),
                clamp1(r.1, P_SC as int),
                clamp1(r.2, P_SC as int),
            )
        }),
{
    proof {
        crate::math::lemma_mul_bound(axis@.1, p@.2, FP as int, P_IN as int);
        crate::math::lemma_mul_bound(axis@.2, p@.1, FP as int, P_IN as int);
        crate::math::lemma_mul_bound(axis@.2, p@.0, FP as int, P_IN as int);
        crate::math::lemma_mul_bound(axis@.0, p@.2, FP as int, P_IN as int);
        crate::math::lemma_mul_bound(axis@.0, p@.1, FP as int, P_IN as int);
        crate::math::lemma_mul_bound(axis@.1, p@.0, FP as int, P_IN as int);
        assert((FP as int) * (P_IN as int) == 0x800000000000000000 && (FP as int)
            * 0x200000000000000 == 0x2000000000000000000 && (FP as int) * 0x300000000000000
            == 0x3000000000000000000 && (FP as int) * 0x400000000000000
            == 0x4000000000000000000 && (FP as int) * 0x600000000000000
            == 0x6000000000000000000) by (nonlinear_arith)
            requires
                FP == 65536,
                P_IN == 0x80000000000000,
        ;
        crate::math::lemma_mul_bound(axis@.0, p@.0, FP as int, P_IN as int);
        crate::math::lemma_mul_bound(axis@.1, p@.1, FP as int, P_IN as int);
        crate::math::lemma_mul_bound(axis@.2, p@.2, FP as int, P_IN as int);
        lemma_tdiv_bound(axis@.1 * p@.2 - axis@.2 * p@.1, FP as int, 0x200000000000000);
        lemma_tdiv_bound(axis@.2 * p@.0 - axis@.0 * p@.2, FP as int, 0x200000000000000);
        lemma_tdiv_bound(axis@.0 * p@.1 - axis@.1 * p@.0, FP as int, 0x200000000000000);
    }
    let kx = div_t(
        (axis.y as i128) * (p.z as i128) - (axis.z as i128) * (p.y as i128),
        FP as i128,
    ) as i64;
    let ky = div_t(
        (axis.z as i128) * (p.x as i128) - (axis.x as i128) * (p.z as i128),
        FP as i128,
    ) as i64;
    let kz = div_t(
        (axis.x as i128) * (p.y as i128) - (axis.y as i128) * (p.x as i128),
        FP as i128,
    ) as i64;
    let dotkp = (axis.x as i128) * (p.x as i128) + (axis.y as i128) * (p.y as i128)
        + (axis.z as i128) * (p.z as i128);
    proof {
        lemma_tdiv_bound(dotkp as int, FP as int, 0x300000000000000);
    }
    let kdv = div_t(dotkp, FP as i128) as i64;
    proof {
        crate::math::lemma_mul_bound(kdv as int, (FP - cos) as int, 0x300000000000000, 0x20000);
        assert(0x300000000000000 * 0x20000 == 0x6000000000000000000int) by (nonlinear_arith);
        lemma_tdiv_bound((kdv * (FP - cos)) as int, FP as int, 0x600000000000000);
    }
    let t3 = div_t((kdv as i128) * ((FP - cos) as i128), FP as i128) as i64;
    proof {
        crate::math::lemma_mul_bound(p@.0, cos as int, P_IN as int, FP as int);
        crate::math::lemma_mul_bound(p@.1, cos as int, P_IN as int, FP as int);
        crate::math::lemma_mul_bound(p@.2, cos as int, P_IN as int, FP as int);
        crate::math::lemma_mul_bound(kx as int, sin as int, 0x200000000000000, 0x20000);
        crate::math::lemma_mul_bound(ky as int, sin as int, 0x200000000000000, 0x20000);
        crate::math::lemma_mul_bound(kz as int, sin as int, 0x200000000000000, 0x20000);
        crate::math::lemma_mul_bound(axis@.0, t3 as int, FP as int, 0x600000000000000);
        crate::math::lemma_mul_bound(axis@.1, t3 as int, FP as int, 0x600000000000000);
        crate::math::lemma_mul_bound(axis@.2, t3 as int, FP as int, 0x600000000000000);
        assert(0x200000000000000 * 0x20000 == 0x4000000000000000000int) by (nonlinear_arith);
        assert((FP as int) * 0x600000000000000 == 0x6000000000000000000int) by (nonlinear_arith)
            requires
                FP == 65536,
        ;
        lemma_tdiv_bound((p.x * cos) as int, FP as int, 0x80000000000000);
        lemma_tdiv_bound((p.y * cos) as int, FP as int, 0x80000000000000);
        lemma_tdiv_bound((p.z * cos) as int, FP as int, 0x80000000000000);
        lemma_tdiv_bound((kx * sin) as int, FP as int, 0x400000000000000);
        lemma_tdiv_bound((ky * sin) as int, FP as int, 0x400000000000000);
        lemma_tdiv_bound((kz * sin) as int, FP as int, 0x400000000000000);
        lemma_tdiv_bound((axis.x * t3) as int, FP as int, 0x600000000000000);
        lemma_tdiv_bound((axis.y * t3) as int, FP as int, 0x600000000000000);
        lemma_tdiv_bound((axis.z * t3) as int, FP as int, 0x600000000000000);
    }
    let rx = div_t((p.x as i128) * (cos as i128), FP as i128) as i64 + div_t(
        (kx as i128) * (sin as i128),
        FP as i128,
    ) as i64 + div_t((axis.x as i128) * (t3 as i128), FP as i128) as i64;
    let ry = div_t((p.y as i128) * (cos as i128), FP as i128) as i64 + div_t(
        (ky as i128) * (sin as i128),
        FP as i128,
    ) as i64 + div_t((axis.y as i128) * (t3 as i128), FP as i128) as i64;
    let rz = div_t((p.z as i128) * (cos as i128), FP as i128) as i64 + div_t(
        (kz as i128) * (sin as i128),
        FP as i128,
    ) as i64 + div_t((axis.z as i128) * (t3 as i128), FP as i128) as i64;
    Vec3 {
        x: clamp_scaled(rx as i128),
        y: clamp_scaled(ry as i128),
        z: clamp_scaled(rz as i128),
    }
}

/// Clamp a rescaled coordinate into the inner box.
fn clamp_scaled(x: i128) -> (r: i64)
    ensures
        r == clamp1(x as int, P_SC as int),
{
    if x > P_SC as i128 {
        P_SC
    } else if x < -(P_SC as i128) {
        -P_SC
    } else {
        x as i64
    }
}

} // verus!
