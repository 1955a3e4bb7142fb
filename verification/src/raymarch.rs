//! The sphere tracer: march a ray by the field's own distance until the
//! residual falls within the surface tolerance, or the far plane or the
//! step budget is exceeded.

use vstd::prelude::*;
use crate::linear::{Vec3, Ray, in_box, norm2_raw, sub_v, normalize_v, add_scaled};
use crate::math::{tdiv, FP, D_MAX};
use crate::mat::{Material, default_material};
use crate::sdf::{Sdf, sd, eps_of, mat_at, normal_of, wf, max_shift, SHIFT_MAX};

verus! {

/// Bound on a ray origin's coordinates and on the far plane.
pub const R_MAX: i64 = 0x4000000000;

/// Iterations after which a march is abandoned as a miss.
pub const MAX_MARCH_STEPS: u32 = 100000;

/// A surface hit: where the march stopped, the residual distance there,
/// the outward normal and the governing material.
pub struct RayHit {
    pub ray: Ray,
    pub point: Vec3,
    pub distance: i64,
    pub normal: Vec3,
    pub material: Material,
}

/// What a hit carries: the ray is the one that was cast, the point lies
/// within the far sphere around the origin, the residual distance there
/// is the field's own and is within tolerance, and normal and material
/// are the field's at that point.  The point itself is fixed by `march`
/// in the tracer's contract.
pub open spec fn hit_ok(h: RayHit, ray: Ray, s: Sdf, far_plane: int) -> bool {
    &&& h.ray == ray
    &&& h.distance == sd(s, h.point@)
    &&& h.distance <= eps_of(s)
    &&& norm2_raw(sub_v(h.point@, ray.origin@)) < far_plane * far_plane
    &&& h.normal@ == normal_of(s, h.point@)
    &&& h.material == match mat_at(s, h.point@) {
        Some(m) => m,
        None => default_material(),
    }
}

/// The march itself, as a recursion on the remaining step budget: from
/// `p`, step by the field's own distance along `dir` until the residual
/// falls within tolerance (a hit at that point), the far sphere around
/// `origin` is left, or the budget runs out (a miss).
pub open spec fn march(
    s: Sdf,
    origin: (int, int, int),
    dir: (int, int, int),
    p: (int, int, int),
    far_plane: int,
    fuel: nat,
) -> Option<(int, int, int)>
    decreases fuel,
{
    if sd(s, p) <= eps_of(s) {
        Some(p)
    } else if fuel == 0 {
        None
    } else {
        let q = add_scaled(p, sd(s, p), dir);
        if norm2_raw(sub_v(q, origin)) >= far_plane * far_plane {
            None
        } else {
            march(s, origin, dir, q, far_plane, (fuel - 1) as nat)
        }
    }
}

/// The whole march of a ray: from its origin, along its normalized
/// direction, with the full step budget.
pub open spec fn march_of(s: Sdf, ray: Ray, far_plane: int) -> Option<(int, int, int)> {
    march(
        s,
        ray.origin@,
        normalize_v(ray.direction@),
        ray.origin@,
        far_plane,
        MAX_MARCH_STEPS as nat,
    )
}


/// The canonical primary ray: cast from five units out straight at a
/// unit ball, the march of the contract hits the near surface, one unit
/// before the origin, exactly.
pub proof fn lemma_unit_sphere_hit()
    ensures
        ({
            let s = Sdf::Sphere(crate::sdf::Sphere { radius: FP });
            let ray = Ray {
                origin: Vec3 { x: 0, y: 0, z: (-327680) as i64 },
                direction: Vec3 { x: 0, y: 0, z: FP },
            };
            march_of(s, ray, 65536000) == Some((0int, 0int, -65536int))
        }),
{
    let s = Sdf::Sphere(crate::sdf::Sphere { radius: FP });
    let o = (0int, 0int, -327680int);
    let d = (0int, 0int, 65536int);
    assert(0int * 0 == 0 && 0int * 65536 == 0 && 65536int * 65536 == 0x100000000 && 65537int
        * 65537 == 0x100020001 && 327680int * 327680 == 107374182400 && 327681int * 327681
        == 107374837761 && 262144int * 0 == 0 && 262144int * 65536 == 0x400000000 && 262144int
        * 262144 == 0x1000000000 && 65536000int * 65536000 == 4294967296000000 && (-327680int)
        * (-327680) == 107374182400 && (-65536int) * (-65536) == 0x100000000)
        by (nonlinear_arith);
    // the direction is already a unit vector of the lattice
    assert(norm2_raw(d) == 0x100000000);
    crate::math::lemma_isq_unique(0x100000000, 65536);
    assert(tdiv(0, 65536int) == 0);
    assert(tdiv(0x100000000, 65536int) == 0x10000);
    let dir = normalize_v(d);
    assert(dir == d);
    // five units out the ball reports four units of room
    assert(norm2_raw(o) == 107374182400);
    crate::math::lemma_isq_unique(107374182400nat, 327680);
    assert(sd(s, o) == crate::math::clamp_d(327680 - 65536));
    assert(sd(s, o) == 262144);
    assert(eps_of(s) == 6);
    // one step of four units lands on the surface
    assert(tdiv(0x400000000, 65536int) == 0x40000);
    let q = add_scaled(o, 262144, d);
    assert(q == (0int, 0int, -65536int));
    assert(norm2_raw(sub_v(q, o)) == 0x1000000000);
    assert(norm2_raw(sub_v(q, o)) < 65536000 * 65536000);
    // there the residual is zero, within tolerance: a hit
    assert(norm2_raw(q) == 0x100000000);
    assert(sd(s, q) == crate::math::clamp_d(65536 - 65536));
    assert(sd(s, q) == 0);
    let ray = Ray { origin: Vec3 { x: 0, y: 0, z: (-327680) as i64 }, direction: Vec3 { x: 0, y: 0, z: FP } };
    assert(march(s, o, d, q, 65536000, (MAX_MARCH_STEPS - 1) as nat) == Some(q));
    assert(march(s, o, d, o, 65536000, MAX_MARCH_STEPS as nat) == Some(q));
    assert(march_of(s, ray, 65536000) == Some(q));
}

/// A coordinate box follows from a bound on the squared norm.
proof fn lemma_box_from_norm2(v: (int, int, int), b: int)
    requires
        b >= 0,
        norm2_raw(v) < b * b,
    ensures
        in_box(v, b),
{
    assert(in_box(v, b)) by (nonlinear_arith)
        requires
            b >= 0,
            norm2_raw(v) < b * b,
            norm2_raw(v) == v.0 * v.0 + v.1 * v.1 + v.2 * v.2,
    ;
}

/// March `ray` through the field `sdf` until the residual distance is
/// within tolerance.  The result is exactly what `march_of` prescribes:
/// a hit at the marched point, or a miss only where the march leaves the
/// far sphere or exhausts the step budget first.
pub fn raymarch(ray: &Ray, sdf: &Sdf, far_plane: i64) -> (r: Option<RayHit>)
    requires
        wf(*sdf),
        max_shift(*sdf) <= SHIFT_MAX,
        in_box(ray.origin@, R_MAX as int),
        in_box(ray.direction@, 0x80000000000000),
        0 < far_plane <= R_MAX,
    ensures
        match r {
            Some(h) => march_of(*sdf, *ray, far_plane as int) == Some(h.point@) && hit_ok(
                h,
                *ray,
                *sdf,
                far_plane as int,
            ),
            None => march_of(*sdf, *ray, far_plane as int) is None,
        },
{
    let mut point = ray.origin;
    let direction = ray.direction.normalize();
    proof {
        assert(in_box(direction@, FP as int));
        crate::sdf::lemma_shift_nonneg(*sdf);
    }
    let mut distance = sdf.distance(&point);
    let epsilon = sdf.epsilon();
    let mut steps: u32 = 0;
    while distance > epsilon && steps < MAX_MARCH_STEPS
        invariant
            wf(*sdf),
            max_shift(*sdf) <= SHIFT_MAX,
            0 <= max_shift(*sdf),
            in_box(ray.origin@, R_MAX as int),
            in_box(direction@, FP as int),
            0 < far_plane <= R_MAX,
            epsilon == eps_of(*sdf),
            distance == sd(*sdf, point@),
            -D_MAX <= distance <= D_MAX,
            in_box(point@, 0x8000000000),
            norm2_raw(sub_v(point@, ray.origin@)) < far_plane * far_plane || point@
                == ray.origin@,
            steps <= MAX_MARCH_STEPS,
            direction@ == normalize_v(ray.direction@),
            march(
                *sdf,
                ray.origin@,
                direction@,
                point@,
                far_plane as int,
                (MAX_MARCH_STEPS - steps) as nat,
            ) == march_of(*sdf, *ray, far_plane as int),
        decreases MAX_MARCH_STEPS - steps,
    {
        let ghost old_point = point@;
        let ghost old_fuel = (MAX_MARCH_STEPS - steps) as nat;
        steps = steps + 1;
        proof {
            crate::math::lemma_mul_bound(distance as int, direction@.0, D_MAX as int, FP as int);
            crate::math::lemma_mul_bound(distance as int, direction@.1, D_MAX as int, FP as int);
            crate::math::lemma_mul_bound(distance as int, direction@.2, D_MAX as int, FP as int);
            assert((D_MAX as int) * (FP as int) == 0x200000000000000000) by (nonlinear_arith)
                requires
                    D_MAX == 0x20000000000000,
                    FP == 65536,
            ;
            crate::math::lemma_tdiv_bound(
                distance * direction@.0,
                FP as int,
                D_MAX as int,
            );
            crate::math::lemma_tdiv_bound(
                distance * direction@.1,
                FP as int,
                D_MAX as int,
            );
            crate::math::lemma_tdiv_bound(
                distance * direction@.2,
                FP as int,
                D_MAX as int,
            );
        }
        point = point.add(distance, &direction);
        distance = sdf.distance(&point);
        let dx = (point.x - ray.origin.x) as i128;
        let dy = (point.y - ray.origin.y) as i128;
        let dz = (point.z - ray.origin.z) as i128;
        proof {
            crate::math::lemma_mul_bound(dx as int, dx as int, 0x80000000000000, 0x80000000000000);
            crate::math::lemma_mul_bound(dy as int, dy as int, 0x80000000000000, 0x80000000000000);
            crate::math::lemma_mul_bound(dz as int, dz as int, 0x80000000000000, 0x80000000000000);
            assert(0x80000000000000 * 0x80000000000000 == 0x4000000000000000000000000000int)
                by (nonlinear_arith);
            crate::linear::lemma_norm2_nonneg(sub_v(point@, ray.origin@));
            crate::math::lemma_mul_bound(
                far_plane as int,
                far_plane as int,
                R_MAX as int,
                R_MAX as int,
            );
        }
        let d2 = dx * dx + dy * dy + dz * dz;
        if d2 >= (far_plane as i128) * (far_plane as i128) {
            proof {
                assert(march(
                    *sdf,
                    ray.origin@,
                    direction@,
                    old_point,
                    far_plane as int,
                    old_fuel,
                ) is None);
            }
            return None;
        }
        proof {
            lemma_box_from_norm2(sub_v(point@, ray.origin@), far_plane as int);
            assert(march(*sdf, ray.origin@, direction@, old_point, far_plane as int, old_fuel)
                == march(
                *sdf,
                ray.origin@,
                direction@,
                point@,
                far_plane as int,
                (old_fuel - 1) as nat,
            ));
        }
    }
    if distance > epsilon {
        proof {
            assert(march(
                *sdf,
                ray.origin@,
                direction@,
                point@,
                far_plane as int,
                (MAX_MARCH_STEPS - steps) as nat,
            ) is None);
        }
        return None;
    }
    proof {
        assert(march(
            *sdf,
            ray.origin@,
            direction@,
            point@,
            far_plane as int,
            (MAX_MARCH_STEPS - steps) as nat,
        ) == Some(point@));
    }
    proof {
        if point@ == ray.origin@ {
            let v = sub_v(point@, ray.origin@);
            assert(v == (0int, 0int, 0int));
            assert(norm2_raw(v) == 0) by (nonlinear_arith)
                requires
                    v == (0int, 0int, 0int),
                    norm2_raw(v) == v.0 * v.0 + v.1 * v.1 + v.2 * v.2,
            ;
            assert(0 < far_plane * far_plane) by (nonlinear_arith)
                requires
                    far_plane >= 1,
            ;
        }
    }
    let normal = sdf.normal(&point);
    let material = match sdf.material(&point) {
        Some(m) => m,
        None => Material::new(),
    };
    Some(RayHit { ray: *ray, point, distance, normal, material })
}

impl Sdf {
    /// March a ray against this field; see `raymarch`.
    pub fn raymarch(&self, ray: &Ray, far_plane: i64) -> (r: Option<RayHit>)
        requires
            wf(*self),
            max_shift(*self) <= SHIFT_MAX,
            in_box(ray.origin@, R_MAX as int),
            in_box(ray.direction@, 0x80000000000000),
            0 < far_plane <= R_MAX,
        ensures
            match r {
                Some(h) => march_of(*self, *ray, far_plane as int) == Some(h.point@) && hit_ok(
                    h,
                    *ray,
                    *self,
                    far_plane as int,
                ),
                None => march_of(*self, *ray, far_plane as int) is None,
            },
    {
        raymarch(ray, self, far_plane)
    }
}

} // verus!
