use raymarcher::linear::{Basis, Frame, Ray, Vec3};
use raymarcher::math::{D_MAX, FP};
use raymarcher::raymarch::raymarch;
use raymarcher::sdf::{Disk, EmptySDF, Plane, PolyFace, Sdf, Sphere};

#[test]
fn cross_product() {
    // right-hand rule ...
    assert_eq!(Vec3::forward(), Vec3::cross(&Vec3::right(), &Vec3::up()));
}

#[test]
fn basis() {}

#[test]
fn sphere_sdf() {
    // distance from unit sphere at origin
    let f = Sphere::new(FP);
    assert_eq!(f.distance(&Vec3::right()), 0);
    assert_eq!(f.distance(&Vec3::up()), 0);
    assert_eq!(f.distance(&Vec3::down()), 0);
    assert_eq!(f.distance(&Vec3::new(2 * FP, 0, 0)), FP);
    assert_eq!(f.distance(&Vec3::zero()), -FP);
}

#[test]
fn plane_and_disk() {
    let p = Plane::new(Vec3::up());
    assert_eq!(p.distance(&Vec3::new(0, 3 * FP, 0)), 3 * FP);
    assert_eq!(p.distance(&Vec3::new(7, -2 * FP, 9)), -2 * FP);
    let d = Disk::new(Vec3::up(), 2 * FP);
    // on the plane inside the radius: the plane term wins at zero
    assert_eq!(d.distance(&Vec3::new(FP, 0, 0)), 0);
    // above the plane: the plane distance dominates
    assert_eq!(d.distance(&Vec3::new(0, FP, 0)), FP);
    // far out on the plane: the sphere cap dominates
    assert_eq!(d.distance(&Vec3::new(5 * FP, 0, 0)), 3 * FP);
}

#[test]
fn empty_is_far() {
    let e = EmptySDF {};
    assert_eq!(e.distance(&Vec3::zero()), D_MAX);
    assert_eq!(e.epsilon(), FP);
}

#[test]
fn csg_distances() {
    let a = Sdf::Sphere(Sphere::new(FP));
    let b = Sdf::Sphere(Sphere::new(2 * FP));
    let p = Vec3::new(3 * FP, 0, 0);
    let da = a.distance(&p);
    let db = b.distance(&p);
    let union = Sdf::Sphere(Sphere::new(FP)).union(Sdf::Sphere(Sphere::new(2 * FP)));
    let inter = Sdf::Sphere(Sphere::new(FP)).intersection(Sdf::Sphere(Sphere::new(2 * FP)));
    let diff = Sdf::Sphere(Sphere::new(FP)).difference(Sdf::Sphere(Sphere::new(2 * FP)));
    assert_eq!(union.distance(&p), da.min(db));
    assert_eq!(inter.distance(&p), da.max(db));
    assert_eq!(diff.distance(&p), da.max(-db));
}

#[test]
fn negation_involution_concrete() {
    let x = Sdf::Sphere(Sphere::new(FP)).translate(Vec3::new(FP, 0, 0));
    let nn = Sdf::Sphere(Sphere::new(FP)).translate(Vec3::new(FP, 0, 0)).negate().negate();
    let p = Vec3::new(3 * FP, 2 * FP, -FP);
    assert_eq!(nn.distance(&p), x.distance(&p));
}

#[test]
fn de_morgan_concrete() {
    let p = Vec3::new(FP / 2, FP / 3, 0);
    let diff = Sdf::Sphere(Sphere::new(2 * FP)).difference(Sdf::Sphere(Sphere::new(FP)));
    let inter = Sdf::Sphere(Sphere::new(2 * FP)).intersection(Sdf::Sphere(Sphere::new(FP)).negate());
    assert_eq!(diff.distance(&p), inter.distance(&p));
}

#[test]
fn translate_composition_concrete() {
    let twice = Sdf::Sphere(Sphere::new(FP))
        .translate(Vec3::new(FP, 0, 0))
        .translate(Vec3::new(0, 2 * FP, 0));
    let plain = Sdf::Sphere(Sphere::new(FP));
    let p = Vec3::new(4 * FP, 5 * FP, 6 * FP);
    let moved_back = Vec3::new(4 * FP - FP, 5 * FP - 2 * FP, 6 * FP);
    assert_eq!(twice.distance(&p), plain.distance(&moved_back));
}

#[test]
fn lipschitz_union_concrete() {
    // the union of two spheres moves no faster than the points do
    let u = Sdf::Sphere(Sphere::new(FP)).union(
        Sdf::Sphere(Sphere::new(FP)).translate(Vec3::new(3 * FP, 0, 0)),
    );
    let p = Vec3::new(0, 2 * FP, 0);
    let q = Vec3::new(FP, 2 * FP, 0);
    let moved = (u.distance(&p) - u.distance(&q)).abs();
    let apart = p.dist(&q);
    assert!(moved <= apart);
}

#[test]
fn raymarch_unit_sphere() {
    // primary ray from (0,0,-5) toward +z must hit (0,0,-1) head on
    let s = Sdf::Sphere(Sphere::new(FP));
    let ray = Ray::new(Vec3::new(0, 0, -5 * FP), Vec3::new(0, 0, FP));
    let hit = raymarch(&ray, &s, 1000 * FP).expect("must hit");
    assert_eq!(hit.point, Vec3::new(0, 0, -FP));
    assert_eq!(hit.distance, 0);
    assert_eq!(hit.normal, Vec3::new(0, 0, -FP));
}

#[test]
fn raymarch_miss() {
    let s = Sdf::Sphere(Sphere::new(FP));
    let ray = Ray::new(Vec3::new(0, 0, -5 * FP), Vec3::new(0, 0, -FP));
    assert!(raymarch(&ray, &s, 1000 * FP).is_none());
}

#[test]
fn raymarch_shaded_material() {
    let mut m = raymarcher::mat::Material::new();
    m.reflectivity = FP / 2;
    let s = Sdf::Sphere(Sphere::new(FP)).shaded(m);
    let ray = Ray::new(Vec3::new(0, 0, -5 * FP), Vec3::new(0, 0, FP));
    let hit = raymarch(&ray, &s, 1000 * FP).expect("must hit");
    assert_eq!(hit.material.reflectivity, FP / 2);
}

#[test]
fn polyface_distance() {
    // a unit square in the xy plane
    let verts = vec![
        Vec3::new(-FP, -FP, 0),
        Vec3::new(FP, -FP, 0),
        Vec3::new(FP, FP, 0),
        Vec3::new(-FP, FP, 0),
    ];
    let f = PolyFace::new(verts);
    // the centroid is the origin and the normal points along an axis
    assert_eq!(f.centroid, Vec3::zero());
    assert_eq!(f.normal.x, 0);
    assert_eq!(f.normal.y, 0);
    assert_eq!(f.normal.z.abs(), FP);
    // a point one unit along the normal is about one unit away
    let d = f.distance(&Vec3::new(0, 0, f.normal.z));
    assert!((d - FP).abs() <= 2);
    // a degenerate face is empty
    let empty = PolyFace::new(vec![Vec3::zero()]);
    assert_eq!(empty.distance(&Vec3::zero()), D_MAX);
}

#[test]
fn frame_projection_roundtrip() {
    let f = Frame::new(
        Vec3::new(FP, 2 * FP, 0),
        Vec3::right(),
        Vec3::up(),
        Vec3::forward(),
    );
    let local = Vec3::new(3 * FP, -FP, FP / 2);
    let world = f.project_point(&local);
    assert_eq!(world, Vec3::new(4 * FP, FP, FP / 2));
    let back = f.unproject_point(&world);
    assert_eq!(back, local);
    let b = Basis::identity();
    assert_eq!(b.project(&local), local);
}

#[test]
fn normalize_and_norm() {
    let v = Vec3::new(3 * FP, 4 * FP, 0);
    assert_eq!(v.norm(), 5 * FP);
    let n = v.normalize();
    // a unit vector at lattice scale
    assert!((n.norm() - FP).abs() <= 2);
    assert_eq!(Vec3::zero().normalize(), Vec3::zero());
}

#[test]
fn scaled_sphere() {
    // a unit sphere doubled: surface at two units
    let s = Sdf::Sphere(Sphere::new(FP)).scale(2 * FP);
    assert_eq!(s.distance(&Vec3::new(2 * FP, 0, 0)), 0);
    assert_eq!(s.distance(&Vec3::new(4 * FP, 0, 0)), 2 * FP);
    assert_eq!(s.distance(&Vec3::zero()), -2 * FP);
    // the tolerance stays the child's
    assert_eq!(s.epsilon(), Sphere::new(FP).epsilon());
}

#[test]
fn union_material_picks_nearer_child() {
    let mut red = raymarcher::mat::Material::new();
    red.diffuse = raymarcher::mat::Color::new(65535, 0, 0);
    let mut blue = raymarcher::mat::Material::new();
    blue.diffuse = raymarcher::mat::Color::new(0, 0, 65535);
    let a = Sdf::Sphere(Sphere::new(FP)).translate(Vec3::new(-3 * FP, 0, 0)).shaded(red);
    let b = Sdf::Sphere(Sphere::new(FP)).translate(Vec3::new(3 * FP, 0, 0)).shaded(blue);
    let u = a.union(b);
    let near_a = u.material(&Vec3::new(-3 * FP, 0, 0)).expect("shaded");
    assert_eq!(near_a.diffuse, red.diffuse);
    let near_b = u.material(&Vec3::new(3 * FP, 0, 0)).expect("shaded");
    assert_eq!(near_b.diffuse, blue.diffuse);
}

#[test]
fn negated_scene_traces_far_surface() {
    // from inside a sphere, the negated field reports the way out
    let s = Sdf::Sphere(Sphere::new(2 * FP)).negate();
    assert_eq!(s.distance(&Vec3::zero()), 2 * FP);
    // its normal points back into the solid
    let n = s.normal(&Vec3::new(2 * FP, 0, 0));
    assert!(n.x < 0);
}

#[test]
fn smooth_union_poly() {
    // spheres two units left and right; the blend parameter is a tenth
    // of a unit, as the scene format's default materials use
    let k = FP / 10;
    let u = Sdf::Sphere(Sphere::new(FP)).translate(Vec3::new(-2 * FP, 0, 0)).smooth_union(
        Sdf::Sphere(Sphere::new(FP)).translate(Vec3::new(2 * FP, 0, 0)),
        k,
    );
    // far from the seam the blend is the plain minimum
    let p = Vec3::new(-2 * FP, 0, 0);
    let one = Sdf::Sphere(Sphere::new(FP)).translate(Vec3::new(-2 * FP, 0, 0));
    assert_eq!(u.distance(&p), one.distance(&p));
    // on the seam both distances agree and the blend dips a quarter of
    // the parameter below them
    let mid = Vec3::zero();
    let d = u.distance(&mid);
    let plain = one.distance(&mid);
    assert_eq!(d, plain - 1638);
}

#[test]
fn rotated_sphere() {
    // a sphere two units along x, turned a quarter turn about the y
    // axis: its surface moves to the z axis
    let s = Sdf::Sphere(Sphere::new(FP)).translate(Vec3::new(2 * FP, 0, 0)).rotate(
        Vec3::up(),
        0,
        FP,
    );
    // the sphere's center moved onto the negative z axis
    let center = s.distance(&Vec3::new(0, 0, -2 * FP));
    assert!((center + FP).abs() <= 4, "rotated center distance {}", center);
    // and its surface sits one unit further out
    let surface = s.distance(&Vec3::new(0, 0, -3 * FP));
    assert!(surface.abs() <= 4, "rotated surface distance {}", surface);
}
