use raymarcher::math::FP;
use raymarcher::linear::Vec3;
use raymarcher::scene::{
    parse_commands, parse_line, parse_number, scene_parse, tokenize, LineRes, ParseErrorKind,
    Scene, SceneCommand, ViewTransform,
};

#[test]
fn tokenize_splits_on_whitespace() {
    let ts = tokenize("  sphere 1 \t 0  0 5 ");
    assert_eq!(ts, vec!["sphere", "1", "0", "0", "5"]);
    assert_eq!(tokenize("").len(), 0);
    assert_eq!(tokenize("   \t ").len(), 0);
}

#[test]
fn numbers_parse_exactly() {
    assert_eq!(parse_number("1"), Some(FP));
    assert_eq!(parse_number("1.5"), Some(FP + FP / 2));
    assert_eq!(parse_number("-0.25"), Some(-(FP / 4)));
    assert_eq!(parse_number("+2"), Some(2 * FP));
    assert_eq!(parse_number(".5"), Some(FP / 2));
    assert_eq!(parse_number("100"), Some(100 * FP));
    assert_eq!(parse_number(""), None);
    assert_eq!(parse_number("-"), None);
    assert_eq!(parse_number("1.2.3"), None);
    assert_eq!(parse_number("abc"), None);
    assert_eq!(parse_number("1e5"), None);
}

#[test]
fn line_commands() {
    assert_eq!(parse_line(""), LineRes::Blank);
    assert_eq!(parse_line("   # a comment"), LineRes::Blank);
    assert_eq!(parse_line("begin"), LineRes::Cmd(SceneCommand::Begin));
    assert_eq!(parse_line("end"), LineRes::Cmd(SceneCommand::End));
    assert_eq!(parse_line("write out.png"), LineRes::Cmd(SceneCommand::Write));
    assert_eq!(
        parse_line("vertex 1 2 3"),
        LineRes::Cmd(SceneCommand::Vertex(Vec3::new(FP, 2 * FP, 3 * FP)))
    );
    assert_eq!(parse_line("fov 60"), LineRes::Cmd(SceneCommand::Fov(60 * FP)));
    match parse_line("sphere 1 0 0 5") {
        LineRes::Cmd(SceneCommand::Sphere(r, c)) => {
            assert_eq!(r, FP);
            assert_eq!(c, Vec3::new(0, 0, 5 * FP));
        }
        other => panic!("unexpected: {:?}", other),
    }
}

#[test]
fn line_rejections() {
    assert_eq!(
        parse_line("warp 1 2"),
        LineRes::Reject(ParseErrorKind::UnknownCommand)
    );
    // wrong arity falls through to the unknown-command path
    assert_eq!(
        parse_line("sphere 1 0 0"),
        LineRes::Reject(ParseErrorKind::UnknownCommand)
    );
    assert_eq!(
        parse_line("sphere x 0 0 5"),
        LineRes::Reject(ParseErrorKind::BadNumber)
    );
    // a sphere of no radius renders nothing and is rejected
    assert_eq!(
        parse_line("sphere 0 0 0 5"),
        LineRes::Reject(ParseErrorKind::BadNumber)
    );
}

#[test]
fn commands_carry_line_numbers() {
    let src = "warp\n\nsphere 1 0 0 5\nsphere y 0 0 5\n";
    let (cmds, errs) = parse_commands(src);
    assert_eq!(cmds.len(), 1);
    assert_eq!(errs.len(), 2);
    assert_eq!(errs[0].line, 1);
    assert_eq!(errs[0].kind, ParseErrorKind::UnknownCommand);
    assert_eq!(errs[1].line, 4);
    assert_eq!(errs[1].kind, ParseErrorKind::BadNumber);
}

#[test]
fn four_mirror_spheres_scene() {
    let src = "fov 60\n\
               light -5 5 5 1 1 1\n\
               surface 1 0 0 0.1 0 0 1 1 1 10 1\n\
               sphere 1 0 0 5\n\
               sphere 1 -3 3 7\n\
               sphere 0.5 1 -2 4\n\
               sphere 0.2 -1 0.6 4.5\n\
               background 0.2 0.2 1\n";
    let (cmds, errs) = parse_commands(src);
    assert!(errs.is_empty());
    assert_eq!(cmds.len(), 8);
    let spheres = cmds
        .iter()
        .filter(|c| matches!(c, SceneCommand::Sphere(_, _)))
        .count();
    assert_eq!(spheres, 4);
    let (scene, errs2) = scene_parse(src);
    assert!(errs2.is_empty());
    assert_eq!(scene.lights.len(), 1);
    assert!(matches!(scene.view, ViewTransform::Persp(_)));
    assert_eq!(scene.far_plane, 1000 * FP);
}

#[test]
fn empty_scene_is_empty_field() {
    let scene = Scene::parse("# nothing here\n");
    assert_eq!(scene.sdf.distance(&Vec3::zero()), raymarcher::math::D_MAX);
    assert!(scene.lights.is_empty());
    assert!(matches!(scene.view, ViewTransform::Ortho(_)));
}

#[test]
fn background_scene_hits_everywhere() {
    let scene = Scene::parse("background 0.2 0.2 1\n");
    // the camera ray from the origin hits the inward-facing sphere
    let ray = scene.pixel_ray(32, 32, 64, 64, 0);
    let hit = scene.sdf.raymarch(&ray, scene.far_plane).expect("background must be hit");
    // ambient carries the parsed color: 0.2 of full intensity, truncated
    assert_eq!(hit.material.ambient.r, 13106);
    assert_eq!(hit.material.ambient.g, 13106);
    assert_eq!(hit.material.ambient.b, 65535);
    assert_eq!(hit.material.diffuse, raymarcher::mat::Color::black());
    // the corner pixel sees it too
    let ray0 = scene.pixel_ray(0, 0, 64, 64, 0);
    assert!(scene.sdf.raymarch(&ray0, scene.far_plane).is_some());
}

#[test]
fn ortho_sphere_scene() {
    // a unit sphere three units before an orthographic camera
    let scene = Scene::parse("surface 1 1 1 0 0 0 0 0 0 1 0\nsphere 1 0 0 3\n");
    let center = scene.pixel_ray(32, 32, 64, 64, 0);
    let hit = scene.sdf.raymarch(&center, scene.far_plane).expect("center pixel must hit");
    assert!((hit.point.z - 2 * FP).abs() <= hit.distance.abs() + 16);
    let corner = scene.pixel_ray(0, 0, 64, 64, 0);
    assert!(scene.sdf.raymarch(&corner, scene.far_plane).is_none());
    assert_eq!(hit.material.diffuse, raymarcher::mat::Color::white());
}

#[test]
fn perspective_center_ray() {
    let scene = Scene::parse("fov 60
");
    // tan(30 degrees) at lattice scale, supplied by the host
    let fov_tan = 37837;
    let ray = scene.pixel_ray(32, 32, 64, 64, fov_tan);
    // the center ray leaves the eye straight along the view axis
    assert_eq!(ray.origin, Vec3::zero());
    assert_eq!(ray.direction, Vec3::new(0, 0, -FP));
}

#[test]
fn polyface_scene_counts() {
    let src = "begin\nvertex -1 -1 0\nvertex 1 -1 0\nvertex 1 1 0\nend\n";
    let (cmds, errs) = parse_commands(src);
    assert!(errs.is_empty());
    assert_eq!(cmds.len(), 5);
    let scene = Scene::parse(src);
    // two units in front of the face the distance is two units
    let d = scene.sdf.distance(&Vec3::new(0, 0, -2 * FP));
    assert!((d - 2 * FP).abs() <= 16, "front distance {}", d);
    // behind the face the slab is about a tenth of a unit thick
    let behind = scene.sdf.distance(&Vec3::new(0, 0, 2 * FP));
    assert!(behind >= FP && behind <= 2 * FP, "behind distance {}", behind);
}

#[test]
fn light_attenuation() {
    let scene = Scene::parse("light 0 0 0 1 1 1\n");
    assert_eq!(scene.lights.len(), 1);
    let l = &scene.lights[0];
    assert_eq!(l.atten, 50 * FP);
    // at twice the attenuation radius a quarter of the light remains
    let c = l.color(&Vec3::new(100 * FP, 0, 0));
    assert_eq!(c.r, 16383);
    // close by, the light is not amplified
    let c2 = l.color(&Vec3::new(FP, 0, 0));
    assert_eq!(c2.r, 65535);
    let sr = l.shadow_ray(&Vec3::new(3 * FP, 0, 0));
    assert_eq!(sr.direction, Vec3::new(-3 * FP, 0, 0));
}

#[test]
fn refraction() {
    let incoming = Vec3::new(-FP, -FP, 0).normalize();
    let normal = Vec3::new(0, FP, 0);

    // no refraction when the indices are equal (should maintain the
    // 45-degree angle)
    let refracted = raymarcher::scene::refract(&incoming, &normal, FP, FP);
    assert_eq!(incoming, refracted);

    // parallel to the normal: the normalized ray passes straight through
    let straight = raymarcher::scene::refract(&normal, &normal, FP, 2 * FP);
    assert_eq!(straight, Vec3::new(0, FP, 0));
}

#[test]
fn refraction_bends_toward_normal() {
    // a 45-degree ray entering a denser medium bends toward the normal
    let incoming = Vec3::new(-FP, -FP, 0).normalize();
    let normal = Vec3::new(0, FP, 0);
    let r = raymarcher::scene::refract(&incoming, &normal, FP, 2 * FP);
    // still heading down and leftward, in the plane of incidence
    assert!(r.y < 0 && r.x < 0 && r.z == 0, "bent ray {:?}", r);
    // the sine halves: |x| is about half the incoming lateral component
    assert!((2 * r.x - incoming.x).abs() <= 4, "lateral {:?} vs {:?}", r, incoming);
    // the result is a unit direction
    assert!((r.norm() - FP).abs() <= 2);
}

#[test]
fn refraction_orthogonal_incidence() {
    let normal = Vec3::new(0, FP, 0);
    let r = raymarcher::scene::refract(&Vec3::right(), &normal, FP, 2 * FP);
    assert_eq!(r, Vec3::new(-32768, 56755, 0));
}
