use raymarcher::mat::{Color, Material, C_ONE};
use raymarcher::math::FP;

#[test]
fn hexstring() {
    assert_eq!("#0fff08", Color::from_irgb(15, 255, 8).as_hexstring());
    assert_eq!(Color::white().as_hexstring(), "#ffffff");
    assert_eq!(Color::black().as_hexstring(), "#000000");
    assert_eq!(Color::from_hexstring("#ffffff").as_hexstring(), "#ffffff");
    assert_eq!(Color::from_hexstring("#000000").as_hexstring(), "#000000");
}

#[test]
fn hexstring_roundtrip_all_bytes() {
    for v in 0..=255usize {
        let c = Color::from_irgb(v, 255 - v, (v * 7) % 256);
        let s = c.as_hexstring();
        let back = Color::from_hexstring(&s);
        assert_eq!(back, c);
    }
}

#[test]
fn hexstring_without_hash_and_uppercase() {
    let c = Color::from_hexstring("A0b1C2");
    assert_eq!(c, Color::from_irgb(0xa0, 0xb1, 0xc2));
}

#[test]
fn hexstring_malformed() {
    assert!(Color::parse_hexstring("#12345").is_none());
    assert!(Color::parse_hexstring("zzzzzz").is_none());
    assert!(Color::parse_hexstring("").is_none());
    assert!(Color::parse_hexstring("#").is_none());
}

#[test]
fn color_arithmetic() {
    let c = Color::new(100, 200, 300);
    let d = c.add(FP, &Color::new(1, 2, 3));
    assert_eq!(d, Color::new(101, 202, 303));
    let s = Color::new(1000, 2000, 3000).scale(FP / 2);
    assert_eq!(s, Color::new(500, 1000, 1500));
    // white is the identity of the channel product
    let m = Color::new(123, 456, 789).multiply(&Color::white());
    assert_eq!(m, Color::new(123, 456, 789));
    assert!(Color::black().is_black());
    assert!(!Color::white().is_black());
}

#[test]
fn color_lerp() {
    let a = Color::new(0, 0, 0);
    let b = Color::new(1000, 2000, 4000);
    assert_eq!(a.lerp(FP / 2, &b), Color::new(500, 1000, 2000));
    assert_eq!(a.lerp(0, &b), a);
    assert_eq!(a.lerp(FP, &b), b);
}

#[test]
fn default_material() {
    let m = Material::new();
    assert_eq!(m.ambient, Color::black());
    assert_eq!(m.diffuse, Color::white());
    assert_eq!(m.specular, Color::black());
    assert_eq!(m.phong, FP);
    assert_eq!(m.reflectivity, 0);
    assert_eq!(m.opacity, FP);
    assert_eq!(m.index_of_refraction, FP);
    assert_eq!(C_ONE, 65535);
}
