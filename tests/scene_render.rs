use raytracer::color::Color;
use raytracer::fixed::ONE;
use raytracer::objects::{Checkerboard, Hit, Light, Material, Object, Sphere};
use raytracer::scene::{power_real, sqrt_fixed, Scene};
use raytracer::vec3::Vec3;

fn v(x: i64, y: i64, z: i64) -> Vec3 {
    Vec3(x * ONE, y * ONE, z * ONE)
}

fn matte(color: Color) -> Material {
    Material {
        color,
        specular_ratio: 0,
        diffuse_ratio: ONE,
        shininess: ONE,
        reflectiveness: 0,
        reflection_fuzziness: 0,
        transparency: 0,
        refractive_index: ONE,
        refraction_fuzziness: 0,
    }
}

fn red() -> Material {
    matte(Color(ONE * 8 / 10, ONE / 10, ONE / 10))
}

fn no_fuzz(n: usize) -> Vec<Vec3> {
    vec![Vec3(0, 0, 0); n]
}

#[test]
fn ray_through_center_hits_at_distance_minus_radius() {
    let s = Sphere { center: v(0, 0, -10), radius: 3 * ONE, material: red() };
    let hit = s.intersect(&v(0, 0, 0), &Vec3(0, 0, -ONE)).unwrap();
    assert_eq!(hit.dist, 7 * ONE);
    assert_eq!(hit.point, v(0, 0, -7));
    assert_eq!(hit.normal, v(0, 0, 1));
    assert_eq!(hit.material, 0);
}

#[test]
fn ray_from_inside_uses_far_root() {
    let s = Sphere { center: v(0, 0, 0), radius: 2 * ONE, material: red() };
    let hit = s.intersect(&v(0, 0, 0), &Vec3(ONE, 0, 0)).unwrap();
    assert_eq!(hit.dist, 2 * ONE);
    assert_eq!(hit.normal, v(1, 0, 0));
}

#[test]
fn ray_that_passes_beside_sphere_misses() {
    let s = Sphere { center: v(0, 0, -10), radius: 3 * ONE, material: red() };
    assert_eq!(s.intersect(&v(4, 0, 0), &Vec3(0, 0, -ONE)), None);
    assert_eq!(s.intersect(&v(0, 0, 0), &Vec3(0, ONE, 0)), None);
}

#[test]
fn sphere_behind_the_ray_is_not_hit() {
    let s = Sphere { center: v(0, 0, 10), radius: ONE, material: red() };
    assert_eq!(s.intersect(&v(0, 0, 0), &Vec3(0, 0, -ONE)), None);
}

fn board() -> Checkerboard {
    Checkerboard {
        y: -ONE,
        cell_size: 2 * ONE,
        materials: (matte(Color(ONE, ONE, ONE)), matte(Color(0, 0, 0))),
    }
}

fn board_hit_below(x: i64, z: i64) -> Hit {
    board().intersect(&Vec3(x, 0, z), &Vec3(0, -ONE, 0)).unwrap()
}

#[test]
fn checkerboard_cells_alternate() {
    let a = board_hit_below(ONE / 2, ONE / 2);
    let b = board_hit_below(ONE / 2 + 2 * ONE, ONE / 2);
    let c = board_hit_below(ONE / 2, ONE / 2 + 2 * ONE);
    let d = board_hit_below(ONE / 2 - 2 * ONE, ONE / 2);
    assert_eq!(a.material, 0);
    assert_ne!(a.material, b.material);
    assert_ne!(a.material, c.material);
    assert_ne!(a.material, d.material);
    assert_eq!(b.material, board_hit_below(ONE / 2 + 2 * ONE, ONE / 2 + 2 * ONE).material ^ 1);
}

#[test]
fn checkerboard_same_point_same_material() {
    let a = board().intersect(&v(1, 2, -3), &Vec3(0, -ONE, 0)).unwrap();
    let b = board().intersect(&Vec3(ONE, -5 * ONE, -3 * ONE), &Vec3(0, ONE, 0)).unwrap();
    assert_eq!(a.point, b.point);
    assert_eq!(a.material, b.material);
}

#[test]
fn checkerboard_hit_and_normal_face_the_ray() {
    let h = board_hit_below(0, 0);
    assert_eq!(h.dist, ONE);
    assert_eq!(h.point, v(0, -1, 0));
    assert_eq!(h.normal, v(0, 1, 0));
    let up = board().intersect(&v(0, -3, 0), &Vec3(0, ONE, 0)).unwrap();
    assert_eq!(up.normal, v(0, -1, 0));
    assert_eq!(up.dist, 2 * ONE);
}

#[test]
fn checkerboard_parallel_or_behind_misses() {
    assert_eq!(board().intersect(&v(0, 0, 0), &Vec3(ONE, 0, 0)), None);
    assert_eq!(board().intersect(&v(0, 0, 0), &Vec3(0, ONE, 0)), None);
}

#[test]
fn nearest_hit_wins() {
    let mut scene = Scene::new(ONE, Color(0, 0, 0));
    scene.add_obj(Object::Sphere(Sphere { center: v(0, 0, -20), radius: ONE, material: red() }));
    scene.add_obj(Object::Sphere(Sphere { center: v(0, 0, -10), radius: ONE, material: red() }));
    let (k, hit) = scene.cast_single_ray(v(0, 0, 0), Vec3(0, 0, -ONE)).unwrap();
    assert_eq!(k, 1);
    assert_eq!(hit.dist, 9 * ONE);
}

fn shadow_scene(with_occluder: bool) -> Scene {
    let mut scene = Scene::new(ONE, Color(0, 0, 0));
    scene.add_obj(Object::Checkerboard(Checkerboard {
        y: -ONE,
        cell_size: 100 * ONE,
        materials: (matte(Color(ONE, ONE, ONE)), matte(Color(ONE, ONE, ONE))),
    }));
    if with_occluder {
        scene.add_obj(Object::Sphere(Sphere { center: v(0, 4, -5), radius: ONE, material: red() }));
    }
    scene.add_light(Light { position: v(0, 10, -5), intensity: ONE });
    scene
}

#[test]
fn occluded_light_adds_nothing() {
    let dir = v(0, -1, -5).norm();
    let lit = shadow_scene(false).cast_ray(v(0, 0, 0), dir, 1, &no_fuzz(1));
    let dark = shadow_scene(true).cast_ray(v(0, 0, 0), dir, 1, &no_fuzz(1));
    assert!(lit.0 > ONE / 2);
    assert_eq!(dark, Color(0, 0, 0));
}

#[test]
fn no_bounces_left_gives_background() {
    let bg = Color(ONE / 5, ONE / 4, ONE / 3);
    let mut scene = Scene::new(ONE, bg);
    scene.add_obj(Object::Sphere(Sphere { center: v(0, 0, -10), radius: 3 * ONE, material: red() }));
    scene.add_light(Light { position: v(0, 0, 0), intensity: ONE });
    assert_eq!(scene.cast_ray(v(0, 0, 0), Vec3(0, 0, -ONE), 0, &no_fuzz(0)), bg);
    assert_ne!(scene.cast_ray(v(0, 0, 0), Vec3(0, 0, -ONE), 1, &no_fuzz(1)), bg);
}

#[test]
fn diffuse_shading_exact_value() {
    let mut scene = Scene::new(ONE, Color(0, 0, 0));
    scene.add_obj(Object::Sphere(Sphere { center: v(0, 0, -10), radius: 3 * ONE, material: red() }));
    scene.add_light(Light { position: v(0, 0, 0), intensity: ONE / 2 });
    let c = scene.cast_ray(v(0, 0, 0), Vec3(0, 0, -ONE), 1, &no_fuzz(1));
    // Facing the light head-on: diffuse intensity is the light's, the color scales by it.
    assert_eq!(c, Color(ONE * 8 / 10 / 2, ONE / 10 / 2, ONE / 10 / 2));
}

#[test]
fn mirror_reflection_sees_background() {
    let bg = Color(ONE / 2, ONE / 2, ONE / 2);
    let mut mirror = matte(Color(0, 0, 0));
    mirror.diffuse_ratio = 0;
    mirror.reflectiveness = ONE;
    let mut scene = Scene::new(ONE, bg);
    scene.add_obj(Object::Sphere(Sphere { center: v(0, 0, -10), radius: 3 * ONE, material: mirror }));
    let c = scene.cast_ray(v(0, 0, 0), Vec3(0, 0, -ONE), 2, &no_fuzz(2));
    assert_eq!(c, bg);
    // With one bounce the reflected ray has no budget left: still the background.
    assert_eq!(scene.cast_ray(v(0, 0, 0), Vec3(0, 0, -ONE), 1, &no_fuzz(1)), bg);
}

#[test]
fn specular_highlight_is_white() {
    let mut shiny = matte(Color(0, 0, 0));
    shiny.diffuse_ratio = 0;
    shiny.specular_ratio = ONE;
    shiny.shininess = 2 * ONE;
    let mut scene = Scene::new(ONE, Color(0, 0, 0));
    scene.add_obj(Object::Sphere(Sphere { center: v(0, 0, -10), radius: 3 * ONE, material: shiny }));
    scene.add_light(Light { position: v(0, 0, 0), intensity: ONE });
    let c = scene.cast_ray(v(0, 0, 0), Vec3(0, 0, -ONE), 1, &no_fuzz(1));
    assert_eq!(c, Color(ONE, ONE, ONE));
}

#[test]
fn end_to_end_sphere_render() {
    let bg = Color(ONE / 5, ONE * 3 / 10, ONE * 4 / 10);
    let mut scene = Scene::new(ONE / 2, bg);
    scene.add_obj(Object::Sphere(Sphere { center: v(0, 0, -10), radius: 3 * ONE, material: red() }));
    scene.add_light(Light { position: v(0, 0, 0), intensity: ONE });
    let img = scene.render(100, 100, 3, 1).unwrap();
    assert_eq!(img.0.dimensions(), (100, 100));
    let px = |i: u32, j: u32| -> [u8; 3] { img.0.get_pixel(i, j).0 };
    let center = px(50, 50);
    assert_ne!(center, bg.to_rgb());
    assert!(center[0] > 150);
    assert!(center[0] > center[1]);
    assert_eq!(px(0, 0), bg.to_rgb());
    assert_eq!(px(99, 99), bg.to_rgb());
    assert_eq!(bg.to_rgb(), [50, 76, 101]);
}

#[test]
fn background_only_render_ignores_sample_count() {
    let bg = Color(ONE / 3, ONE, 0);
    let scene = Scene::new(ONE * 7 / 10, bg);
    let one = scene.render(8, 6, 4, 1).unwrap();
    let many = scene.render(8, 6, 4, 64).unwrap();
    assert_eq!(one.0, many.0);
    for p in one.0.pixels() {
        assert_eq!(p.0, bg.to_rgb());
    }
}

#[test]
fn degenerate_image_sizes_are_refused() {
    let scene = Scene::new(ONE, Color(0, 0, 0));
    assert!(scene.render(1, 10, 1, 1).is_none());
    assert!(scene.render(10, 1, 1, 1).is_none());
    assert!(scene.render(10, 10, 1, 0).is_none());
    assert!(scene.render(2, 2, 1, 1).is_some());
}

#[test]
fn colors_quantize_with_clamping() {
    assert_eq!(Color(-ONE, ONE / 2, 2 * ONE).to_rgb(), [0, 127, 255]);
    assert_eq!(Color(ONE, 0, ONE / 4).to_rgb(), [255, 0, 63]);
}

#[test]
fn color_arithmetic() {
    let c = Color(ONE, ONE / 2, 0);
    assert_eq!(c.add(Color(ONE, ONE, ONE)), Color(2 * ONE, ONE * 3 / 2, ONE));
    assert_eq!(c.mul(ONE / 2), Color(ONE / 2, ONE / 4, 0));
    assert_eq!(c.div(2 * ONE), Color(ONE / 2, ONE / 4, 0));
    assert_eq!(c.div(-2 * ONE), Color(-ONE / 2, -ONE / 4, 0));
}

#[test]
fn fractional_exponent_power() {
    // 0.5 ^ 2.7 = 0.1539
    let e = ONE * 27 / 10;
    let p = power_real(ONE / 2, e);
    assert!((p - 10087).abs() <= 20, "{}", p);
    assert_eq!(power_real(ONE / 4, ONE / 2), ONE / 2);
    assert_eq!(power_real(ONE / 2, 2 * ONE), ONE / 4);
    assert_eq!(power_real(ONE / 3, 0), ONE);
    assert_eq!(sqrt_fixed(4 * ONE), 2 * ONE);
}

#[test]
fn far_objects_keep_their_distance() {
    let s = Sphere { center: v(4000, 0, -4000), radius: ONE, material: red() };
    let o = v(-4000, 0, 4000);
    let dir = v(1, 0, -1).norm();
    let hit = s.intersect(&o, &dir).unwrap();
    // |o - c| = 8000 * sqrt(2) = 11313.7 units, less the radius; the fixed-point
    // unit direction is short by about 1e-5, which the distance makes up.
    let expect = 11312 * ONE + ONE * 7 / 10;
    assert!((hit.dist - expect).abs() < ONE / 2, "{}", hit.dist);
    assert!((hit.point.0 - (4000 * ONE - ONE * 7071 / 10000)).abs() < ONE / 2);
    assert!(hit.dist > raytracer::fixed::LIMIT);
}
