use raytracer::fixed::ONE;
use raytracer::vec3::{reflect, scalar, Vec3};

fn v(x: i64, y: i64, z: i64) -> Vec3 {
    Vec3(x * ONE, y * ONE, z * ONE)
}

#[test]
fn test_vec3_add() {
    let vec1 = v(1, 5, 7);
    let vec2 = v(-5, 10, 0);
    assert_eq!(v(-4, 15, 7), vec1.add(vec2));
}

#[test]
fn test_vec3_sub() {
    let vec1 = v(1, 5, 7);
    let vec2 = v(1, 5, 0);
    assert_eq!(v(0, 0, 7), vec1.sub(vec2));
}

#[test]
fn test_vec3_neg() {
    let vec = v(1, 2, -3);
    assert_eq!(v(-1, -2, 3), vec.neg());
}

#[test]
fn test_vec3_mul() {
    let vec = v(1, 2, -3);
    assert_eq!(v(0, 0, 0), vec.mul(0));
}

#[test]
fn test_vec3_div() {
    let vec = v(3, 3, -3);
    assert_eq!(v(1, 1, -1), vec.div(3 * ONE));
}

#[test]
fn test_vec3_norma() {
    let vec = v(3, 0, 0);
    assert_eq!(v(1, 0, 0), vec.normalize());
}

#[test]
fn test_vec3_eq() {
    let vec1 = v(1, 1, 1);
    let vec2 = v(1, 1, 1);
    assert!(vec1 == vec2);
}

#[test]
fn add_is_commutative_and_associative() {
    let a = v(1, -2, 3);
    let b = Vec3(ONE / 3, 7, -ONE * 4);
    let c = v(-8, 0, 2);
    assert_eq!(a.add(b), b.add(a));
    assert_eq!(a.add(b).add(c), a.add(b.add(c)));
}

#[test]
fn vector_minus_itself_is_zero() {
    let a = Vec3(12345, -678, 91011);
    assert_eq!(a.sub(a), Vec3(0, 0, 0));
}

#[test]
fn dot_of_self_is_length_squared() {
    let a = v(3, 4, 0);
    assert_eq!(a.length(), 5 * ONE);
    assert_eq!(scalar(&a, &a), 25 * ONE);
    assert_eq!(scalar(&a, &v(1, 1, 1)), 7 * ONE);
}

#[test]
fn normalized_vector_has_unit_length() {
    let n = v(3, 4, 12).norm();
    assert_eq!(n, Vec3(ONE * 3 / 13, ONE * 4 / 13, ONE * 12 / 13));
    let l = n.length();
    assert!((ONE - 2..=ONE).contains(&l));
}

#[test]
fn zero_vector_normalizes_to_zero() {
    assert_eq!(Vec3(0, 0, 0).norm(), Vec3(0, 0, 0));
}

#[test]
fn reflect_flips_the_normal_component() {
    let r = reflect(&v(1, -1, 0), &v(0, 1, 0));
    assert_eq!(r, v(1, 1, 0));
}

#[test]
fn scaling_saturates_at_the_limit() {
    let big = v(4000, 0, 0);
    assert_eq!(big.mul(10 * ONE).0, raytracer::fixed::LIMIT);
}

#[test]
fn fuzz_vectors_stay_in_the_cube() {
    let mut seen = std::collections::HashSet::new();
    for _ in 0..200 {
        let f = Vec3::random_in_cube();
        assert!((-ONE..=ONE).contains(&f.0));
        assert!((-ONE..=ONE).contains(&f.1));
        assert!((-ONE..=ONE).contains(&f.2));
        seen.insert(f);
    }
    assert!(seen.len() > 1);
}

#[test]
fn jitter_stays_below_one_pixel() {
    let mut distinct = std::collections::HashSet::new();
    for _ in 0..200 {
        let j = raytracer::sampling::random_jitter();
        assert!((0..ONE).contains(&j));
        distinct.insert(j);
    }
    assert!(distinct.len() > 1);
}

#[test]
fn tiny_vectors_normalize_to_unit_length() {
    for raw in [Vec3(1, 1, 1), Vec3(1, 0, 0), Vec3(-2, 3, 1), Vec3(0, 0, -7)] {
        let n = raw.norm();
        let l = n.length();
        assert!((ONE - 4..=ONE).contains(&l), "{:?} -> {:?}", raw, n);
    }
    assert_eq!(Vec3(0, 0, -7).norm(), Vec3(0, 0, -ONE));
}
