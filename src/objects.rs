//! Surfaces, lights, and the ray intersection tests of the two primitives.
use crate::color::Color;
use crate::fixed::{in_limit, isqrt, sqrt_floor, tdiv, EPSILON, LIMIT, ONE};
use crate::vec3::{dot_raw, dot_wide, vec_of, vnorm, vsub, Vec3};
use vstd::prelude::*;

verus! {

/// Where a ray meets a surface.
#[derive(Debug, Clone, Copy, PartialEq, Eq, Structural)]
pub struct Hit {
    /// Which of the object's materials the surface has there (see [`Object::material`]).
    pub material: usize,
    /// Distance along the ray, in units of the ray's direction.
    pub dist: i64,
    pub point: Vec3,
    /// Unit surface normal.
    pub normal: Vec3,
}

#[derive(Debug, Clone, Copy, PartialEq, Eq, Structural)]
pub struct Light {
    pub position: Vec3,
    pub intensity: i64,
}

/// How a surface responds to light; every coefficient is fixed-point.
/// `transparency`, `refractive_index` and `refraction_fuzziness` are carried
/// with the surface but take no part in shading: refraction is not traced.
#[derive(Debug, Clone, Copy, PartialEq, Eq, Structural)]
pub struct Material {
    pub color: Color,
    pub specular_ratio: i64,
    pub diffuse_ratio: i64,
    pub shininess: i64,
    pub reflectiveness: i64,
    pub reflection_fuzziness: i64,
    pub transparency: i64,
    pub refractive_index: i64,
    pub refraction_fuzziness: i64,
}

#[derive(Debug, Clone, Copy, PartialEq, Eq, Structural)]
pub struct Sphere {
    pub center: Vec3,
    pub radius: i64,
    pub material: Material,
}

/// The infinite horizontal plane at height `y`, tiled in squares of side
/// `cell_size` that alternate between two materials.
#[derive(Debug, Clone, Copy)]
pub struct Checkerboard {
    pub y: i64,
    pub cell_size: i64,
    pub materials: (Material, Material),
}

/// Anything a ray can hit.
#[derive(Debug, Clone, Copy)]
pub enum Object {
    Sphere(Sphere),
    Checkerboard(Checkerboard),
}

impl Light {
    pub open spec fn wf(self) -> bool {
        self.position.wf() && in_limit(self.intensity as int)
    }
}

impl Material {
    pub open spec fn wf(self) -> bool {
        &&& self.color.wf()
        &&& in_limit(self.specular_ratio as int)
        &&& in_limit(self.diffuse_ratio as int)
        &&& in_limit(self.shininess as int)
        &&& in_limit(self.reflectiveness as int)
        &&& in_limit(self.reflection_fuzziness as int)
        &&& in_limit(self.transparency as int)
        &&& in_limit(self.refractive_index as int)
        &&& in_limit(self.refraction_fuzziness as int)
    }
}

impl Hit {
    pub open spec fn wf(self) -> bool {
        self.point.wf() && self.normal.wf() && -FAR <= self.dist <= FAR && self.material < 2
    }
}

impl Sphere {
    pub open spec fn wf(self) -> bool {
        self.center.wf() && in_limit(self.radius as int) && self.material.wf()
    }
}

impl Checkerboard {
    pub open spec fn wf(self) -> bool {
        &&& in_limit(self.y as int)
        &&& 0 < self.cell_size <= LIMIT
        &&& self.materials.0.wf()
        &&& self.materials.1.wf()
    }
}

impl Object {
    pub open spec fn wf(self) -> bool {
        match self {
            Object::Sphere(s) => s.wf(),
            Object::Checkerboard(c) => c.wf(),
        }
    }

    pub open spec fn material_spec(self, k: usize) -> Material {
        match self {
            Object::Sphere(s) => s.material,
            Object::Checkerboard(c) => if k == 0 {
                c.materials.0
            } else {
                c.materials.1
            },
        }
    }

    pub open spec fn hit_spec(self, o: Vec3, d: Vec3) -> Option<Hit> {
        match self {
            Object::Sphere(s) => sphere_hit(s, o, d),
            Object::Checkerboard(c) => checker_hit(c, o, d),
        }
    }
}

/// Largest hit distance kept; it is far beyond any point of the stored range
/// reached along a unit direction.
pub const FAR: i64 = 1099511627776;

/// The hit at parametric distance `t` along the ray, once `t` is accepted:
/// the distance (capped at `FAR`) and the point `o + d * dist`.
pub open spec fn hit_at(o: Vec3, d: Vec3, t: int) -> (int, Vec3) {
    let dist = if t > FAR {
        FAR as int
    } else {
        t
    };
    (
        dist,
        vec_of(
            o.0 + tdiv(d.0 * dist, ONE as int),
            o.1 + tdiv(d.1 * dist, ONE as int),
            o.2 + tdiv(d.2 * dist, ONE as int),
        ),
    )
}

/// The point at distance `dist` along the ray `o + t * d`.
fn point_at(o: &Vec3, d: &Vec3, t: i128) -> (r: (i64, Vec3))
    requires
        o.wf(),
        d.wf(),
        EPSILON <= t,
    ensures
        r.0 == hit_at(*o, *d, t as int).0,
        r.1 == hit_at(*o, *d, t as int).1,
        r.1.wf(),
        0 < r.0 <= FAR,
{
    let dist: i128 = if t > FAR as i128 {
        FAR as i128
    } else {
        t
    };
    let one = ONE as i128;
    proof {
        lemma_mul_bound(d.0 as int, dist as int, LIMIT as int, FAR as int);
        lemma_mul_bound(d.1 as int, dist as int, LIMIT as int, FAR as int);
        lemma_mul_bound(d.2 as int, dist as int, LIMIT as int, FAR as int);
    }
    let p = Vec3::from_wide(
        o.0 as i128 + (d.0 as i128 * dist) / one,
        o.1 as i128 + (d.1 as i128 * dist) / one,
        o.2 as i128 + (d.2 as i128 * dist) / one,
    );
    (dist as i64, p)
}

/// The dot product of `o - c`, taken exactly, with `d`.
pub open spec fn offset_dot(o: Vec3, c: Vec3, d: Vec3) -> int {
    (o.0 - c.0) * d.0 + (o.1 - c.1) * d.1 + (o.2 - c.2) * d.2
}

/// The squared length of `o - c`, taken exactly.
pub open spec fn offset_sq(o: Vec3, c: Vec3) -> int {
    (o.0 - c.0) * (o.0 - c.0) + (o.1 - c.1) * (o.1 - c.1) + (o.2 - c.2) * (o.2 - c.2)
}

/// `offset_dot` and `offset_sq`, computed without overflow.
fn offset_products(o: &Vec3, c: &Vec3, d: &Vec3) -> (r: (i128, i128))
    requires
        o.wf(),
        c.wf(),
        d.wf(),
    ensures
        r.0 == offset_dot(*o, *c, *d),
        r.1 == offset_sq(*o, *c),
        -0x1000000000000000 <= r.0 <= 0x1000000000000000,
        0 <= r.1 <= 0x1000000000000000,
{
    let x = o.0 as i128 - c.0 as i128;
    let y = o.1 as i128 - c.1 as i128;
    let z = o.2 as i128 - c.2 as i128;
    let ghost k = 2 * LIMIT as int;
    proof {
        lemma_mul_bound(x as int, d.0 as int, k, LIMIT as int);
        lemma_mul_bound(y as int, d.1 as int, k, LIMIT as int);
        lemma_mul_bound(z as int, d.2 as int, k, LIMIT as int);
        lemma_mul_bound(x as int, x as int, k, k);
        lemma_mul_bound(y as int, y as int, k, k);
        lemma_mul_bound(z as int, z as int, k, k);
        assert(x * x >= 0 && y * y >= 0 && z * z >= 0) by (nonlinear_arith);
    }
    let b = x * (d.0 as i128) + y * (d.1 as i128) + z * (d.2 as i128);
    let q = x * x + y * y + z * z;
    (b, q)
}

/// The nearer root of the sphere's quadratic that lies beyond `EPSILON`.
pub open spec fn sphere_root(s: Sphere, o: Vec3, d: Vec3) -> Option<int> {
    let a = dot_raw(d, d);
    let b = offset_dot(o, s.center, d);
    let c = offset_sq(o, s.center) - s.radius * s.radius;
    let disc = b * b - a * c;
    if disc < 0 || a == 0 {
        None
    } else {
        let sq = sqrt_floor(disc);
        let near = tdiv((-b - sq) * ONE, a);
        let t = if near < EPSILON {
            tdiv((-b + sq) * ONE, a)
        } else {
            near
        };
        if t < EPSILON {
            None
        } else {
            Some(t)
        }
    }
}

pub open spec fn sphere_hit(s: Sphere, o: Vec3, d: Vec3) -> Option<Hit> {
    match sphere_root(s, o, d) {
        None => None,
        Some(t) => {
            let (dist, point) = hit_at(o, d, t);
            Some(
                Hit {
                    material: 0,
                    dist: dist as i64,
                    point,
                    normal: vnorm(vsub(point, s.center)),
                },
            )
        },
    }
}

/// Which of the two materials covers the cell that holds `(x, z)`.
pub open spec fn checker_index(cell_size: int, x: int, z: int) -> usize {
    if ((x / cell_size) % 2 + (z / cell_size) % 2) % 2 == 0 {
        0
    } else {
        1
    }
}

/// Distance along the ray to the plane `y = height`, if the ray is not parallel to it.
pub open spec fn plane_root(height: int, o: Vec3, d: Vec3) -> Option<int> {
    if d.1 == 0 {
        None
    } else if d.1 > 0 {
        Some(tdiv((height - o.1) * ONE, d.1 as int))
    } else {
        Some(tdiv((o.1 - height) * ONE, -d.1))
    }
}

pub open spec fn checker_hit(cb: Checkerboard, o: Vec3, d: Vec3) -> Option<Hit> {
    match plane_root(cb.y as int, o, d) {
        None => None,
        Some(t) => if t < EPSILON {
            None
        } else {
            let (dist, point) = hit_at(o, d, t);
            Some(
                Hit {
                    material: checker_index(cb.cell_size as int, point.0 as int, point.2 as int),
                    dist: dist as i64,
                    point,
                    normal: vnorm(Vec3(0, (-d.1) as i64, 0)),
                },
            )
        },
    }
}

proof fn lemma_mul_bound(a: int, b: int, ka: int, kb: int)
    requires
        -ka <= a <= ka,
        -kb <= b <= kb,
    ensures
        -(ka * kb) <= a * b <= ka * kb,
{
    assert(-(ka * kb) <= a * b <= ka * kb) by (nonlinear_arith)
        requires
            -ka <= a <= ka,
            -kb <= b <= kb,
    ;
}

impl Sphere {
    /// The nearest point beyond `EPSILON` where the ray `origin + t * dir` meets the sphere.
    pub fn intersect(&self, origin: &Vec3, dir: &Vec3) -> (h: Option<Hit>)
        requires
            self.wf(),
            origin.wf(),
            dir.wf(),
        ensures
            h == sphere_hit(*self, *origin, *dir),
            h matches Some(hit) ==> hit.wf(),
    {
        let a = dot_wide(dir, dir);
        let (b, sq_off) = offset_products(origin, &self.center, dir);
        let r = self.radius as i128;
        proof {
            crate::vec3::lemma_dot_self_nonneg(*dir);
            crate::vec3::lemma_dot_raw_bound(*dir, *dir);
            lemma_mul_bound(r as int, r as int, LIMIT as int, LIMIT as int);
            assert(r * r >= 0) by (nonlinear_arith);
        }
        let c = sq_off - r * r;
        let q: i128 = 0x1000000000000000;
        proof {
            lemma_mul_bound(b as int, b as int, q as int, q as int);
            lemma_mul_bound(a as int, c as int, q as int, q as int);
        }
        let disc = b * b - a * c;
        if disc < 0 || a == 0 {
            return None;
        }
        let sq_wide = isqrt(disc as u128);
        assert(sq_wide <= 0x4000000000000000) by (nonlinear_arith)
            requires
                sq_wide * sq_wide <= disc,
                disc <= 2 * q * q,
                q == 0x1000000000000000,
        ;
        let sq = sq_wide as i128;
        let one = ONE as i128;
        let mut t = ((-b - sq) * one) / a;
        if t < EPSILON as i128 {
            t = ((-b + sq) * one) / a;
        }
        if t < EPSILON as i128 {
            return None;
        }
        let (dist, point) = point_at(origin, dir, t);
        let normal = point.sub(self.center).norm();
        Some(Hit { material: 0, dist, point, normal })
    }
}

impl Checkerboard {
    /// Where the ray meets the plane, beyond `EPSILON`; a ray parallel to the plane misses it.
    pub fn intersect(&self, origin: &Vec3, dir: &Vec3) -> (h: Option<Hit>)
        requires
            self.wf(),
            origin.wf(),
            dir.wf(),
        ensures
            h == checker_hit(*self, *origin, *dir),
            h matches Some(hit) ==> hit.wf(),
    {
        if dir.1 == 0 {
            return None;
        }
        let one = ONE as i128;
        let t: i128 = if dir.1 > 0 {
            ((self.y as i128 - origin.1 as i128) * one) / (dir.1 as i128)
        } else {
            ((origin.1 as i128 - self.y as i128) * one) / (-(dir.1 as i128))
        };
        if t < EPSILON as i128 {
            return None;
        }
        let (dist, point) = point_at(origin, dir, t);
        let normal = Vec3(0, -dir.1, 0).norm();
        let material = cell_parity(point.0, self.cell_size, point.2);
        Some(Hit { material, dist, point, normal })
    }
}

proof fn lemma_floor_div_bound(x: int, d: int)
    requires
        d > 0,
        i64::MIN <= x <= i64::MAX,
    ensures
        i64::MIN <= x / d <= i64::MAX,
{
    assert(i64::MIN <= x / d <= i64::MAX) by (nonlinear_arith)
        requires
            d > 0,
            i64::MIN <= x <= i64::MAX,
    ;
}

/// Selects the checker material for the cell holding `(x, z)`.
fn cell_parity(x: i64, cell_size: i64, z: i64) -> (k: usize)
    requires
        cell_size > 0,
    ensures
        k == checker_index(cell_size as int, x as int, z as int),
{
    proof {
        lemma_floor_div_bound(x as int, cell_size as int);
        lemma_floor_div_bound(z as int, cell_size as int);
    }
    let qx = match x.checked_div_euclid(cell_size) {
        Some(q) => q,
        None => 0,
    };
    let qz = match z.checked_div_euclid(cell_size) {
        Some(q) => q,
        None => 0,
    };
    let px = match qx.checked_rem_euclid(2) {
        Some(p) => p,
        None => 0,
    };
    let pz = match qz.checked_rem_euclid(2) {
        Some(p) => p,
        None => 0,
    };
    if (px + pz) % 2 == 0 {
        0
    } else {
        1
    }
}

impl Object {
    /// The material of the object with the given index (see [`Hit::material`]).
    pub fn material(&self, k: usize) -> (m: &Material)
        ensures
            *m == self.material_spec(k),
    {
        match self {
            Object::Sphere(s) => &s.material,
            Object::Checkerboard(c) => if k == 0 {
                &c.materials.0
            } else {
                &c.materials.1
            },
        }
    }

    pub fn intersect(&self, origin: &Vec3, dir: &Vec3) -> (h: Option<Hit>)
        requires
            self.wf(),
            origin.wf(),
            dir.wf(),
        ensures
            h == self.hit_spec(*origin, *dir),
            h matches Some(hit) ==> hit.wf(),
    {
        match self {
            Object::Sphere(s) => s.intersect(origin, dir),
            Object::Checkerboard(c) => c.intersect(origin, dir),
        }
    }
}

/// A ray along the axis through a sphere's center, from outside the sphere,
/// hits it at the distance from the origin to the center less the radius, with
/// the normal pointing from the center through the hit point.
pub proof fn lemma_sphere_hit_through_center(s: Sphere, o: Vec3, dist: int)
    requires
        s.wf(),
        o.wf(),
        s.radius > 0,
        o.0 == s.center.0,
        o.1 == s.center.1,
        o.2 == s.center.2 + dist,
        in_limit(s.center.2 + s.radius),
        dist - s.radius >= EPSILON,
    ensures
        sphere_hit(s, o, Vec3(0, 0, (-ONE) as i64)) == Some(
            Hit {
                material: 0,
                dist: (dist - s.radius) as i64,
                point: Vec3(s.center.0, s.center.1, (s.center.2 + s.radius) as i64),
                normal: Vec3(0, 0, ONE),
            },
        ),
{
    let d = Vec3(0, 0, (-ONE) as i64);
    let c = s.center;
    let r = s.radius as int;
    let one = ONE as int;
    assert(d.2 == -65536);
    let a = dot_raw(d, d);
    assert(a == 4294967296);
    let b = offset_dot(o, c, d);
    assert(b == dist * -65536);
    assert(one * one == 4294967296);
    assert(-dist * one == dist * -65536);
    let cc = offset_sq(o, c) - r * r;
    assert(cc == dist * dist - r * r);
    let disc = b * b - a * cc;
    assert(disc == (one * r) * (one * r)) by (nonlinear_arith)
        requires
            disc == b * b - a * cc,
            a == one * one,
            b == -dist * one,
            cc == dist * dist - r * r,
    ;
    crate::fixed::lemma_sqrt_of_square(one * r);
    let sq = sqrt_floor(disc);
    assert(sq == one * r);
    assert((-b - sq) * one == (dist - r) * (one * one)) by (nonlinear_arith)
        requires
            b == -dist * one,
            sq == one * r,
    ;
    vstd::arithmetic::div_mod::lemma_div_by_multiple(dist - r, one * one);
    assert(tdiv((-b - sq) * one, a) == dist - r);
    assert(sphere_root(s, o, d) == Some(dist - r));
    let t = dist - r;
    assert(tdiv(-one * t, one) == -t) by {
        vstd::arithmetic::div_mod::lemma_div_by_multiple(t, one);
        assert(-one * t == -(t * one)) by (nonlinear_arith);
    }
    assert(tdiv(0 * t, one) == 0);
    let point = hit_at(o, d, t).1;
    assert(point == Vec3(c.0, c.1, (c.2 + r) as i64));
    let rel = vsub(point, c);
    assert(rel == Vec3(0, 0, r as i64));
    assert(dot_raw(rel, rel) == r * r);
    let rl = r * one;
    assert(dot_raw(rel, rel) * one * one == rl * rl) by (nonlinear_arith)
        requires
            dot_raw(rel, rel) == r * r,
            rl == r * one,
    ;
    crate::fixed::lemma_sqrt_of_square(rl);
    assert(rl > 0) by (nonlinear_arith)
        requires
            rl == r * one,
            r > 0,
            one > 0,
    ;
    vstd::arithmetic::div_mod::lemma_div_by_multiple(one, rl);
    assert(r * one * one == one * rl) by (nonlinear_arith)
        requires
            rl == r * one,
    ;
    assert(vnorm(rel) == Vec3(0, 0, ONE));
}

/// A ray whose perpendicular distance from a sphere's center exceeds the radius
/// misses it. With `ac` running from the center to the origin, the squared
/// perpendicular distance is `|ac|^2 - (ac . d)^2 / |d|^2`; the condition is
/// stated scaled by `|d|^2`.
pub proof fn lemma_sphere_miss(s: Sphere, o: Vec3, d: Vec3)
    requires
        s.wf(),
        o.wf(),
        d.wf(),
        offset_sq(o, s.center) * dot_raw(d, d) - offset_dot(o, s.center, d) * offset_dot(o, s.center, d)
            > s.radius * s.radius * dot_raw(d, d),
    ensures
        sphere_hit(s, o, d) is None,
{
    let a = dot_raw(d, d);
    let b = offset_dot(o, s.center, d);
    let r = s.radius as int;
    let cc = offset_sq(o, s.center) - r * r;
    let q = offset_sq(o, s.center);
    let rr = r * r;
    assert(a * cc == a * q - a * rr) by (nonlinear_arith)
        requires
            cc == q - rr,
    ;
    assert(q * a == a * q && rr * a == a * rr) by (nonlinear_arith);
}

/// Neighbouring cells of a checkerboard, along x or along z, have different materials.
pub proof fn lemma_checker_alternates(cell_size: int, x: int, z: int)
    requires
        cell_size > 0,
    ensures
        checker_index(cell_size, x + cell_size, z) != checker_index(cell_size, x, z),
        checker_index(cell_size, x, z + cell_size) != checker_index(cell_size, x, z),
{
    vstd::arithmetic::div_mod::lemma_div_plus_one(x, cell_size);
    vstd::arithmetic::div_mod::lemma_div_plus_one(z, cell_size);
    assert(x + cell_size == cell_size + x);
    assert(z + cell_size == cell_size + z);
}

/// A checkerboard gives the same material wherever two rays meet it at the same `(x, z)`.
pub proof fn lemma_checker_same_point_same_material(
    cb: Checkerboard,
    o1: Vec3,
    d1: Vec3,
    o2: Vec3,
    d2: Vec3,
)
    requires
        checker_hit(cb, o1, d1) is Some,
        checker_hit(cb, o2, d2) is Some,
        checker_hit(cb, o1, d1)->0.point.0 == checker_hit(cb, o2, d2)->0.point.0,
        checker_hit(cb, o1, d1)->0.point.2 == checker_hit(cb, o2, d2)->0.point.2,
    ensures
        checker_hit(cb, o1, d1)->0.material == checker_hit(cb, o2, d2)->0.material,
{
}

proof fn lemma_neg_scaled_square(k: int, x: int)
    ensures
        (-k * x) * (-k * x) == (x * x) * (k * k),
{
    assert((-k * x) * (-k * x) == (x * x) * (k * k)) by (nonlinear_arith);
}

proof fn lemma_offset_along_unit(e0: int, e1: int, e2: int, d0: int, d1: int, d2: int, k: int)
    requires
        e0 * 65536 == -k * d0,
        e1 * 65536 == -k * d1,
        e2 * 65536 == -k * d2,
        d0 * d0 + d1 * d1 + d2 * d2 == 65536 * 65536,
    ensures
        e0 * d0 + e1 * d1 + e2 * d2 == -k * 65536,
        e0 * e0 + e1 * e1 + e2 * e2 == k * k,
{
    let b = e0 * d0 + e1 * d1 + e2 * d2;
    assert(b * 65536 == (e0 * 65536) * d0 + (e1 * 65536) * d1 + (e2 * 65536) * d2) by (nonlinear_arith)
        requires
            b == e0 * d0 + e1 * d1 + e2 * d2,
    ;
    assert((-k * d0) * d0 + (-k * d1) * d1 + (-k * d2) * d2 == -k * (d0 * d0 + d1 * d1 + d2 * d2))
        by (nonlinear_arith);
    assert(b * 65536 == -k * (65536 * 65536));
    assert(b == -k * 65536) by (nonlinear_arith)
        requires
            b * 65536 == -k * (65536 * 65536),
    ;
    let q = e0 * e0 + e1 * e1 + e2 * e2;
    assert(q * (65536 * 65536) == (e0 * 65536) * (e0 * 65536) + (e1 * 65536) * (e1 * 65536) + (e2
        * 65536) * (e2 * 65536)) by (nonlinear_arith)
        requires
            q == e0 * e0 + e1 * e1 + e2 * e2,
    ;
    lemma_neg_scaled_square(k, d0);
    lemma_neg_scaled_square(k, d1);
    lemma_neg_scaled_square(k, d2);
    crate::vec3::lemma_distribute3(d0 * d0, d1 * d1, d2 * d2, k * k);
    assert((d0 * d0 + d1 * d1 + d2 * d2) * (k * k) == (k * k) * (65536 * 65536));
    assert(q * (65536 * 65536) == (k * k) * (65536 * 65536));
    assert(q == k * k) by (nonlinear_arith)
        requires
            q * (65536 * 65536) == (k * k) * (65536 * 65536),
    ;
}

/// A ray along any exact unit direction through a sphere's center, from outside
/// the sphere at distance `k` from the center, hits it at distance `k - radius`.
pub proof fn lemma_sphere_hit_distance_through_center(s: Sphere, o: Vec3, d: Vec3, k: int)
    requires
        s.wf(),
        o.wf(),
        d.wf(),
        s.radius > 0,
        dot_raw(d, d) == ONE * ONE,
        (o.0 - s.center.0) * ONE == -k * d.0,
        (o.1 - s.center.1) * ONE == -k * d.1,
        (o.2 - s.center.2) * ONE == -k * d.2,
        k - s.radius >= EPSILON,
    ensures
        sphere_root(s, o, d) == Some(k - s.radius),
        sphere_hit(s, o, d) matches Some(h) && h.dist == k - s.radius,
{
    let c = s.center;
    let r = s.radius as int;
    let one = ONE as int;
    lemma_offset_along_unit(o.0 - c.0, o.1 - c.1, o.2 - c.2, d.0 as int, d.1 as int, d.2 as int, k);
    let a = dot_raw(d, d);
    let b = offset_dot(o, c, d);
    let cc = offset_sq(o, c) - r * r;
    assert(b == -k * 65536);
    assert(cc == k * k - r * r);
    let disc = b * b - a * cc;
    assert(disc == (one * r) * (one * r)) by (nonlinear_arith)
        requires
            disc == b * b - a * cc,
            a == one * one,
            b == -k * one,
            cc == k * k - r * r,
    ;
    crate::fixed::lemma_sqrt_of_square(one * r);
    let sq = sqrt_floor(disc);
    assert(sq == one * r);
    assert((-b - sq) * one == (k - r) * (one * one)) by (nonlinear_arith)
        requires
            b == -k * one,
            sq == one * r,
    ;
    vstd::arithmetic::div_mod::lemma_div_by_multiple(k - r, one * one);
    assert(tdiv((-b - sq) * one, a) == k - r);
    let lim = 2 * LIMIT as int;
    lemma_mul_bound(o.0 - c.0, o.0 - c.0, lim, lim);
    lemma_mul_bound(o.1 - c.1, o.1 - c.1, lim, lim);
    lemma_mul_bound(o.2 - c.2, o.2 - c.2, lim, lim);
    assert(k <= FAR) by (nonlinear_arith)
        requires
            k * k <= 3 * (lim * lim),
            lim == 2 * 268435456,
    ;
}

} // verus!
