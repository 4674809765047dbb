//! The scene, its nearest-hit query, the recursive shader and the renderer.
use crate::color::{cadd, cmul, color_of, rgb_of, Color};
use crate::fixed::{clamp, clamp_wide, isqrt, sqrt_floor, fmul, in_limit, max0, mul_fx, tdiv, LIMIT, ONE};
use crate::raster::{blank_image, image_pixels, image_size, put_pixel, Image};
use crate::sampling::{in_unit_cube, random_jitter};
use crate::objects::{Hit, Light, Material, Object};
use crate::vec3::{dot, length_raw, scalar, reflect, vadd, vmul, vnorm, vreflect, vsub, Vec3};
use vstd::prelude::*;

verus! {

/// Objects, point lights, and the two global render parameters.
pub struct Scene {
    objs: Vec<Object>,
    lights: Vec<Light>,
    fov: i64,
    bg: Color,
}

/// The nearest hit among the first `n` objects, with the index of the object hit;
/// on equal distances the earlier object wins.
pub open spec fn nearest_in(objs: Seq<Object>, n: nat, o: Vec3, d: Vec3) -> Option<(usize, Hit)>
    decreases n,
{
    if n == 0 {
        None
    } else {
        let prev = nearest_in(objs, (n - 1) as nat, o, d);
        match objs[n - 1].hit_spec(o, d) {
            None => prev,
            Some(h) => match prev {
                None => Some(((n - 1) as usize, h)),
                Some(p) => if h.dist < p.1.dist {
                    Some(((n - 1) as usize, h))
                } else {
                    prev
                },
            },
        }
    }
}

impl Scene {
    pub closed spec fn objects(&self) -> Seq<Object> {
        self.objs@
    }

    pub closed spec fn lights_spec(&self) -> Seq<Light> {
        self.lights@
    }

    /// The horizontal half-extent of the view at unit distance (the tangent of the field of view).
    pub closed spec fn fov_spec(&self) -> int {
        self.fov as int
    }

    pub closed spec fn background(&self) -> Color {
        self.bg
    }

    pub open spec fn wf(&self) -> bool {
        &&& forall|k: int| 0 <= k < self.objects().len() ==> #[trigger] self.objects()[k].wf()
        &&& forall|k: int| 0 <= k < self.lights_spec().len() ==> #[trigger] self.lights_spec()[k].wf()
        &&& in_limit(self.fov_spec())
        &&& self.background().wf()
    }

    pub open spec fn nearest(&self, o: Vec3, d: Vec3) -> Option<(usize, Hit)> {
        nearest_in(self.objects(), self.objects().len(), o, d)
    }

    /// An empty scene; `fov` is the tangent of the horizontal field-of-view angle.
    pub fn new(fov: i64, bg: Color) -> (s: Scene)
        ensures
            s.objects() == Seq::<Object>::empty(),
            s.lights_spec() == Seq::<Light>::empty(),
            s.fov_spec() == fov,
            s.background() == bg,
    {
        Scene { objs: Vec::new(), lights: Vec::new(), fov, bg }
    }

    pub fn add_obj(&mut self, obj: Object)
        ensures
            final(self).objects() == old(self).objects().push(obj),
            final(self).lights_spec() == old(self).lights_spec(),
            final(self).fov_spec() == old(self).fov_spec(),
            final(self).background() == old(self).background(),
    {
        self.objs.push(obj);
    }

    pub fn add_light(&mut self, light: Light)
        ensures
            final(self).objects() == old(self).objects(),
            final(self).lights_spec() == old(self).lights_spec().push(light),
            final(self).fov_spec() == old(self).fov_spec(),
            final(self).background() == old(self).background(),
    {
        self.lights.push(light);
    }

    /// The nearest hit along the ray over all objects, and which object it is on.
    pub fn cast_single_ray(&self, origin: Vec3, dir: Vec3) -> (r: Option<(usize, Hit)>)
        requires
            self.wf(),
            origin.wf(),
            dir.wf(),
        ensures
            r == self.nearest(origin, dir),
            r matches Some(p) ==> p.0 < self.objects().len() && p.1.wf(),
    {
        let mut closest: Option<(usize, Hit)> = None;
        let mut k: usize = 0;
        while k < self.objs.len()
            invariant
                self.wf(),
                origin.wf(),
                dir.wf(),
                k <= self.objs.len(),
                closest == nearest_in(self.objects(), k as nat, origin, dir),
                closest matches Some(p) ==> p.0 < k && p.1.wf(),
            decreases self.objs.len() - k,
        {
            assert(self.objects()[k as int].wf());
            if let Some(hit) = self.objs[k].intersect(&origin, &dir) {
                match closest {
                    Some(cl) => {
                        if hit.dist < cl.1.dist {
                            closest = Some((k, hit));
                        }
                    },
                    None => closest = Some((k, hit)),
                }
            }
            k = k + 1;
        }
        closest
    }
}

/// The specular color: white.
pub open spec fn white() -> Color {
    Color(ONE, ONE, ONE)
}

/// `base` raised to the whole power `n`, by repeated fixed-point products.
pub open spec fn pow_fx(base: int, n: nat) -> int
    decreases n,
{
    if n == 0 {
        ONE as int
    } else {
        fmul(pow_fx(base, (n - 1) as nat), base)
    }
}

/// The fixed-point square root of a value (negative values count as zero).
pub open spec fn sqrt_fx(x: int) -> int {
    sqrt_floor(max0(x) * ONE)
}

/// `r` raised to the binary fraction `frac / (2 * half)`, where `r` is the
/// base's root matching `half`: each bit of `frac`, from `half` down to 1,
/// multiplies in a root taken once more.
pub open spec fn frac_pow(r: int, frac: int, half: int) -> int
    decreases half,
{
    if half <= 0 {
        ONE as int
    } else {
        let rest = frac_pow(sqrt_fx(r), frac % half, half / 2);
        if frac >= half {
            fmul(r, rest)
        } else {
            rest
        }
    }
}

/// `base` raised to the non-negative fixed-point exponent `e`: the whole part
/// by repeated products, the fraction to sixteen binary digits by square roots.
pub open spec fn pow_real(base: int, e: int) -> int {
    fmul(pow_fx(base, (e / ONE as int) as nat), frac_pow(sqrt_fx(base), e % ONE as int, ONE / 2))
}

impl Scene {
    /// Whether something lies between `point` and the light: the nearest hit
    /// toward the light is strictly closer than the light itself.
    pub open spec fn occluded(&self, point: Vec3, light: Light) -> bool {
        let to_light = vsub(light.position, point);
        match self.nearest(point, vnorm(to_light)) {
            None => false,
            Some(p) => clamp(length_raw(vsub(p.1.point, point))) < clamp(length_raw(to_light)),
        }
    }

    /// The diffuse and specular intensity that one light gives a hit seen along `d`.
    pub open spec fn light_terms(&self, hit: Hit, m: Material, d: Vec3, light: Light) -> (int, int) {
        if self.occluded(hit.point, light) {
            (0, 0)
        } else {
            let light_dir = vnorm(vsub(light.position, hit.point));
            (
                fmul(max0(dot(hit.normal, light_dir)), light.intensity as int),
                pow_real(
                    max0(dot(vnorm(vreflect(light_dir, hit.normal)), d)),
                    max0(fmul(m.shininess as int, light.intensity as int)),
                ),
            )
        }
    }

    /// The intensities summed over the first `n` lights.
    pub open spec fn light_sums(&self, hit: Hit, m: Material, d: Vec3, n: nat) -> (int, int)
        decreases n,
    {
        if n == 0 {
            (0, 0)
        } else {
            let prev = self.light_sums(hit, m, d, (n - 1) as nat);
            let t = self.light_terms(hit, m, d, self.lights_spec()[n - 1]);
            (clamp(prev.0 + t.0), clamp(prev.1 + t.1))
        }
    }

    /// The color seen along a ray with `limit` bounces left. The reflected ray at
    /// bounce budget `limit` is perturbed by `fuzz[limit - 1]`.
    pub open spec fn trace(&self, o: Vec3, d: Vec3, limit: nat, fuzz: Seq<Vec3>) -> Color
        decreases limit,
    {
        if limit == 0 {
            self.background()
        } else {
            match self.nearest(o, d) {
                None => self.background(),
                Some(p) => {
                    let hit = p.1;
                    let m = self.objects()[p.0 as int].material_spec(hit.material);
                    let rdir = vnorm(
                        vadd(vreflect(d, hit.normal), vmul(fuzz[limit - 1], m.reflection_fuzziness as int)),
                    );
                    let rc = self.trace(hit.point, rdir, (limit - 1) as nat, fuzz);
                    let sums = self.light_sums(hit, m, d, self.lights_spec().len());
                    cadd(
                        cadd(
                            cmul(cmul(m.color, sums.0), m.diffuse_ratio as int),
                            cmul(cmul(white(), sums.1), m.specular_ratio as int),
                        ),
                        cmul(rc, m.reflectiveness as int),
                    )
                },
            }
        }
    }
}

pub fn power(base: i64, n: u64) -> (r: i64)
    requires
        in_limit(base as int),
    ensures
        r == pow_fx(base as int, n as nat),
        in_limit(r as int),
{
    let mut r: i64 = ONE;
    let mut k: u64 = 0;
    while k < n
        invariant
            k <= n,
            in_limit(base as int),
            r == pow_fx(base as int, k as nat),
            in_limit(r as int),
        decreases n - k,
    {
        r = mul_fx(r, base);
        k = k + 1;
    }
    r
}

/// The fixed-point square root.
pub fn sqrt_fixed(x: i64) -> (r: i64)
    requires
        in_limit(x as int),
    ensures
        r == sqrt_fx(x as int),
        0 <= r <= LIMIT,
{
    let u: u128 = if x < 0 { 0 } else { x as u128 };
    let r = isqrt(u * 65536);
    assert(r <= 0x400000) by (nonlinear_arith)
        requires
            r * r <= u * 65536,
            u <= LIMIT,
    ;
    r as i64
}

fn frac_power(r: i64, frac: i64, half: i64) -> (p: i64)
    requires
        in_limit(r as int),
        frac >= 0,
        half >= 0,
    ensures
        p == frac_pow(r as int, frac as int, half as int),
        in_limit(p as int),
    decreases half,
{
    if half <= 0 {
        ONE
    } else {
        let rest = frac_power(sqrt_fixed(r), frac % half, half / 2);
        if frac >= half {
            mul_fx(r, rest)
        } else {
            rest
        }
    }
}

/// `base` raised to the non-negative fixed-point exponent `e`.
pub fn power_real(base: i64, e: i64) -> (p: i64)
    requires
        in_limit(base as int),
        in_limit(e as int),
        e >= 0,
    ensures
        p == pow_real(base as int, e as int),
        in_limit(p as int),
{
    let whole = power(base, (e / ONE) as u64);
    let frac = frac_power(sqrt_fixed(base), e % ONE, ONE / 2);
    mul_fx(whole, frac)
}

impl Scene {
    fn occluded_exec(&self, point: Vec3, light: &Light) -> (b: bool)
        requires
            self.wf(),
            point.wf(),
            light.wf(),
        ensures
            b == self.occluded(point, *light),
    {
        let to_light = light.position.sub(point);
        match self.cast_single_ray(point, to_light.norm()) {
            None => false,
            Some(p) => p.1.point.sub(point).length() < to_light.length(),
        }
    }

    fn light_terms_exec(&self, hit: &Hit, m: &Material, dir: &Vec3, light: &Light) -> (t: (i64, i64))
        requires
            self.wf(),
            hit.wf(),
            m.wf(),
            dir.wf(),
            light.wf(),
        ensures
            t.0 == self.light_terms(*hit, *m, *dir, *light).0,
            t.1 == self.light_terms(*hit, *m, *dir, *light).1,
            in_limit(t.0 as int),
            in_limit(t.1 as int),
    {
        if self.occluded_exec(hit.point, light) {
            return (0, 0);
        }
        let light_dir = light.position.sub(hit.point).norm();
        let cos = scalar(&hit.normal, &light_dir);
        let diffuse = mul_fx(if cos < 0 { 0 } else { cos }, light.intensity);
        let mirror = scalar(&reflect(&light_dir, &hit.normal).norm(), dir);
        let e = mul_fx(m.shininess, light.intensity);
        let specular = power_real(if mirror < 0 { 0 } else { mirror }, if e < 0 { 0 } else { e });
        (diffuse, specular)
    }

    fn shade_lights(&self, hit: &Hit, m: &Material, dir: &Vec3) -> (t: (i64, i64))
        requires
            self.wf(),
            hit.wf(),
            m.wf(),
            dir.wf(),
        ensures
            t.0 == self.light_sums(*hit, *m, *dir, self.lights_spec().len()).0,
            t.1 == self.light_sums(*hit, *m, *dir, self.lights_spec().len()).1,
            in_limit(t.0 as int),
            in_limit(t.1 as int),
    {
        let mut diffuse: i64 = 0;
        let mut specular: i64 = 0;
        let mut k: usize = 0;
        while k < self.lights.len()
            invariant
                self.wf(),
                hit.wf(),
                m.wf(),
                dir.wf(),
                k <= self.lights@.len(),
                diffuse == self.light_sums(*hit, *m, *dir, k as nat).0,
                specular == self.light_sums(*hit, *m, *dir, k as nat).1,
                in_limit(diffuse as int),
                in_limit(specular as int),
            decreases self.lights@.len() - k,
        {
            assert(self.lights_spec()[k as int].wf());
            let t = self.light_terms_exec(hit, m, dir, &self.lights[k]);
            diffuse = clamp_wide(diffuse as i128 + t.0 as i128);
            specular = clamp_wide(specular as i128 + t.1 as i128);
            k = k + 1;
        }
        (diffuse, specular)
    }

    /// The color seen along the ray `origin + t * dir`, with `limit` bounces left.
    /// Reflected rays at bounce budget `k` are perturbed by `fuzz[k - 1]`
    /// scaled by the surface's fuzziness.
    pub fn cast_ray(&self, origin: Vec3, dir: Vec3, limit: u32, fuzz: &Vec<Vec3>) -> (c: Color)
        requires
            self.wf(),
            origin.wf(),
            dir.wf(),
            limit <= fuzz@.len(),
            forall|k: int| 0 <= k < fuzz@.len() ==> #[trigger] fuzz@[k].wf(),
        ensures
            c == self.trace(origin, dir, limit as nat, fuzz@),
            limit == 0 ==> c == self.background(),
            c.wf(),
        decreases limit,
    {
        if limit == 0 {
            return self.bg;
        }
        match self.cast_single_ray(origin, dir) {
            None => self.bg,
            Some(p) => {
                let hit = p.1;
                assert(self.objects()[p.0 as int].wf());
                let m = self.objs[p.0].material(hit.material);
                let f = fuzz[(limit - 1) as usize];
                let rdir = reflect(&dir, &hit.normal).add(f.mul(m.reflection_fuzziness)).norm();
                let reflect_color = self.cast_ray(hit.point, rdir, limit - 1, fuzz);
                let (diffuse, specular) = self.shade_lights(&hit, m, &dir);
                let white = Color(ONE, ONE, ONE);
                m.color.mul(diffuse).mul(m.diffuse_ratio).add(
                    white.mul(specular).mul(m.specular_ratio),
                ).add(reflect_color.mul(m.reflectiveness))
            },
        }
    }
}

/// The normalized-device offset of pixel `k` of `n`, jittered by `jitter` in `[0, ONE)`:
/// `-1 + (2k + jitter) / (n - 1)`.
pub open spec fn ndc(k: int, jitter: int, n: int) -> int {
    -ONE + tdiv(2 * k * ONE + jitter, n - 1)
}

/// One jittered antialiasing sample: the two sub-pixel offsets and the fuzz vectors.
pub type Sample = (i64, i64, Seq<Vec3>);

pub open spec fn sample_ok(s: Sample, max_it: nat) -> bool {
    &&& 0 <= s.0 < ONE
    &&& 0 <= s.1 < ONE
    &&& s.2.len() == max_it
    &&& forall|k: int| 0 <= k < s.2.len() ==> #[trigger] in_unit_cube(s.2[k])
}

impl Scene {
    /// The direction of the camera ray through pixel `(i, j)` of a `w` by `h` image.
    pub open spec fn camera_dir(&self, i: int, j: int, w: int, h: int, jx: int, jy: int) -> Vec3 {
        let horizontal = self.fov_spec();
        let vertical = clamp(tdiv(self.fov_spec() * h, w));
        vnorm(
            Vec3(
                fmul(horizontal, ndc(i, jx, w)) as i64,
                fmul(vertical, ndc(j, jy, h)) as i64,
                (-ONE) as i64,
            ),
        )
    }

    /// The color one sample gives pixel `(i, j)`: the camera ray cast from the origin.
    pub open spec fn sample_color(&self, i: int, j: int, w: int, h: int, max_it: nat, s: Sample) -> Color {
        self.trace(Vec3(0, 0, 0), self.camera_dir(i, j, w, h, s.0 as int, s.1 as int), max_it, s.2)
    }

    /// The channel sums of the colors of the first `n` samples.
    pub open spec fn sample_sum(
        &self,
        i: int,
        j: int,
        w: int,
        h: int,
        max_it: nat,
        ss: Seq<Sample>,
        n: nat,
    ) -> (int, int, int)
        decreases n,
    {
        if n == 0 {
            (0, 0, 0)
        } else {
            let prev = self.sample_sum(i, j, w, h, max_it, ss, (n - 1) as nat);
            let c = self.sample_color(i, j, w, h, max_it, ss[n - 1]);
            (prev.0 + c.0, prev.1 + c.1, prev.2 + c.2)
        }
    }

    /// The pixel value from a set of samples: the average color, quantized.
    pub open spec fn pixel_of(&self, i: int, j: int, w: int, h: int, max_it: nat, ss: Seq<Sample>) -> [u8; 3] {
        let sum = self.sample_sum(i, j, w, h, max_it, ss, ss.len());
        let n = ss.len() as int;
        rgb_of(color_of(tdiv(sum.0, n), tdiv(sum.1, n), tdiv(sum.2, n)))
    }

    /// Whether `px` is what pixel `(i, j)` gets from some `aa` valid samples.
    pub open spec fn pixel_from(
        &self,
        px: Seq<u8>,
        i: int,
        j: int,
        w: int,
        h: int,
        max_it: nat,
        aa: nat,
    ) -> bool {
        exists|ss: Seq<Sample>|
            {
                &&& ss.len() == aa
                &&& forall|k: int| 0 <= k < ss.len() ==> #[trigger] sample_ok(ss[k], max_it)
                &&& px == self.pixel_of(i, j, w, h, max_it, ss)@
            }
    }

    /// Whether `img` is a rendering of the scene: `w` by `h` pixels, pixel `(i, j)`
    /// (column `i`, row `j`, from the top left) the average of `aa` jittered samples.
    pub open spec fn is_render(&self, img: Image, w: u32, h: u32, max_it: nat, aa: nat) -> bool {
        &&& image_size(img) == (w, h)
        &&& forall|i: u32, j: u32|
            i < w && j < h ==> #[trigger] self.pixel_from(
                image_pixels(img)[(i, j)],
                i as int,
                j as int,
                w as int,
                h as int,
                max_it,
                aa,
            )
    }

    /// The direction of the camera ray through pixel `(i, j)`, jittered by `(jx, jy)`.
    pub fn camera_ray(&self, i: u32, j: u32, w: u32, h: u32, jx: i64, jy: i64) -> (d: Vec3)
        requires
            self.wf(),
            i < w,
            j < h,
            w >= 2,
            h >= 2,
            0 <= jx < ONE,
            0 <= jy < ONE,
        ensures
            d == self.camera_dir(i as int, j as int, w as int, h as int, jx as int, jy as int),
            d.wf(),
    {
        let one = ONE as i128;
        let horizontal = self.fov;
        assert(-LIMIT * 0x1_0000_0000 <= self.fov * h <= LIMIT * 0x1_0000_0000) by (nonlinear_arith)
            requires
                in_limit(self.fov as int),
                0 <= h < 0x1_0000_0000,
        ;
        let vertical = clamp_wide((self.fov as i128 * h as i128) / w as i128);
        let nx = -one + (2 * (i as i128) * one + jx as i128) / ((w - 1) as i128);
        let ny = -one + (2 * (j as i128) * one + jy as i128) / ((h - 1) as i128);
        assert(-ONE <= nx <= 4 * ONE) by (nonlinear_arith)
            requires
                nx == -ONE + (2 * i * ONE + jx) / (w - 1),
                i < w,
                w >= 2,
                0 <= jx < ONE,
        ;
        assert(-ONE <= ny <= 4 * ONE) by (nonlinear_arith)
            requires
                ny == -ONE + (2 * j * ONE + jy) / (h - 1),
                j < h,
                h >= 2,
                0 <= jy < ONE,
        ;
        let x = mul_fx(horizontal, nx as i64);
        let y = mul_fx(vertical, ny as i64);
        Vec3(x, y, -ONE).norm()
    }
}

impl Scene {
    /// `n` random fuzz vectors.
    fn random_fuzz(n: u32) -> (v: Vec<Vec3>)
        ensures
            v@.len() == n,
            forall|k: int| 0 <= k < v@.len() ==> #[trigger] in_unit_cube(v@[k]),
            forall|k: int| 0 <= k < v@.len() ==> #[trigger] v@[k].wf(),
    {
        let mut v: Vec<Vec3> = Vec::new();
        let mut k: u32 = 0;
        while k < n
            invariant
                k <= n,
                v@.len() == k,
                forall|q: int| 0 <= q < v@.len() ==> #[trigger] in_unit_cube(v@[q]),
                forall|q: int| 0 <= q < v@.len() ==> #[trigger] v@[q].wf(),
            decreases n - k,
        {
            v.push(Vec3::random_in_cube());
            k = k + 1;
        }
        v
    }

    /// Renders pixel `(i, j)` from `aa` random samples.
    pub fn render_pixel(&self, i: u32, j: u32, w: u32, h: u32, max_it: u32, aa: u32) -> (px: [u8; 3])
        requires
            self.wf(),
            i < w,
            j < h,
            w >= 2,
            h >= 2,
            aa >= 1,
        ensures
            self.pixel_from(px@, i as int, j as int, w as int, h as int, max_it as nat, aa as nat),
    {
        let ghost mut ss: Seq<Sample> = Seq::empty();
        let mut r: i128 = 0;
        let mut g: i128 = 0;
        let mut b: i128 = 0;
        let mut k: u32 = 0;
        while k < aa
            invariant
                self.wf(),
                i < w,
                j < h,
                w >= 2,
                h >= 2,
                k <= aa,
                ss.len() == k,
                forall|q: int| 0 <= q < ss.len() ==> #[trigger] sample_ok(ss[q], max_it as nat),
                (r as int, g as int, b as int) == self.sample_sum(
                    i as int,
                    j as int,
                    w as int,
                    h as int,
                    max_it as nat,
                    ss,
                    k as nat,
                ),
                -k * LIMIT <= r <= k * LIMIT,
                -k * LIMIT <= g <= k * LIMIT,
                -k * LIMIT <= b <= k * LIMIT,
            decreases aa - k,
        {
            let jx = random_jitter();
            let jy = random_jitter();
            let fuzz = Scene::random_fuzz(max_it);
            let dir = self.camera_ray(i, j, w, h, jx, jy);
            let c = self.cast_ray(Vec3(0, 0, 0), dir, max_it, &fuzz);
            let ghost s: Sample = (jx, jy, fuzz@);
            proof {
                let ss2 = ss.push(s);
                assert forall|n: nat| n <= k implies self.sample_sum(
                    i as int,
                    j as int,
                    w as int,
                    h as int,
                    max_it as nat,
                    ss2,
                    n,
                ) == self.sample_sum(i as int, j as int, w as int, h as int, max_it as nat, ss, n) by {
                    self.lemma_sample_sum_prefix(i as int, j as int, w as int, h as int, max_it as nat, ss, s, n);
                }
                assert(ss2[k as int] == s);
                ss = ss2;
            }
            r = r + c.0 as i128;
            g = g + c.1 as i128;
            b = b + c.2 as i128;
            k = k + 1;
        }
        let n = aa as i128;
        let avg = Color(clamp_wide(r / n), clamp_wide(g / n), clamp_wide(b / n));
        let px = avg.to_rgb();
        assert(px == self.pixel_of(i as int, j as int, w as int, h as int, max_it as nat, ss));
        px
    }

    proof fn lemma_sample_sum_prefix(
        &self,
        i: int,
        j: int,
        w: int,
        h: int,
        max_it: nat,
        ss: Seq<Sample>,
        s: Sample,
        n: nat,
    )
        requires
            n <= ss.len(),
        ensures
            self.sample_sum(i, j, w, h, max_it, ss.push(s), n) == self.sample_sum(i, j, w, h, max_it, ss, n),
        decreases n,
    {
        if n > 0 {
            self.lemma_sample_sum_prefix(i, j, w, h, max_it, ss, s, (n - 1) as nat);
            assert(ss.push(s)[n - 1] == ss[n - 1]);
        }
    }

    /// Renders a `width` by `height` image, each pixel averaged over `aa_passes`
    /// jittered samples with `max_it` bounces. Images narrower or lower than two
    /// pixels, or with no samples, are refused.
    pub fn render(&self, width: u32, height: u32, max_it: u32, aa_passes: u32) -> (img: Option<Image>)
        requires
            self.wf(),
            width * height * 3 <= usize::MAX,
        ensures
            img is None <==> (width < 2 || height < 2 || aa_passes == 0),
            img matches Some(im) ==> self.is_render(im, width, height, max_it as nat, aa_passes as nat),
    {
        if width < 2 || height < 2 || aa_passes == 0 {
            return None;
        }
        let mut img = blank_image(width, height);
        let mut i: u32 = 0;
        while i < width
            invariant
                self.wf(),
                width >= 2,
                height >= 2,
                aa_passes >= 1,
                i <= width,
                image_size(img) == (width, height),
                forall|i2: u32, j2: u32|
                    i2 < i && j2 < height ==> #[trigger] self.pixel_from(
                        image_pixels(img)[(i2, j2)],
                        i2 as int,
                        j2 as int,
                        width as int,
                        height as int,
                        max_it as nat,
                        aa_passes as nat,
                    ),
            decreases width - i,
        {
            let mut j: u32 = 0;
            while j < height
                invariant
                    self.wf(),
                    width >= 2,
                    height >= 2,
                    aa_passes >= 1,
                    i < width,
                    j <= height,
                    image_size(img) == (width, height),
                    forall|i2: u32, j2: u32|
                        (i2 < i && j2 < height) || (i2 == i && j2 < j) ==> #[trigger] self.pixel_from(
                            image_pixels(img)[(i2, j2)],
                            i2 as int,
                            j2 as int,
                            width as int,
                            height as int,
                            max_it as nat,
                            aa_passes as nat,
                        ),
                decreases height - j,
            {
                let px = self.render_pixel(i, j, width, height, max_it, aa_passes);
                let ghost before = img;
                put_pixel(&mut img, i, j, px);
                proof {
                    assert forall|i2: u32, j2: u32|
                        (i2 < i && j2 < height) || (i2 == i && j2 < j + 1) implies #[trigger] self.pixel_from(
                        image_pixels(img)[(i2, j2)],
                        i2 as int,
                        j2 as int,
                        width as int,
                        height as int,
                        max_it as nat,
                        aa_passes as nat,
                    ) by {
                        if i2 != i || j2 != j {
                            assert(image_pixels(img)[(i2, j2)] == image_pixels(before)[(i2, j2)]);
                            assert(self.pixel_from(
                                image_pixels(before)[(i2, j2)],
                                i2 as int,
                                j2 as int,
                                width as int,
                                height as int,
                                max_it as nat,
                                aa_passes as nat,
                            ));
                        }
                    }
                }
                j = j + 1;
            }
            i = i + 1;
        }
        Some(img)
    }
}

impl Scene {
    /// A light that an occluder hides from a hit point adds neither diffuse nor
    /// specular intensity there.
    pub proof fn lemma_shadowed_light_adds_nothing(&self, hit: Hit, m: Material, d: Vec3, light: Light)
        requires
            self.occluded(hit.point, light),
        ensures
            self.light_terms(hit, m, d, light) == (0int, 0int),
    {
    }

    /// In a scene without objects every ray sees the background.
    pub proof fn lemma_empty_scene_traces_background(&self, o: Vec3, d: Vec3, limit: nat, fuzz: Seq<Vec3>)
        requires
            self.objects().len() == 0,
        ensures
            self.trace(o, d, limit, fuzz) == self.background(),
    {
    }

    proof fn lemma_empty_scene_sample_sum(
        &self,
        i: int,
        j: int,
        w: int,
        h: int,
        max_it: nat,
        ss: Seq<Sample>,
        n: nat,
    )
        requires
            self.objects().len() == 0,
        ensures
            self.sample_sum(i, j, w, h, max_it, ss, n) == (
                n * self.background().0,
                n * self.background().1,
                n * self.background().2,
            ),
        decreases n,
    {
        if n > 0 {
            self.lemma_empty_scene_sample_sum(i, j, w, h, max_it, ss, (n - 1) as nat);
            self.lemma_empty_scene_traces_background(
                Vec3(0, 0, 0),
                self.camera_dir(i, j, w, h, ss[n - 1].0 as int, ss[n - 1].1 as int),
                max_it,
                ss[n - 1].2,
            );
            let bg = self.background();
            assert(self.sample_color(i, j, w, h, max_it, ss[n - 1]) == bg);
            assert((n - 1) * bg.0 + bg.0 == n * bg.0) by (nonlinear_arith);
            assert((n - 1) * bg.1 + bg.1 == n * bg.1) by (nonlinear_arith);
            assert((n - 1) * bg.2 + bg.2 == n * bg.2) by (nonlinear_arith);
        } else {
            let bg = self.background();
            assert(0 * bg.0 == 0 && 0 * bg.1 == 0 && 0 * bg.2 == 0);
        }
    }

    /// Every pixel of a rendering of a scene without objects is the background,
    /// whatever the number of samples.
    pub proof fn lemma_empty_scene_pixel(
        &self,
        px: Seq<u8>,
        i: int,
        j: int,
        w: int,
        h: int,
        max_it: nat,
        aa: nat,
    )
        requires
            self.wf(),
            self.objects().len() == 0,
            aa >= 1,
            self.pixel_from(px, i, j, w, h, max_it, aa),
        ensures
            px == rgb_of(self.background())@,
    {
        let ss = choose|ss: Seq<Sample>|
            {
                &&& ss.len() == aa
                &&& forall|k: int| 0 <= k < ss.len() ==> #[trigger] sample_ok(ss[k], max_it)
                &&& px == self.pixel_of(i, j, w, h, max_it, ss)@
            };
        self.lemma_empty_scene_sample_sum(i, j, w, h, max_it, ss, aa);
        let bg = self.background();
        lemma_tdiv_multiple(bg.0 as int, aa as int);
        lemma_tdiv_multiple(bg.1 as int, aa as int);
        lemma_tdiv_multiple(bg.2 as int, aa as int);
        assert(color_of(bg.0 as int, bg.1 as int, bg.2 as int) == bg);
    }

    /// Rendering a scene without objects gives the same pixels whatever the
    /// number of antialiasing samples: there is nothing but background to sample.
    pub proof fn lemma_background_only_render_ignores_samples(
        &self,
        img1: Image,
        img2: Image,
        w: u32,
        h: u32,
        max_it: nat,
        aa1: nat,
        aa2: nat,
    )
        requires
            self.wf(),
            self.objects().len() == 0,
            aa1 >= 1,
            aa2 >= 1,
            self.is_render(img1, w, h, max_it, aa1),
            self.is_render(img2, w, h, max_it, aa2),
        ensures
            image_size(img1) == image_size(img2),
            forall|i: u32, j: u32|
                i < w && j < h ==> #[trigger] image_pixels(img1)[(i, j)] == image_pixels(img2)[(i, j)],
    {
        assert forall|i: u32, j: u32| i < w && j < h implies #[trigger] image_pixels(img1)[(i, j)]
            == image_pixels(img2)[(i, j)] by {
            assert(self.pixel_from(image_pixels(img1)[(i, j)], i as int, j as int, w as int, h as int, max_it, aa1));
            assert(self.pixel_from(image_pixels(img2)[(i, j)], i as int, j as int, w as int, h as int, max_it, aa2));
            self.lemma_empty_scene_pixel(image_pixels(img1)[(i, j)], i as int, j as int, w as int, h as int, max_it, aa1);
            self.lemma_empty_scene_pixel(image_pixels(img2)[(i, j)], i as int, j as int, w as int, h as int, max_it, aa2);
        }
    }
}

/// Truncating division undoes multiplication by a positive count.
pub proof fn lemma_tdiv_multiple(c: int, n: int)
    requires
        n >= 1,
    ensures
        tdiv(n * c, n) == c,
{
    if c >= 0 {
        vstd::arithmetic::div_mod::lemma_div_by_multiple(c, n);
        assert(n * c == c * n) by (nonlinear_arith);
        assert(n * c >= 0) by (nonlinear_arith)
            requires
                c >= 0,
                n >= 1,
        ;
    } else {
        vstd::arithmetic::div_mod::lemma_div_by_multiple(-c, n);
        assert(-(n * c) == (-c) * n) by (nonlinear_arith);
        assert(n * c < 0) by (nonlinear_arith)
            requires
                c < 0,
                n >= 1,
        ;
    }
}

} // verus!
