//! Three-dimensional vectors over fixed-point components.
use crate::fixed::{
    clamp, clamp_wide, div_fx, fdiv, fmul, in_limit, isqrt, mul_fx, sqrt_floor, tdiv, LIMIT, ONE,
};
use vstd::prelude::*;

verus! {

/// A point or a direction; each component is a fixed-point value.
#[derive(Debug, Clone, Copy, PartialEq, Eq, Hash, Structural)]
pub struct Vec3(pub i64, pub i64, pub i64);

impl Vec3 {
    /// Every component lies in the stored range.
    pub open spec fn wf(self) -> bool {
        in_limit(self.0 as int) && in_limit(self.1 as int) && in_limit(self.2 as int)
    }
}

pub open spec fn vec_of(x: int, y: int, z: int) -> Vec3 {
    Vec3(clamp(x) as i64, clamp(y) as i64, clamp(z) as i64)
}

pub open spec fn vadd(a: Vec3, b: Vec3) -> Vec3 {
    vec_of(a.0 + b.0, a.1 + b.1, a.2 + b.2)
}

pub open spec fn vneg(a: Vec3) -> Vec3 {
    Vec3((-a.0) as i64, (-a.1) as i64, (-a.2) as i64)
}

pub open spec fn vsub(a: Vec3, b: Vec3) -> Vec3 {
    vadd(a, vneg(b))
}

pub open spec fn vmul(a: Vec3, k: int) -> Vec3 {
    vec_of(fmul(a.0 as int, k), fmul(a.1 as int, k), fmul(a.2 as int, k))
}

/// Division by a nonzero fixed-point scalar, truncating toward zero.
pub open spec fn vdiv(a: Vec3, k: int) -> Vec3 {
    if k > 0 {
        vec_of(fdiv(a.0 as int, k), fdiv(a.1 as int, k), fdiv(a.2 as int, k))
    } else {
        vec_of(fdiv(-a.0, -k), fdiv(-a.1, -k), fdiv(-a.2, -k))
    }
}

/// The exact dot product of the raw components (scaled by `ONE * ONE`).
pub open spec fn dot_raw(a: Vec3, b: Vec3) -> int {
    a.0 * b.0 + a.1 * b.1 + a.2 * b.2
}

/// The fixed-point dot product.
pub open spec fn dot(a: Vec3, b: Vec3) -> int {
    clamp(tdiv(dot_raw(a, b), ONE as int))
}

/// The Euclidean length, as a fixed-point value rounded down.
pub open spec fn length_raw(a: Vec3) -> int {
    sqrt_floor(dot_raw(a, a))
}

/// The Euclidean length at `ONE` times the fixed-point scale, rounded down.
pub open spec fn length_fine(a: Vec3) -> int {
    sqrt_floor(dot_raw(a, a) * ONE * ONE)
}

/// The unit vector along `a`; the zero vector stays zero.
pub open spec fn vnorm(a: Vec3) -> Vec3 {
    let l = length_fine(a);
    if l == 0 {
        Vec3(0, 0, 0)
    } else {
        vec_of(tdiv(a.0 * ONE * ONE, l), tdiv(a.1 * ONE * ONE, l), tdiv(a.2 * ONE * ONE, l))
    }
}

/// Mirror reflection of `r` about the normal `n`: `r - n * dot(r, n) * 2`.
pub open spec fn vreflect(r: Vec3, n: Vec3) -> Vec3 {
    vsub(r, vmul(vmul(n, dot(r, n)), 2 * ONE))
}

pub proof fn lemma_dot_raw_bound(a: Vec3, b: Vec3)
    requires
        a.wf(),
        b.wf(),
    ensures
        -LIMIT * LIMIT <= a.0 * b.0 <= LIMIT * LIMIT,
        -LIMIT * LIMIT <= a.1 * b.1 <= LIMIT * LIMIT,
        -LIMIT * LIMIT <= a.2 * b.2 <= LIMIT * LIMIT,
        -3 * LIMIT * LIMIT <= dot_raw(a, b) <= 3 * LIMIT * LIMIT,
{
    assert(-LIMIT * LIMIT <= a.0 * b.0 <= LIMIT * LIMIT) by (nonlinear_arith)
        requires
            in_limit(a.0 as int),
            in_limit(b.0 as int),
    ;
    assert(-LIMIT * LIMIT <= a.1 * b.1 <= LIMIT * LIMIT) by (nonlinear_arith)
        requires
            in_limit(a.1 as int),
            in_limit(b.1 as int),
    ;
    assert(-LIMIT * LIMIT <= a.2 * b.2 <= LIMIT * LIMIT) by (nonlinear_arith)
        requires
            in_limit(a.2 as int),
            in_limit(b.2 as int),
    ;
}

pub proof fn lemma_dot_self_nonneg(a: Vec3)
    ensures
        dot_raw(a, a) >= 0,
{
    assert(a.0 * a.0 >= 0) by (nonlinear_arith);
    assert(a.1 * a.1 >= 0) by (nonlinear_arith);
    assert(a.2 * a.2 >= 0) by (nonlinear_arith);
}

/// The exact dot product, computed without overflow.
pub fn dot_wide(l: &Vec3, r: &Vec3) -> (d: i128)
    requires
        l.wf(),
        r.wf(),
    ensures
        d == dot_raw(*l, *r),
{
    proof {
        lemma_dot_raw_bound(*l, *r);
    }
    let x: i128 = (l.0 as i128) * (r.0 as i128);
    let y: i128 = (l.1 as i128) * (r.1 as i128);
    let z: i128 = (l.2 as i128) * (r.2 as i128);
    x + y + z
}

/// The fixed-point dot product.
pub fn scalar(l: &Vec3, r: &Vec3) -> (d: i64)
    requires
        l.wf(),
        r.wf(),
    ensures
        d == dot(*l, *r),
        in_limit(d as int),
{
    let w = dot_wide(l, r);
    clamp_wide(w / (ONE as i128))
}

/// Mirror reflection of `r` about the unit normal `normal`.
pub fn reflect(r: &Vec3, normal: &Vec3) -> (v: Vec3)
    requires
        r.wf(),
        normal.wf(),
    ensures
        v == vreflect(*r, *normal),
        v.wf(),
{
    let d = scalar(r, normal);
    r.sub(normal.mul(d).mul(2 * ONE))
}

impl Vec3 {
    pub fn from_wide(x: i128, y: i128, z: i128) -> (v: Vec3)
        ensures
            v == vec_of(x as int, y as int, z as int),
            v.wf(),
    {
        Vec3(clamp_wide(x), clamp_wide(y), clamp_wide(z))
    }

    pub fn add(self, rhs: Vec3) -> (v: Vec3)
        requires
            self.wf(),
            rhs.wf(),
        ensures
            v == vadd(self, rhs),
            v.wf(),
    {
        Vec3::from_wide(
            self.0 as i128 + rhs.0 as i128,
            self.1 as i128 + rhs.1 as i128,
            self.2 as i128 + rhs.2 as i128,
        )
    }

    pub fn neg(self) -> (v: Vec3)
        requires
            self.wf(),
        ensures
            v == vneg(self),
            v.wf(),
    {
        Vec3(-self.0, -self.1, -self.2)
    }

    pub fn sub(self, rhs: Vec3) -> (v: Vec3)
        requires
            self.wf(),
            rhs.wf(),
        ensures
            v == vsub(self, rhs),
            v.wf(),
    {
        self.add(rhs.neg())
    }

    /// Scales by a fixed-point factor.
    pub fn mul(self, rhs: i64) -> (v: Vec3)
        requires
            self.wf(),
            in_limit(rhs as int),
        ensures
            v == vmul(self, rhs as int),
            v.wf(),
    {
        Vec3(mul_fx(self.0, rhs), mul_fx(self.1, rhs), mul_fx(self.2, rhs))
    }

    /// Divides by a nonzero fixed-point factor.
    pub fn div(self, rhs: i64) -> (v: Vec3)
        requires
            self.wf(),
            in_limit(rhs as int),
            rhs != 0,
        ensures
            v == vdiv(self, rhs as int),
            v.wf(),
    {
        if rhs > 0 {
            Vec3(div_fx(self.0, rhs), div_fx(self.1, rhs), div_fx(self.2, rhs))
        } else {
            Vec3(div_fx(-self.0, -rhs), div_fx(-self.1, -rhs), div_fx(-self.2, -rhs))
        }
    }

    /// The Euclidean length, saturated to the stored range.
    pub fn length(&self) -> (l: i64)
        requires
            self.wf(),
        ensures
            l == clamp(length_raw(*self)),
            l >= 0,
    {
        let n = self.length_wide();
        clamp_wide(n as i128)
    }

    fn length_wide(&self) -> (l: u64)
        requires
            self.wf(),
        ensures
            l == length_raw(*self),
            l > 0 <==> dot_raw(*self, *self) > 0,
    {
        let d = dot_wide(self, self);
        proof {
            lemma_dot_self_nonneg(*self);
            lemma_dot_raw_bound(*self, *self);
        }
        let r = isqrt(d as u128);
        assert(r < 0x1_0000_0000) by (nonlinear_arith)
            requires
                r * r <= d,
                d <= 3 * LIMIT * LIMIT,
        ;
        assert(r > 0 <==> d > 0) by (nonlinear_arith)
            requires
                r * r <= d,
                d < (r + 1) * (r + 1),
                r >= 0,
        ;
        r as u64
    }

    fn length_fine_wide(&self) -> (l: u64)
        requires
            self.wf(),
        ensures
            l == length_fine(*self),
            l > 0 <==> dot_raw(*self, *self) > 0,
    {
        let d = dot_wide(self, self);
        proof {
            lemma_dot_self_nonneg(*self);
            lemma_dot_raw_bound(*self, *self);
        }
        let one = ONE as u128;
        let big: u128 = (d as u128) * one * one;
        let r = isqrt(big);
        assert(r < 0x1_0000_0000_0000) by (nonlinear_arith)
            requires
                r * r <= big,
                big <= 3 * LIMIT * LIMIT * 65536 * 65536,
        ;
        assert(r > 0 <==> big > 0) by (nonlinear_arith)
            requires
                r * r <= big,
                big < (r + 1) * (r + 1),
                r >= 0,
        ;
        r as u64
    }

    /// The unit vector along `self`; the zero vector is returned unchanged.
    pub fn norm(self) -> (v: Vec3)
        requires
            self.wf(),
        ensures
            v == vnorm(self),
            v.wf(),
    {
        let l = self.length_fine_wide();
        if l == 0 {
            Vec3(0, 0, 0)
        } else {
            let k: i128 = 4294967296;
            let lw = l as i128;
            Vec3::from_wide(
                (self.0 as i128 * k) / lw,
                (self.1 as i128 * k) / lw,
                (self.2 as i128 * k) / lw,
            )
        }
    }

    /// Same as [`Vec3::norm`].
    pub fn normalize(self) -> (v: Vec3)
        requires
            self.wf(),
        ensures
            v == vnorm(self),
            v.wf(),
    {
        self.norm()
    }
}

/// Vector addition is commutative.
pub proof fn lemma_add_commutative(a: Vec3, b: Vec3)
    ensures
        vadd(a, b) == vadd(b, a),
{
}

/// Vector addition is associative wherever no sum leaves the stored range.
pub proof fn lemma_add_associative(a: Vec3, b: Vec3, c: Vec3)
    requires
        a.wf(),
        b.wf(),
        c.wf(),
        in_limit(a.0 + b.0),
        in_limit(a.1 + b.1),
        in_limit(a.2 + b.2),
        in_limit(b.0 + c.0),
        in_limit(b.1 + c.1),
        in_limit(b.2 + c.2),
        in_limit(a.0 + b.0 + c.0),
        in_limit(a.1 + b.1 + c.1),
        in_limit(a.2 + b.2 + c.2),
    ensures
        vadd(vadd(a, b), c) == vadd(a, vadd(b, c)),
{
}

/// A vector minus itself is the zero vector.
pub proof fn lemma_sub_self(v: Vec3)
    requires
        v.wf(),
    ensures
        vsub(v, v) == Vec3(0, 0, 0),
{
}

/// The dot product of a vector with itself is its squared length, up to the
/// rounding of the length down to a whole raw value.
pub proof fn lemma_dot_self_is_length_squared(v: Vec3)
    ensures
        0 <= length_raw(v),
        length_raw(v) * length_raw(v) <= dot_raw(v, v) < (length_raw(v) + 1) * (length_raw(v) + 1),
{
    lemma_dot_self_nonneg(v);
    let n = dot_raw(v, v);
    let r = crate::fixed::isqrt_exists(n);
    crate::fixed::lemma_sqrt_floor_unique(n, r);
}

/// Where the dot product of a vector with itself is the square of `r`, the
/// length is exactly `r`.
pub proof fn lemma_length_of_square(v: Vec3, r: int)
    requires
        0 <= r,
        r * r == dot_raw(v, v),
    ensures
        length_raw(v) == r,
{
    crate::fixed::lemma_sqrt_of_square(r);
}

proof fn lemma_norm_component(x: int, l: int) -> (m: int)
    requires
        l >= 1,
        x * x <= l * l,
    ensures
        0 <= m <= ONE,
        tdiv(x * ONE, l) * tdiv(x * ONE, l) == m * m,
        in_limit(tdiv(x * ONE, l)),
        m * l <= abs_int(x) * ONE < (m + 1) * l,
{
    let a = abs_int(x);
    assert(a * a == x * x) by (nonlinear_arith)
        requires
            a == abs_int(x),
    ;
    if a > l {
        crate::fixed::lemma_square_monotone(l + 1, a);
        assert((l + 1) * (l + 1) > l * l) by (nonlinear_arith)
            requires
                l >= 1,
        ;
    }
    assert(a <= l);
    let m = (a * ONE) / l;
    assert(m * l <= a * ONE < (m + 1) * l && 0 <= m <= ONE) by (nonlinear_arith)
        requires
            m == (a * ONE) / l,
            0 <= a <= l,
            l >= 1,
    ;
    if x >= 0 {
        assert(x * ONE >= 0) by (nonlinear_arith)
            requires
                x >= 0,
        ;
        assert(tdiv(x * ONE, l) == m);
    } else {
        assert(x * ONE < 0) by (nonlinear_arith)
            requires
                x < 0,
        ;
        assert(-(x * ONE) == a * ONE);
        assert(tdiv(x * ONE, l) == -m);
        assert((-m) * (-m) == m * m) by (nonlinear_arith);
    }
    m
}

proof fn lemma_square_of_product(m: int, l: int)
    ensures
        (m * m) * (l * l) == (m * l) * (m * l),
{
    assert((m * m) * (l * l) == (m * l) * (m * l)) by (nonlinear_arith);
}

pub proof fn lemma_distribute3(p: int, q: int, r: int, z: int)
    ensures
        (p + q + r) * z == p * z + q * z + r * z,
{
    assert((p + q + r) * z == p * z + q * z + r * z) by (nonlinear_arith);
}

pub open spec fn abs_int(x: int) -> int {
    if x < 0 {
        -x
    } else {
        x
    }
}

proof fn lemma_sum_scaled(m0: int, m1: int, m2: int, a0: int, a1: int, a2: int, l: int, k: int)
    requires
        l >= 1,
        k >= 1,
        0 <= m0,
        0 <= m1,
        0 <= m2,
        0 <= a0,
        0 <= a1,
        0 <= a2,
        m0 * l <= a0 * k < (m0 + 1) * l,
        m1 * l <= a1 * k < (m1 + 1) * l,
        m2 * l <= a2 * k < (m2 + 1) * l,
    ensures
        (m0 * m0 + m1 * m1 + m2 * m2) * (l * l) <= (a0 * a0 + a1 * a1 + a2 * a2) * (k * k),
        (a0 * a0 + a1 * a1 + a2 * a2) * (k * k) < ((m0 + 1) * (m0 + 1) + (m1 + 1) * (m1 + 1) + (m2
            + 1) * (m2 + 1)) * (l * l),
{
    crate::fixed::lemma_square_monotone(m0 * l, a0 * k);
    crate::fixed::lemma_square_monotone(m1 * l, a1 * k);
    crate::fixed::lemma_square_monotone(m2 * l, a2 * k);
    crate::fixed::lemma_square_monotone(a0 * k, (m0 + 1) * l);
    crate::fixed::lemma_square_monotone(a1 * k, (m1 + 1) * l);
    crate::fixed::lemma_square_monotone(a2 * k, (m2 + 1) * l);
    assert((a0 * k) * (a0 * k) < ((m0 + 1) * l) * ((m0 + 1) * l)) by (nonlinear_arith)
        requires
            0 <= a0 * k < (m0 + 1) * l,
    ;
    lemma_distribute3(m0 * m0, m1 * m1, m2 * m2, l * l);
    lemma_distribute3(a0 * a0, a1 * a1, a2 * a2, k * k);
    lemma_distribute3((m0 + 1) * (m0 + 1), (m1 + 1) * (m1 + 1), (m2 + 1) * (m2 + 1), l * l);
    lemma_square_of_product(m0, l);
    lemma_square_of_product(m1, l);
    lemma_square_of_product(m2, l);
    lemma_square_of_product(a0, k);
    lemma_square_of_product(a1, k);
    lemma_square_of_product(a2, k);
    lemma_square_of_product(m0 + 1, l);
    lemma_square_of_product(m1 + 1, l);
    lemma_square_of_product(m2 + 1, l);
    assert((a1 * k) * (a1 * k) < ((m1 + 1) * l) * ((m1 + 1) * l)) by (nonlinear_arith)
        requires
            0 <= a1 * k < (m1 + 1) * l,
    ;
    assert((a2 * k) * (a2 * k) < ((m2 + 1) * l) * ((m2 + 1) * l)) by (nonlinear_arith)
        requires
            0 <= a2 * k < (m2 + 1) * l,
    ;
}

/// Normalizing a nonzero vector gives unit length, up to the rounding of
/// fixed-point arithmetic: between `ONE - 4` and `ONE` as a raw length.
pub proof fn lemma_norm_has_unit_length(v: Vec3)
    requires
        v.wf(),
        v != Vec3(0, 0, 0),
    ensures
        ONE - 4 <= length_raw(vnorm(v)) <= ONE,
{
    let one = ONE as int;
    let dv = dot_raw(v, v);
    let y0 = v.0 * one;
    let y1 = v.1 * one;
    let y2 = v.2 * one;
    assert(v.0 * v.0 >= 0 && v.1 * v.1 >= 0 && v.2 * v.2 >= 0) by (nonlinear_arith);
    assert(dv >= 1) by (nonlinear_arith)
        requires
            dv == v.0 * v.0 + v.1 * v.1 + v.2 * v.2,
            v.0 != 0 || v.1 != 0 || v.2 != 0,
    ;
    let d = dv * one * one;
    let kk = one * one;
    assert(d == dv * kk) by (nonlinear_arith)
        requires
            d == dv * one * one,
            kk == one * one,
    ;
    lemma_distribute3(v.0 * v.0, v.1 * v.1, v.2 * v.2, kk);
    lemma_square_of_product(v.0 as int, one);
    lemma_square_of_product(v.1 as int, one);
    lemma_square_of_product(v.2 as int, one);
    assert(d == y0 * y0 + y1 * y1 + y2 * y2);
    assert(y0 * y0 >= 0 && y1 * y1 >= 0 && y2 * y2 >= 0) by (nonlinear_arith);
    assert(d >= one * one) by (nonlinear_arith)
        requires
            d == dv * one * one,
            dv >= 1,
            one > 0,
    ;
    let l0 = crate::fixed::isqrt_exists(d);
    crate::fixed::lemma_sqrt_floor_unique(d, l0);
    let l = length_fine(v);
    assert(l == l0);
    if l < one {
        crate::fixed::lemma_square_monotone(l + 1, one);
    }
    assert(l >= one);
    assert(d <= l * l + 2 * l) by (nonlinear_arith)
        requires
            d < (l + 1) * (l + 1),
    ;
    let m0 = lemma_norm_component_sq(y0, l, d);
    let m1 = lemma_norm_component_sq(y1, l, d);
    let m2 = lemma_norm_component_sq(y2, l, d);
    assert(y0 * one == v.0 * one * one && y1 * one == v.1 * one * one && y2 * one == v.2 * one * one);
    let n = vnorm(v);
    assert(n.0 * n.0 == m0 * m0 && n.1 * n.1 == m1 * m1 && n.2 * n.2 == m2 * m2);
    let sm = dot_raw(n, n);
    assert(sm == m0 * m0 + m1 * m1 + m2 * m2);
    let a0 = abs_int(y0);
    let a1 = abs_int(y1);
    let a2 = abs_int(y2);
    assert(a0 * a0 == y0 * y0 && a1 * a1 == y1 * y1 && a2 * a2 == y2 * y2) by (nonlinear_arith)
        requires
            a0 == abs_int(y0),
            a1 == abs_int(y1),
            a2 == abs_int(y2),
    ;
    lemma_sum_scaled(m0, m1, m2, a0, a1, a2, l, one);
    // Upper bound: sm * l^2 <= d * one^2 < (l + 1)^2 * one^2 <= (one + 1)^2 * l^2.
    assert(sm < (one + 1) * (one + 1)) by (nonlinear_arith)
        requires
            sm * (l * l) <= d * (one * one),
            d < (l + 1) * (l + 1),
            l >= one,
            one >= 1,
    ;
    // Lower bound: d * one^2 < sum (m_i + 1)^2 * l^2 and d >= l^2.
    assert(one * one < (m0 + 1) * (m0 + 1) + (m1 + 1) * (m1 + 1) + (m2 + 1) * (m2 + 1)) by (nonlinear_arith)
        requires
            d * (one * one) < ((m0 + 1) * (m0 + 1) + (m1 + 1) * (m1 + 1) + (m2 + 1) * (m2 + 1)) * (l * l),
            l * l <= d,
            l >= 1,
    ;
    assert(sm >= (one - 4) * (one - 4)) by (nonlinear_arith)
        requires
            sm == m0 * m0 + m1 * m1 + m2 * m2,
            one * one < (m0 + 1) * (m0 + 1) + (m1 + 1) * (m1 + 1) + (m2 + 1) * (m2 + 1),
            0 <= m0 <= one,
            0 <= m1 <= one,
            0 <= m2 <= one,
            one == 65536,
    ;
    lemma_dot_self_is_length_squared(n);
    let s = length_raw(n);
    if s > one {
        crate::fixed::lemma_square_monotone(one + 1, s);
    }
    if s < one - 4 {
        crate::fixed::lemma_square_monotone(s + 1, one - 4);
    }
}

proof fn lemma_norm_component_sq(x: int, l: int, d: int) -> (m: int)
    requires
        l >= 1,
        x * x <= d,
        d < (l + 1) * (l + 1),
    ensures
        0 <= m <= ONE,
        tdiv(x * ONE, l) * tdiv(x * ONE, l) == m * m,
        clamp(tdiv(x * ONE, l)) == tdiv(x * ONE, l),
        m * l <= abs_int(x) * ONE < (m + 1) * l,
{
    let a = abs_int(x);
    assert(a * a == x * x) by (nonlinear_arith)
        requires
            a == abs_int(x),
    ;
    if a > l {
        crate::fixed::lemma_square_monotone(l + 1, a);
    }
    assert(x * x <= l * l) by (nonlinear_arith)
        requires
            a * a == x * x,
            0 <= a <= l,
    ;
    lemma_norm_component(x, l)
}

/// The fixed-point dot product of a vector with itself is never negative, and
/// wherever it does not saturate it is the exact dot product truncated to the
/// fixed-point scale, itself the squared length up to rounding
/// (see [`lemma_dot_self_is_length_squared`]).
pub proof fn lemma_scalar_self(v: Vec3)
    requires
        v.wf(),
    ensures
        dot(v, v) >= 0,
        dot_raw(v, v) <= LIMIT * ONE ==> dot(v, v) == dot_raw(v, v) / (ONE as int),
{
    lemma_dot_self_nonneg(v);
}

} // verus!
