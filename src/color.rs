//! Colors as fixed-point RGB triples.
use crate::fixed::{clamp, clamp_wide, div_fx, fdiv, fmul, in_limit, mul_fx, ONE};
use vstd::prelude::*;

verus! {

/// Red, green and blue channels; 0 is dark and `ONE` is full intensity,
/// though values outside that range are kept until quantization.
#[derive(Debug, Clone, Copy, PartialEq, Eq, Structural)]
pub struct Color(pub i64, pub i64, pub i64);

impl Color {
    pub open spec fn wf(self) -> bool {
        in_limit(self.0 as int) && in_limit(self.1 as int) && in_limit(self.2 as int)
    }
}

pub open spec fn color_of(r: int, g: int, b: int) -> Color {
    Color(clamp(r) as i64, clamp(g) as i64, clamp(b) as i64)
}

pub open spec fn cadd(a: Color, b: Color) -> Color {
    color_of(a.0 + b.0, a.1 + b.1, a.2 + b.2)
}

pub open spec fn cmul(a: Color, k: int) -> Color {
    color_of(fmul(a.0 as int, k), fmul(a.1 as int, k), fmul(a.2 as int, k))
}

/// Division by a nonzero fixed-point factor, truncating toward zero.
pub open spec fn cdiv(a: Color, k: int) -> Color {
    if k > 0 {
        color_of(fdiv(a.0 as int, k), fdiv(a.1 as int, k), fdiv(a.2 as int, k))
    } else {
        color_of(fdiv(-a.0, -k), fdiv(-a.1, -k), fdiv(-a.2, -k))
    }
}

/// One channel as an 8-bit value: clamped to `[0, ONE]`, scaled to 255 and truncated.
pub open spec fn quantize(c: int) -> u8 {
    let u = if c < 0 {
        0
    } else if c > ONE {
        ONE as int
    } else {
        c
    };
    (u * 255 / ONE as int) as u8
}

pub open spec fn rgb_of(c: Color) -> [u8; 3] {
    [quantize(c.0 as int), quantize(c.1 as int), quantize(c.2 as int)]
}

/// Quantizes one channel.
pub fn quantize_channel(c: i64) -> (q: u8)
    ensures
        q == quantize(c as int),
{
    let u: i64 = if c < 0 {
        0
    } else if c > ONE {
        ONE
    } else {
        c
    };
    let v: i64 = u * 255 / ONE;
    assert(0 <= v <= 255) by (nonlinear_arith)
        requires
            0 <= u <= ONE,
            v == u * 255 / ONE as int,
    ;
    v as u8
}

impl Color {
    pub fn add(self, rhs: Color) -> (c: Color)
        requires
            self.wf(),
            rhs.wf(),
        ensures
            c == cadd(self, rhs),
            c.wf(),
    {
        Color(
            clamp_wide(self.0 as i128 + rhs.0 as i128),
            clamp_wide(self.1 as i128 + rhs.1 as i128),
            clamp_wide(self.2 as i128 + rhs.2 as i128),
        )
    }

    /// Scales every channel by a fixed-point factor.
    pub fn mul(self, rhs: i64) -> (c: Color)
        requires
            self.wf(),
            in_limit(rhs as int),
        ensures
            c == cmul(self, rhs as int),
            c.wf(),
    {
        Color(mul_fx(self.0, rhs), mul_fx(self.1, rhs), mul_fx(self.2, rhs))
    }

    /// Divides every channel by a nonzero fixed-point factor.
    pub fn div(self, rhs: i64) -> (c: Color)
        requires
            self.wf(),
            in_limit(rhs as int),
            rhs != 0,
        ensures
            c == cdiv(self, rhs as int),
            c.wf(),
    {
        if rhs > 0 {
            Color(div_fx(self.0, rhs), div_fx(self.1, rhs), div_fx(self.2, rhs))
        } else {
            Color(div_fx(-self.0, -rhs), div_fx(-self.1, -rhs), div_fx(-self.2, -rhs))
        }
    }

    /// The 8-bit output color.
    pub fn to_rgb(self) -> (p: [u8; 3])
        ensures
            p == rgb_of(self),
    {
        let p = [quantize_channel(self.0), quantize_channel(self.1), quantize_channel(self.2)];
        assert(p =~= rgb_of(self));
        p
    }
}

} // verus!
