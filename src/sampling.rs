//! Random draws for antialiasing jitter and reflection fuzz.
use crate::fixed::ONE;
use crate::vec3::Vec3;
use vstd::prelude::*;

verus! {

/// Relies on `fastrand::i64`: it returns a value of the inclusive range it is
/// given, and panics only on an empty range.
#[verifier::external_body]
fn random_between(lo: i64, hi: i64) -> (r: i64)
    requires
        lo <= hi,
    ensures
        lo <= r <= hi,
{
    fastrand::i64(lo..=hi)
}

/// Whether every component lies in `[-ONE, ONE]`, the cube that fuzz vectors come from.
pub open spec fn in_unit_cube(v: Vec3) -> bool {
    -ONE <= v.0 <= ONE && -ONE <= v.1 <= ONE && -ONE <= v.2 <= ONE
}

/// A random sub-pixel offset in `[0, ONE)`.
pub fn random_jitter() -> (r: i64)
    ensures
        0 <= r < ONE,
{
    random_between(0, ONE - 1)
}

impl Vec3 {
    /// A random point of the cube `[-1, 1]^3` (not of the unit sphere: corners are favoured).
    pub fn random_in_cube() -> (v: Vec3)
        ensures
            in_unit_cube(v),
            v.wf(),
    {
        Vec3(random_between(-ONE, ONE), random_between(-ONE, ONE), random_between(-ONE, ONE))
    }
}

} // verus!
