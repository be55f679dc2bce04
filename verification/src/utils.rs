//! Angle and colour conversions.
use crate::scalar::fx_div;
use crate::scalar::fx_mul;
use crate::scalar::fx_sqrt;
use crate::scalar::scale;
use crate::scalar::Scalar;
use vstd::prelude::*;

verus! {

/// Numerator of pi.
pub const PI_RAW: i64 = 13493037705;

/// `degrees` times pi, over 180.
pub open spec fn radians(degrees: int) -> int {
    fx_div(fx_mul(degrees, PI_RAW as int), 180 * scale())
}

/// The gamma 2 transform of a linear colour channel: its square root, and
/// zero for what is not above zero.
pub open spec fn gamma(linear: int) -> int {
    fx_sqrt(linear)
}

/// An angle in degrees, in radians.
pub fn degrees_to_radians(degrees: Scalar) -> (r: Scalar)
    ensures
        r@ == radians(degrees@),
{
    degrees * Scalar::from_raw(PI_RAW) / Scalar::from_int(180)
}

/// The gamma 2 transform of a linear colour channel.
pub fn linear_to_gamma(linear_component: Scalar) -> (r: Scalar)
    ensures
        r@ == gamma(linear_component@),
        linear_component@ <= 0 ==> r@ == 0,
{
    if linear_component.gt(&Scalar::zero()) {
        linear_component.sqrt()
    } else {
        Scalar::zero()
    }
}

} // verus!
