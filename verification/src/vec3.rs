//! Three-component vectors, used for directions, points and colours.
//!
//! The view of a `Vector3` is a `V3`: its three numerators. The functions
//! `v3_*` are the vector algebra over those, built from the scalar arithmetic
//! of `crate::scalar`. The length and the unit vector are taken of the scaled
//! vector, whose squares lose no bits.
use crate::ppm::level;
use crate::ppm::levels_text;
use crate::ppm::push_decimal;
use crate::scalar::fx_add;
use crate::scalar::fx_div;
use crate::scalar::fx_min;
use crate::scalar::fx_mul;
use crate::scalar::fx_sqrt;
use crate::scalar::fx_sub;
use crate::scalar::in_range;
use crate::scalar::lemma_mul_neg;
use crate::scalar::lemma_mul_value;
use crate::scalar::fx_max;
use crate::scalar::isqrt;
use crate::scalar::lemma_isqrt_exists;
use crate::scalar::lemma_norm_factor;
use crate::scalar::lemma_ratio_bounds;
use crate::scalar::lemma_square_value;
use crate::scalar::lemma_unit_sum;
use crate::scalar::lemma_norm_divisor;
use crate::scalar::lemma_quot_one;
use crate::scalar::lemma_quot_size;
use crate::scalar::norm_divisor;
use crate::scalar::norm_factor;
use crate::scalar::quot;
use crate::scalar::sat;
use crate::scalar::lemma_square_nonnegative;
use crate::scalar::magnitude;
use crate::scalar::scale;
use crate::scalar::Scalar;
use core::ops::Neg;
use vstd::prelude::*;
use vstd::std_specs::ops::AddSpecImpl;
use vstd::std_specs::ops::DivSpecImpl;
use vstd::std_specs::ops::MulSpecImpl;
use vstd::std_specs::ops::NegSpecImpl;
use vstd::std_specs::ops::SubSpecImpl;

verus! {

/// Three numerators: the mathematical content of a vector.
pub struct V3 {
    pub x: int,
    pub y: int,
    pub z: int,
}

/// Every component is the numerator of some scalar.
pub open spec fn v3_in_range(a: V3) -> bool {
    in_range(a.x) && in_range(a.y) && in_range(a.z)
}

/// The sum, component by component.
pub open spec fn v3_add(a: V3, b: V3) -> V3 {
    V3 { x: fx_add(a.x, b.x), y: fx_add(a.y, b.y), z: fx_add(a.z, b.z) }
}

/// The difference, component by component.
pub open spec fn v3_sub(a: V3, b: V3) -> V3 {
    V3 { x: fx_sub(a.x, b.x), y: fx_sub(a.y, b.y), z: fx_sub(a.z, b.z) }
}

/// The opposite vector.
pub open spec fn v3_neg(a: V3) -> V3 {
    V3 { x: -a.x, y: -a.y, z: -a.z }
}

/// Each component times `s`.
pub open spec fn v3_scale(a: V3, s: int) -> V3 {
    V3 { x: fx_mul(a.x, s), y: fx_mul(a.y, s), z: fx_mul(a.z, s) }
}

/// Each component over `s`. Meaningful for `s != 0`.
pub open spec fn v3_div(a: V3, s: int) -> V3 {
    V3 { x: fx_div(a.x, s), y: fx_div(a.y, s), z: fx_div(a.z, s) }
}

/// `s` times each component.
pub open spec fn v3_scale_left(s: int, a: V3) -> V3 {
    V3 { x: fx_mul(s, a.x), y: fx_mul(s, a.y), z: fx_mul(s, a.z) }
}

/// Component `i` of three, counted from zero.
pub open spec fn v3_component(a: V3, i: int) -> int {
    if i == 0 {
        a.x
    } else if i == 1 {
        a.y
    } else {
        a.z
    }
}

/// Component by component product, as used to attenuate a colour.
pub open spec fn v3_hadamard(a: V3, b: V3) -> V3 {
    V3 { x: fx_mul(a.x, b.x), y: fx_mul(a.y, b.y), z: fx_mul(a.z, b.z) }
}

/// The dot product: the sum of the products of the components, taken from
/// `x` to `z`.
pub open spec fn v3_dot(a: V3, b: V3) -> int {
    fx_add(fx_add(fx_mul(a.x, b.x), fx_mul(a.y, b.y)), fx_mul(a.z, b.z))
}

/// The cross product.
pub open spec fn v3_cross(a: V3, b: V3) -> V3 {
    V3 {
        x: fx_sub(fx_mul(a.y, b.z), fx_mul(a.z, b.y)),
        y: fx_sub(fx_mul(a.z, b.x), fx_mul(a.x, b.z)),
        z: fx_sub(fx_mul(a.x, b.y), fx_mul(a.y, b.x)),
    }
}

/// The dot product of the vector with itself.
pub open spec fn v3_length_squared(a: V3) -> int {
    v3_dot(a, a)
}

/// The vector has no component but zero.
pub open spec fn v3_is_zero(a: V3) -> bool {
    a.x == 0 && a.y == 0 && a.z == 0
}

/// The size of the largest component.
pub open spec fn v3_max_size(a: V3) -> int {
    fx_max(magnitude(a.x), fx_max(magnitude(a.y), magnitude(a.z)))
}

/// The power of two that brings the largest component of a short vector to
/// one half or more: one for a vector that has such a component already.
pub open spec fn v3_factor(a: V3) -> int {
    norm_factor(v3_max_size(a))
}

/// The power of two that brings the largest component of a long vector down
/// to one or less: one for a vector that has no component above one.
pub open spec fn v3_divisor(a: V3) -> int {
    norm_divisor(v3_max_size(a))
}

/// Each component times the whole number `f`.
pub open spec fn v3_times(a: V3, f: int) -> V3 {
    V3 { x: sat(a.x * f), y: sat(a.y * f), z: sat(a.z * f) }
}

/// Each component over the whole number `g`, rounded toward zero.
pub open spec fn v3_over(a: V3, g: int) -> V3 {
    V3 { x: quot(a.x, g), y: quot(a.y, g), z: quot(a.z, g) }
}

/// The vector times its factor and over its divisor, of which one is one:
/// the same direction, with a largest component from one half to one, so
/// that a square loses no bits and leaves the range at neither end.
pub open spec fn v3_scaled(a: V3) -> V3 {
    v3_over(v3_times(a, v3_factor(a)), v3_divisor(a))
}

/// A parameter `t` of the line along the scaled direction of `a`, as a
/// parameter of the line along `a`: `t` times the factor over the divisor.
pub open spec fn v3_rescaled(t: int, a: V3) -> int {
    quot(sat(t * v3_factor(a)), v3_divisor(a))
}

/// The sum of the squares of the numerators.
pub open spec fn v3_sum_squares(a: V3) -> int {
    a.x * a.x + a.y * a.y + a.z * a.z
}

/// The length of the scaled vector in steps, rounded down.
pub open spec fn v3_norm(a: V3) -> int {
    isqrt(v3_sum_squares(v3_scaled(a)))
}

/// The length: that of the scaled vector, scaled back and rounded down.
pub open spec fn v3_length(a: V3) -> int {
    sat((v3_norm(a) * v3_divisor(a)) / v3_factor(a))
}

/// The scaled vector over its own length. Meaningful for a vector that is
/// not zero.
pub open spec fn v3_unit(a: V3) -> V3 {
    v3_div(v3_scaled(a), v3_norm(a))
}

/// How far the squared length of a unit vector may lie from one, in steps.
pub const UNIT_SLACK: i64 = 9;

/// `u` is a unit vector as far as rounding allows: no component is larger
/// than one, and the squared length is one up to `UNIT_SLACK` steps.
pub open spec fn v3_is_unit(u: V3) -> bool {
    &&& v3_in_box(u, -scale(), scale())
    &&& scale() - UNIT_SLACK <= v3_length_squared(u) <= scale() + UNIT_SLACK
    &&& scale() * scale() - 6 * scale() - 3 < v3_sum_squares(u) <= scale() * scale() + 6
        * scale()
}

/// Every component lies between `lo` and `hi`.
pub open spec fn v3_in_box(a: V3, lo: int, hi: int) -> bool {
    lo <= a.x <= hi && lo <= a.y <= hi && lo <= a.z <= hi
}

/// How many steps of 2^-32 a component may reach and still count as zero:
/// about 1e-8.
pub const NEAR_ZERO_RAW: i64 = 43;

/// Every component is closer to zero than `NEAR_ZERO_RAW` steps.
pub open spec fn v3_near_zero(a: V3) -> bool {
    magnitude(a.x) < NEAR_ZERO_RAW && magnitude(a.y) < NEAR_ZERO_RAW && magnitude(a.z)
        < NEAR_ZERO_RAW
}

/// `v - 2 (v . n) n`.
pub open spec fn v3_reflect(v: V3, n: V3) -> V3 {
    v3_sub(v, v3_scale(n, fx_mul(2 * scale(), v3_dot(v, n))))
}

/// Snell's law for a unit vector `uv`: the part across the normal is
/// `ratio (uv + cos n)`, the part along it makes the length one.
pub open spec fn v3_refract(uv: V3, n: V3, ratio: int) -> V3 {
    let cos_theta = fx_min(v3_dot(v3_neg(uv), n), scale());
    let perp = v3_scale(v3_add(uv, v3_scale(n, cos_theta)), ratio);
    let along = v3_scale(n, -fx_sqrt(magnitude(fx_sub(scale(), v3_length_squared(perp)))));
    v3_add(perp, along)
}

/// A sample of the cube is taken as a direction when its squared length, as
/// a scalar, is above zero and at most one. The smallest squared length above
/// zero is one step, about 2e-10, so a taken sample is no shorter than 2^-16.
/// Its direction is its unit vector, which is taken of the scaled sample and
/// is as good for a short sample as for a long one.
pub open spec fn v3_sample_taken(p: V3) -> bool {
    0 < v3_length_squared(p) <= scale()
}

/// The direction returned when every sample of a draw was refused.
pub open spec fn v3_axis() -> V3 {
    V3 { x: scale(), y: 0, z: 0 }
}

/// `u` can come out of a draw of a random direction: it is the direction of a
/// taken sample of the cube from -1 to 1, or the axis.
pub open spec fn v3_sampled_unit(u: V3) -> bool {
    u == v3_axis() || exists|p: V3|
        v3_in_box(p, -scale(), scale()) && #[trigger] v3_sample_taken(p) && u == v3_unit(p)
}

/// `u` or its opposite, whichever does not point against `normal`.
pub open spec fn v3_on_hemisphere(u: V3, normal: V3) -> V3 {
    if v3_dot(u, normal) > 0 {
        u
    } else {
        v3_neg(u)
    }
}

/// The dot product changes sign with either vector.
pub proof fn lemma_dot_neg(a: V3, b: V3)
    ensures
        v3_dot(v3_neg(a), b) == -v3_dot(a, b),
        v3_dot(a, v3_neg(b)) == -v3_dot(a, b),
{
    lemma_mul_neg(a.x, b.x);
    lemma_mul_neg(a.y, b.y);
    lemma_mul_neg(a.z, b.z);
}

/// A squared length is not negative.
pub proof fn lemma_length_squared_nonnegative(a: V3)
    ensures
        v3_length_squared(a) >= 0,
{
    lemma_square_nonnegative(a.x);
    lemma_square_nonnegative(a.y);
    lemma_square_nonnegative(a.z);
}

/// A vector turned onto the hemisphere of `normal` does not point against it.
pub proof fn lemma_on_hemisphere(u: V3, normal: V3)
    ensures
        v3_dot(v3_on_hemisphere(u, normal), normal) >= 0,
{
    lemma_dot_neg(u, normal);
}

/// The scaled vector of a vector that is not zero has a largest component
/// from one half to one, and each of its components has the sign of the
/// vector's. A vector with a largest component from one half to one is its
/// own scaled vector.
pub proof fn lemma_scaled(a: V3)
    requires
        v3_in_range(a),
        !v3_is_zero(a),
    ensures
        ({
            let f = v3_factor(a);
            let g = v3_divisor(a);
            let s = v3_scaled(a);
            &&& 1 <= f < 0x1_0000_0000
            &&& 1 <= g < 0x1_0000_0000
            &&& f == 1 || g == 1
            &&& 0x8000_0000 <= v3_max_size(a) <= 0x1_0000_0000 ==> s == a && f == 1 && g == 1
            &&& v3_in_range(s)
            &&& 0x8000_0000 <= v3_max_size(s) <= 0x1_0000_0000
            &&& (a.x >= 0 ==> s.x >= 0) && (a.x <= 0 ==> s.x <= 0)
            &&& (a.y >= 0 ==> s.y >= 0) && (a.y <= 0 ==> s.y <= 0)
            &&& (a.z >= 0 ==> s.z >= 0) && (a.z <= 0 ==> s.z <= 0)
        }),
{
    let m = v3_max_size(a);
    let f = v3_factor(a);
    let g = v3_divisor(a);
    lemma_norm_factor(m);
    lemma_norm_divisor(m);
    lemma_times_size(a.x, m, f);
    lemma_times_size(a.y, m, f);
    lemma_times_size(a.z, m, f);
    lemma_times_sign(a.x, f);
    lemma_times_sign(a.y, f);
    lemma_times_sign(a.z, f);
    let t = v3_times(a, f);
    lemma_quot_size(t.x, g);
    lemma_quot_size(t.y, g);
    lemma_quot_size(t.z, g);
    lemma_quot_one(t.x);
    lemma_quot_one(t.y);
    lemma_quot_one(t.z);
    if g > 1 {
        lemma_over_size(magnitude(a.x), m, g);
        lemma_over_size(magnitude(a.y), m, g);
        lemma_over_size(magnitude(a.z), m, g);
    }
}

/// A number of size `m` or less, times a factor `f` of one or more: the size
/// of the product is the size times `f`, and at most `m f`.
proof fn lemma_times_size(x: int, m: int, f: int)
    requires
        magnitude(x) <= m,
        f >= 1,
    ensures
        magnitude(x * f) == magnitude(x) * f,
        magnitude(x * f) <= m * f,
        magnitude(x) == m ==> magnitude(x * f) == m * f,
        f == 1 ==> x * f == x,
{
    assert(magnitude(x * f) == magnitude(x) * f) by (nonlinear_arith)
        requires
            f >= 1,
    ;
    assert(magnitude(x) * f <= m * f) by (nonlinear_arith)
        requires
            magnitude(x) <= m,
            f >= 1,
    ;
    assert(f == 1 ==> x * f == x) by (nonlinear_arith);
}

/// A size of `m` or less over a divisor that brings `m` to more than one half
/// and at most one: the quotient is at most one, and that of `m` is one half
/// or more.
proof fn lemma_over_size(x: int, m: int, g: int)
    requires
        0 <= x <= m,
        g >= 1,
        0x8000_0000 * g < m <= 0x1_0000_0000 * g,
    ensures
        x / g <= 0x1_0000_0000,
        x == m ==> x / g >= 0x8000_0000,
{
    assert(x / g <= 0x1_0000_0000 && (x == m ==> x / g >= 0x8000_0000)) by (nonlinear_arith)
        requires
            0 <= x <= m,
            g >= 1,
            0x8000_0000 * g < m <= 0x1_0000_0000 * g,
    ;
}

/// The length of the scaled vector is at least its largest component, so a
/// vector that is not zero has one of one half or more.
pub proof fn lemma_norm(a: V3)
    requires
        v3_in_range(a),
        !v3_is_zero(a),
    ensures
        ({
            let s = v3_scaled(a);
            let r = v3_norm(a);
            &&& r >= 0x8000_0000
            &&& r * r <= v3_sum_squares(s) < (r + 1) * (r + 1)
            &&& magnitude(s.x) <= r && magnitude(s.y) <= r && magnitude(s.z) <= r
        }),
{
    lemma_scaled(a);
    let s = v3_scaled(a);
    let n = v3_sum_squares(s);
    lemma_square_size(s.x);
    lemma_square_size(s.y);
    lemma_square_size(s.z);
    lemma_isqrt_exists(n);
    let r = v3_norm(a);
    lemma_below_root(magnitude(s.x), r, n);
    lemma_below_root(magnitude(s.y), r, n);
    lemma_below_root(magnitude(s.z), r, n);
}

/// A square is the square of the size, and not negative.
proof fn lemma_square_size(x: int)
    ensures
        x * x == magnitude(x) * magnitude(x),
        x * x >= 0,
{
    assert(x * x == magnitude(x) * magnitude(x) && x * x >= 0) by (nonlinear_arith);
}

/// What has its square under `n` is no larger than the root of `n`.
proof fn lemma_below_root(c: int, r: int, n: int)
    requires
        0 <= c,
        c * c <= n,
        0 <= r,
        n < (r + 1) * (r + 1),
    ensures
        c <= r,
{
    if c > r {
        assert(c * c >= (r + 1) * (r + 1)) by (nonlinear_arith)
            requires
                c >= r + 1,
                r >= 0,
        ;
    }
}

/// The unit vector of a vector that is not zero is a unit vector as far as
/// rounding allows, and each of its components has the sign of the
/// vector's.
pub proof fn lemma_unit_vector(a: V3)
    requires
        v3_in_range(a),
        !v3_is_zero(a),
    ensures
        v3_is_unit(v3_unit(a)),
        a.x >= 0 ==> v3_unit(a).x >= 0,
        a.x <= 0 ==> v3_unit(a).x <= 0,
        a.y >= 0 ==> v3_unit(a).y >= 0,
        a.y <= 0 ==> v3_unit(a).y <= 0,
        a.z >= 0 ==> v3_unit(a).z >= 0,
        a.z <= 0 ==> v3_unit(a).z <= 0,
{
    lemma_scaled(a);
    lemma_norm(a);
    let s = v3_scaled(a);
    let r = v3_norm(a);
    let u = v3_unit(a);
    lemma_ratio_bounds(s.x, r);
    lemma_ratio_bounds(s.y, r);
    lemma_ratio_bounds(s.z, r);
    lemma_square_size(s.x);
    lemma_square_size(s.y);
    lemma_square_size(s.z);
    lemma_square_size(u.x);
    lemma_square_size(u.y);
    lemma_square_size(u.z);
    lemma_unit_sum(
        magnitude(u.x),
        magnitude(u.y),
        magnitude(u.z),
        magnitude(s.x),
        magnitude(s.y),
        magnitude(s.z),
        r,
    );
    lemma_square_value(u.x);
    lemma_square_value(u.y);
    lemma_square_value(u.z);
}

/// A product with a factor of one or more has the sign of the other factor.
proof fn lemma_times_sign(x: int, f: int)
    requires
        f >= 1,
    ensures
        x >= 0 ==> x * f >= 0,
        x <= 0 ==> x * f <= 0,
{
    assert((x >= 0 ==> x * f >= 0) && (x <= 0 ==> x * f <= 0)) by (nonlinear_arith)
        requires
            f >= 1,
    ;
}

/// A drawn direction is a unit vector as far as rounding allows.
pub proof fn lemma_sampled_unit(u: V3)
    requires
        v3_sampled_unit(u),
    ensures
        v3_is_unit(u),
{
    if u == v3_axis() {
        lemma_mul_value(0x1_0000_0000, 0x1_0000_0000, 0x1_0000_0000);
        lemma_mul_value(0, 0, 0);
        assert(v3_sum_squares(u) == scale() * scale()) by (nonlinear_arith)
            requires
                u == v3_axis(),
        ;
    } else {
        let p = choose|p: V3|
            v3_in_box(p, -scale(), scale()) && #[trigger] v3_sample_taken(p) && u == v3_unit(p);
        lemma_mul_value(0, 0, 0);
        lemma_unit_vector(p);
    }
}

/// A vector: three scalars.
#[derive(Clone, Copy, Debug, PartialEq, Eq, Structural)]
pub struct Vector3 {
    x: Scalar,
    y: Scalar,
    z: Scalar,
}

/// A position.
pub type Point3 = Vector3;

/// Red, green and blue.
pub type Color = Vector3;

impl View for Vector3 {
    type V = V3;

    closed spec fn view(&self) -> V3 {
        V3 { x: self.x@, y: self.y@, z: self.z@ }
    }
}

impl Vector3 {
    /// Every component is a scalar in range.
    #[verifier::type_invariant]
    pub open spec fn wf(self) -> bool {
        v3_in_range(self@)
    }

    /// The vector with the numerators `v`, each in range.
    pub closed spec fn of(v: V3) -> Vector3 {
        Vector3 { x: Scalar::of(v.x), y: Scalar::of(v.y), z: Scalar::of(v.z) }
    }

    /// A vector is fixed by its view: two vectors with the same numerators
    /// are equal.
    pub proof fn lemma_view_eq(a: Vector3, b: Vector3)
        requires
            a@ == b@,
        ensures
            a == b,
    {
        Scalar::lemma_view_eq(a.x, b.x);
        Scalar::lemma_view_eq(a.y, b.y);
        Scalar::lemma_view_eq(a.z, b.z);
    }

    /// A vector is the vector of its own numerators.
    pub proof fn lemma_of_self(a: Vector3)
        requires
            a.wf(),
        ensures
            Vector3::of(a@) == a,
    {
        Scalar::lemma_of_self(a.x);
        Scalar::lemma_of_self(a.y);
        Scalar::lemma_of_self(a.z);
    }

    /// The vector with the components `x`, `y` and `z`.
    pub fn new(x: Scalar, y: Scalar, z: Scalar) -> (r: Vector3)
        ensures
            r@ == (V3 { x: x@, y: y@, z: z@ }),
    {
        proof {
            use_type_invariant(x);
            use_type_invariant(y);
            use_type_invariant(z);
        }
        Vector3 { x, y, z }
    }

    /// The first component.
    pub fn x(&self) -> (r: &Scalar)
        ensures
            r@ == self@.x,
    {
        &self.x
    }

    /// The second component.
    pub fn y(&self) -> (r: &Scalar)
        ensures
            r@ == self@.y,
    {
        &self.y
    }

    /// The third component.
    pub fn z(&self) -> (r: &Scalar)
        ensures
            r@ == self@.z,
    {
        &self.z
    }

    /// The square of the length: the dot product of the vector with itself.
    /// It is a scalar, so that of a vector shorter than 2^-16 is zero and
    /// that of one longer than 2^15.5 is pinned; `length` has no such loss.
    pub fn length_squared(&self) -> (r: Scalar)
        ensures
            r@ == v3_length_squared(self@),
    {
        self.x * self.x + self.y * self.y + self.z * self.z
    }

    /// Whether every component is zero.
    pub fn is_zero(&self) -> (r: bool)
        ensures
            r == v3_is_zero(self@),
    {
        self.x.raw() == 0 && self.y.raw() == 0 && self.z.raw() == 0
    }

    /// The size of the largest component.
    pub fn max_size(&self) -> (r: Scalar)
        ensures
            r@ == v3_max_size(self@),
    {
        self.x.abs().max(self.y.abs().max(self.z.abs()))
    }

    /// The vector times its factor and over its divisor, the powers of two
    /// that bring its largest component to one half or more and to one or
    /// less; the factor; and the divisor.
    pub fn scaled(&self) -> (r: (Vector3, i64, i64))
        ensures
            r.0@ == v3_scaled(self@),
            r.1 == v3_factor(self@),
            r.2 == v3_divisor(self@),
            1 <= r.1 < 0x1_0000_0000,
            1 <= r.2 < 0x1_0000_0000,
    {
        let m = self.max_size();
        let f = Scalar::norm_factor_of(m);
        let g = Scalar::norm_divisor_of(m);
        let v = Vector3::new(
            self.x.times(f).over_int(g),
            self.y.times(f).over_int(g),
            self.z.times(f).over_int(g),
        );
        (v, f, g)
    }

    /// A parameter of the line along the scaled direction with the factor `f`
    /// and the divisor `g`, as a parameter of the line along the direction.
    pub fn rescaled(t: Scalar, f: i64, g: i64) -> (r: Scalar)
        requires
            g >= 1,
        ensures
            r@ == quot(sat(t@ * f), g as int),
    {
        t.times(f).over_int(g)
    }

    /// The length, rounded down. Every vector that is not zero has one.
    pub fn length(&self) -> (r: Scalar)
        ensures
            r@ == v3_length(self@),
    {
        let (v, f, g) = self.scaled();
        let n = Scalar::root_of_squares(v.x, v.y, v.z);
        Scalar::from_wide_quotient(n, g, f)
    }

    /// The dot product.
    pub fn dot(&self, other: &Vector3) -> (r: Scalar)
        ensures
            r@ == v3_dot(self@, other@),
    {
        self.x * other.x + self.y * other.y + self.z * other.z
    }

    /// The cross product.
    pub fn cross(&self, other: &Vector3) -> (r: Vector3)
        ensures
            r@ == v3_cross(self@, other@),
    {
        Vector3::new(
            self.y * other.z - self.z * other.y,
            self.z * other.x - self.x * other.z,
            self.x * other.y - self.y * other.x,
        )
    }
}

impl Vector3 {
    /// Each component drawn at random between zero and one.
    pub fn random() -> (r: Vector3)
        ensures
            v3_in_box(r@, 0, scale()),
    {
        Vector3::random_in_range(Scalar::zero(), Scalar::one())
    }

    /// Each component drawn at random between `min` and `max`.
    pub fn random_in_range(min: Scalar, max: Scalar) -> (r: Vector3)
        requires
            min@ <= max@,
        ensures
            v3_in_box(r@, min@, max@),
    {
        let x = Scalar::random_range(min, max);
        let y = Scalar::random_range(min, max);
        let z = Scalar::random_range(min, max);
        Vector3::new(x, y, z)
    }

    /// The vector over its length: no component of the result is larger
    /// than one, and its squared length is one up to `UNIT_SLACK` steps.
    pub fn unit_vector(&self) -> (r: Vector3)
        requires
            !v3_is_zero(self@),
        ensures
            r@ == v3_unit(self@),
            v3_is_unit(r@),
    {
        proof {
            use_type_invariant(self);
            lemma_norm(self@);
            lemma_unit_vector(self@);
        }
        let (v, _f, _g) = self.scaled();
        let n = Scalar::root_of_squares(v.x, v.y, v.z);
        Vector3::new(v.x.over_wide(n), v.y.over_wide(n), v.z.over_wide(n))
    }

    /// Every component is closer to zero than `NEAR_ZERO_RAW` steps.
    pub fn near_zero(&self) -> (r: bool)
        ensures
            r == v3_near_zero(self@),
    {
        let eps = Scalar::from_raw(NEAR_ZERO_RAW);
        self.x.abs().lt(&eps) && self.y.abs().lt(&eps) && self.z.abs().lt(&eps)
    }

    /// The mirror image of `self` in the plane with normal `n`.
    pub fn reflect(&self, n: &Vector3) -> (r: Vector3)
        ensures
            r@ == v3_reflect(self@, n@),
    {
        *self - *n * (Scalar::from_int(2) * self.dot(n))
    }

    /// The direction of `self`, a unit vector, after it crosses the surface
    /// with normal `n` between media whose refractive indices have the ratio
    /// `ratio`.
    pub fn refract(&self, n: &Vector3, ratio: Scalar) -> (r: Vector3)
        ensures
            r@ == v3_refract(self@, n@, ratio@),
    {
        let cos_theta = self.neg().dot(n).min(Scalar::one());
        let r_out_perp = (*self + *n * cos_theta) * ratio;
        let r_out_parallel = *n * (Scalar::one() - r_out_perp.length_squared()).abs().sqrt().neg();
        r_out_perp + r_out_parallel
    }
}

/// How many samples a draw of a random direction looks at before it gives
/// the axis.
pub const SAMPLE_TRIES: u32 = 64;

impl Vector3 {
    /// The direction of the sample `p`, where `p` is taken.
    pub fn unit_from_sample(p: &Vector3) -> (r: Option<Vector3>)
        ensures
            match r {
                Some(u) => v3_sample_taken(p@) && u@ == v3_unit(p@) && v3_is_unit(u@),
                None => !v3_sample_taken(p@),
            },
    {
        let lensq = p.length_squared();
        if Scalar::zero().lt(&lensq) && lensq.le(&Scalar::one()) {
            proof {
                lemma_mul_value(0, 0, 0);
            }
            Some(p.unit_vector())
        } else {
            None
        }
    }

    /// A random direction: the direction of the first taken sample among
    /// `SAMPLE_TRIES` random points of the cube from -1 to 1, or the axis
    /// where none was taken.
    pub fn random_unit_vector() -> (r: Vector3)
        ensures
            v3_sampled_unit(r@),
            v3_is_unit(r@),
    {
        let mut tries: u32 = 0;
        while tries < SAMPLE_TRIES
            invariant
                tries <= SAMPLE_TRIES,
            decreases SAMPLE_TRIES - tries,
        {
            let p = Vector3::random_in_range(Scalar::one().neg(), Scalar::one());
            match Vector3::unit_from_sample(&p) {
                Some(u) => {
                    proof {
                        lemma_sampled_unit(u@);
                    }
                    return u;
                },
                None => {},
            }
            tries = tries + 1;
        }
        let axis = Vector3::new(Scalar::one(), Scalar::zero(), Scalar::zero());
        proof {
            lemma_sampled_unit(axis@);
        }
        axis
    }

    /// `u` or its opposite, whichever does not point against `normal`.
    pub fn on_hemisphere(u: Vector3, normal: &Vector3) -> (r: Vector3)
        ensures
            r@ == v3_on_hemisphere(u@, normal@),
            v3_dot(r@, normal@) >= 0,
    {
        proof {
            lemma_on_hemisphere(u@, normal@);
        }
        if u.dot(normal).gt(&Scalar::zero()) {
            u
        } else {
            u.neg()
        }
    }

    /// A random direction that does not point against `normal`.
    pub fn random_on_hemisphere(normal: &Vector3) -> (r: Vector3)
        ensures
            exists|u: V3| #[trigger] v3_sampled_unit(u) && r@ == v3_on_hemisphere(u, normal@),
            v3_dot(r@, normal@) >= 0,
    {
        let on_unit_sphere = Vector3::random_unit_vector();
        Vector3::on_hemisphere(on_unit_sphere, normal)
    }

    /// `self` divided by `rhs` in place.
    pub fn div_assign(&mut self, rhs: Scalar)
        requires
            rhs@ != 0,
        ensures
            final(self)@ == v3_div(old(self)@, rhs@),
    {
        *self = *self / rhs;
    }
}

impl core::ops::AddAssign for Vector3 {
    fn add_assign(&mut self, rhs: Vector3)
        ensures
            final(self)@ == v3_add(old(self)@, rhs@),
    {
        *self = *self + rhs;
    }
}

impl core::ops::SubAssign for Vector3 {
    fn sub_assign(&mut self, rhs: Vector3)
        ensures
            final(self)@ == v3_sub(old(self)@, rhs@),
    {
        *self = *self - rhs;
    }
}

impl core::ops::MulAssign<Scalar> for Vector3 {
    fn mul_assign(&mut self, rhs: Scalar)
        ensures
            final(self)@ == v3_scale(old(self)@, rhs@),
    {
        *self = *self * rhs;
    }
}

impl core::ops::Mul<Vector3> for Scalar {
    type Output = Vector3;

    fn mul(self, rhs: Vector3) -> (r: Vector3)
        ensures
            r@ == v3_scale_left(self@, rhs@),
    {
        let r = Vector3::new(self * rhs.x, self * rhs.y, self * rhs.z);
        proof {
            use_type_invariant(r);
            Vector3::lemma_of_self(r);
        }
        r
    }
}

impl MulSpecImpl<Vector3> for Scalar {
    open spec fn obeys_mul_spec() -> bool {
        true
    }

    open spec fn mul_req(self, rhs: Vector3) -> bool {
        true
    }

    open spec fn mul_spec(self, rhs: Vector3) -> Vector3 {
        Vector3::of(v3_scale_left(self@, rhs@))
    }
}

impl core::ops::Index<usize> for Vector3 {
    type Output = Scalar;

    /// Component 0, 1 or 2.
    fn index(&self, index: usize) -> (r: &Scalar)
        ensures
            r@ == v3_component(self@, index as int),
    {
        if index == 0 {
            &self.x
        } else if index == 1 {
            &self.y
        } else {
            &self.z
        }
    }
}

impl vstd::std_specs::core::IndexSpecImpl<usize> for Vector3 {
    open spec fn index_req(&self, index: &usize) -> bool {
        *index < 3
    }
}

impl core::ops::Neg for Vector3 {
    type Output = Vector3;

    fn neg(self) -> (r: Vector3)
        ensures
            r@ == v3_neg(self@),
    {
        let r = Vector3::new(self.x.neg(), self.y.neg(), self.z.neg());
        proof {
            use_type_invariant(r);
            Vector3::lemma_of_self(r);
        }
        r
    }
}

impl NegSpecImpl for Vector3 {
    open spec fn obeys_neg_spec() -> bool {
        true
    }

    open spec fn neg_req(self) -> bool {
        true
    }

    open spec fn neg_spec(self) -> Vector3 {
        Vector3::of(v3_neg(self@))
    }
}

impl core::ops::Add for Vector3 {
    type Output = Vector3;

    fn add(self, rhs: Vector3) -> (r: Vector3)
        ensures
            r@ == v3_add(self@, rhs@),
    {
        let r = Vector3::new(self.x + rhs.x, self.y + rhs.y, self.z + rhs.z);
        proof {
            use_type_invariant(r);
            Vector3::lemma_of_self(r);
        }
        r
    }
}

impl AddSpecImpl for Vector3 {
    open spec fn obeys_add_spec() -> bool {
        true
    }

    open spec fn add_req(self, rhs: Vector3) -> bool {
        true
    }

    open spec fn add_spec(self, rhs: Vector3) -> Vector3 {
        Vector3::of(v3_add(self@, rhs@))
    }
}

impl core::ops::Sub for Vector3 {
    type Output = Vector3;

    fn sub(self, rhs: Vector3) -> (r: Vector3)
        ensures
            r@ == v3_sub(self@, rhs@),
    {
        let r = Vector3::new(self.x - rhs.x, self.y - rhs.y, self.z - rhs.z);
        proof {
            use_type_invariant(r);
            Vector3::lemma_of_self(r);
        }
        r
    }
}

impl SubSpecImpl for Vector3 {
    open spec fn obeys_sub_spec() -> bool {
        true
    }

    open spec fn sub_req(self, rhs: Vector3) -> bool {
        true
    }

    open spec fn sub_spec(self, rhs: Vector3) -> Vector3 {
        Vector3::of(v3_sub(self@, rhs@))
    }
}

impl core::ops::Sub<Vector3> for &Vector3 {
    type Output = Vector3;

    fn sub(self, rhs: Vector3) -> (r: Vector3)
        ensures
            r@ == v3_sub(self@, rhs@),
    {
        *self - rhs
    }
}

impl SubSpecImpl<Vector3> for &Vector3 {
    open spec fn obeys_sub_spec() -> bool {
        true
    }

    open spec fn sub_req(self, rhs: Vector3) -> bool {
        true
    }

    open spec fn sub_spec(self, rhs: Vector3) -> Vector3 {
        Vector3::of(v3_sub(self@, rhs@))
    }
}

impl core::ops::Sub<&Vector3> for Vector3 {
    type Output = Vector3;

    fn sub(self, rhs: &Vector3) -> (r: Vector3)
        ensures
            r@ == v3_sub(self@, rhs@),
    {
        self - *rhs
    }
}

impl SubSpecImpl<&Vector3> for Vector3 {
    open spec fn obeys_sub_spec() -> bool {
        true
    }

    open spec fn sub_req(self, rhs: &Vector3) -> bool {
        true
    }

    open spec fn sub_spec(self, rhs: &Vector3) -> Vector3 {
        Vector3::of(v3_sub(self@, rhs@))
    }
}

impl core::ops::Sub<&Vector3> for &Vector3 {
    type Output = Vector3;

    fn sub(self, rhs: &Vector3) -> (r: Vector3)
        ensures
            r@ == v3_sub(self@, rhs@),
    {
        *self - *rhs
    }
}

impl SubSpecImpl<&Vector3> for &Vector3 {
    open spec fn obeys_sub_spec() -> bool {
        true
    }

    open spec fn sub_req(self, rhs: &Vector3) -> bool {
        true
    }

    open spec fn sub_spec(self, rhs: &Vector3) -> Vector3 {
        Vector3::of(v3_sub(self@, rhs@))
    }
}

impl core::ops::Mul<Scalar> for Vector3 {
    type Output = Vector3;

    fn mul(self, rhs: Scalar) -> (r: Vector3)
        ensures
            r@ == v3_scale(self@, rhs@),
    {
        let r = Vector3::new(self.x * rhs, self.y * rhs, self.z * rhs);
        proof {
            use_type_invariant(r);
            Vector3::lemma_of_self(r);
        }
        r
    }
}

impl MulSpecImpl<Scalar> for Vector3 {
    open spec fn obeys_mul_spec() -> bool {
        true
    }

    open spec fn mul_req(self, rhs: Scalar) -> bool {
        true
    }

    open spec fn mul_spec(self, rhs: Scalar) -> Vector3 {
        Vector3::of(v3_scale(self@, rhs@))
    }
}

impl core::ops::Mul<Vector3> for Vector3 {
    type Output = Vector3;

    /// Component by component.
    fn mul(self, rhs: Vector3) -> (r: Vector3)
        ensures
            r@ == v3_hadamard(self@, rhs@),
    {
        let r = Vector3::new(self.x * rhs.x, self.y * rhs.y, self.z * rhs.z);
        proof {
            use_type_invariant(r);
            Vector3::lemma_of_self(r);
        }
        r
    }
}

impl MulSpecImpl<Vector3> for Vector3 {
    open spec fn obeys_mul_spec() -> bool {
        true
    }

    open spec fn mul_req(self, rhs: Vector3) -> bool {
        true
    }

    open spec fn mul_spec(self, rhs: Vector3) -> Vector3 {
        Vector3::of(v3_hadamard(self@, rhs@))
    }
}

impl core::ops::Div<Scalar> for Vector3 {
    type Output = Vector3;

    fn div(self, rhs: Scalar) -> (r: Vector3)
        ensures
            r@ == v3_div(self@, rhs@),
    {
        let r = Vector3::new(self.x / rhs, self.y / rhs, self.z / rhs);
        proof {
            use_type_invariant(r);
            Vector3::lemma_of_self(r);
        }
        r
    }
}

impl DivSpecImpl<Scalar> for Vector3 {
    open spec fn obeys_div_spec() -> bool {
        true
    }

    /// Division by zero is left out.
    open spec fn div_req(self, rhs: Scalar) -> bool {
        rhs@ != 0
    }

    open spec fn div_spec(self, rhs: Scalar) -> Vector3 {
        Vector3::of(v3_div(self@, rhs@))
    }
}

impl Default for Vector3 {
    /// The zero vector.
    fn default() -> (r: Vector3)
        ensures
            r@ == (V3 { x: 0, y: 0, z: 0 }),
    {
        Vector3::new(Scalar::zero(), Scalar::zero(), Scalar::zero())
    }
}


/// A value marked for output as text.
#[derive(Debug, Default, Clone, Copy)]
pub struct Wrapper<T>(pub T);

impl<T> Wrapper<T> {
    /// Marks `t`.
    pub fn new(t: T) -> (r: Self)
        ensures
            r.0 == t,
    {
        Wrapper(t)
    }
}

impl Wrapper<&Color> {
    /// The colour as PPM text: the levels of red, green and blue in decimal,
    /// with a space between them.
    pub fn text(&self) -> (out: Vec<u8>)
        ensures
            out@ == levels_text(self.0@.x, self.0@.y, self.0@.z),
    {
        let rbytes = level(*self.0.x());
        let gbytes = level(*self.0.y());
        let bbytes = level(*self.0.z());

        let mut out: Vec<u8> = Vec::new();
        push_decimal(&mut out, rbytes as i64);
        out.push(32);
        push_decimal(&mut out, gbytes as i64);
        out.push(32);
        push_decimal(&mut out, bbytes as i64);
        out
    }
}
} // verus!
