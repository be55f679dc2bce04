//! Materials: how a surface sends on the light that reaches it.
//!
//! Each material has a function `scatter_with`, which takes the random draw
//! as an argument and is fixed by its arguments, and a function `scatter`,
//! which makes the draw.
use crate::hit::Hit;
use crate::hit::HitRecord;
use crate::ray::Line;
use crate::ray::Ray;
use crate::scalar::fx_add;
use crate::scalar::fx_div;
use crate::scalar::fx_max;
use crate::scalar::fx_min;
use crate::scalar::fx_mul;
use crate::scalar::fx_sqrt;
use crate::scalar::fx_sub;
use crate::scalar::lemma_square_value;
use crate::scalar::magnitude;
use crate::scalar::scale;
use crate::scalar::Scalar;
use crate::vec3::v3_add;
use crate::vec3::v3_dot;
use crate::vec3::v3_in_box;
use crate::vec3::v3_is_unit;
use crate::vec3::v3_length_squared;
use crate::vec3::v3_sum_squares;
use crate::vec3::v3_is_zero;
use crate::vec3::v3_near_zero;
use crate::vec3::v3_neg;
use crate::vec3::v3_reflect;
use crate::vec3::v3_scaled;
use crate::vec3::v3_refract;
use crate::vec3::v3_sampled_unit;
use crate::vec3::v3_scale_left;
use crate::vec3::v3_unit;
use crate::vec3::Color;
use crate::vec3::Vector3;
use crate::vec3::V3;
use core::ops::Neg;
use vstd::prelude::*;

verus! {

/// What a scatter gives as mathematical content: nothing where the ray is
/// absorbed, else the attenuation and the ray that goes on.
pub open spec fn scatter_view(res: Option<(Color, Ray)>) -> Option<(V3, Line)> {
    match res {
        Some((attenuation, scattered)) => Some((attenuation@, scattered@)),
        None => None,
    }
}

/// Every channel lies between zero and one.
pub open spec fn unit_color(c: V3) -> bool {
    v3_in_box(c, 0, scale())
}

/// The colour that attenuates nothing.
pub open spec fn white() -> V3 {
    V3 { x: scale(), y: scale(), z: scale() }
}

/// The incoming direction mirrored in the surface. The direction is scaled
/// first, so that a short one loses no bits; the scale does not matter to
/// the unit vector that is taken of the result.
pub open spec fn mirrored(dir: V3, normal: V3) -> V3 {
    v3_reflect(v3_scaled(dir), normal)
}

/// Where a diffuse surface sends a ray: the normal plus the drawn direction,
/// or the normal alone where the two cancel.
pub open spec fn lambertian_direction(normal: V3, u: V3) -> V3 {
    let d = v3_add(normal, u);
    if v3_near_zero(d) {
        normal
    } else {
        d
    }
}

/// The dot product of the direction in which a diffuse surface sends a ray
/// with the normal is above half of what the squared length of the normal
/// has over that of the drawn direction, less three steps of rounding: for
/// every normal and every drawn direction with no component above one.
pub proof fn lemma_lambertian_dot(normal: V3, u: V3)
    requires
        v3_in_box(normal, -scale(), scale()),
        v3_in_box(u, -scale(), scale()),
    ensures
        2 * scale() * (v3_dot(lambertian_direction(normal, u), normal) + 3) > v3_sum_squares(
            normal,
        ) - v3_sum_squares(u),
{
    let s = scale();
    let nn = v3_sum_squares(normal);
    let uu = v3_sum_squares(u);
    assert(nn >= 0 && uu >= 0) by (nonlinear_arith)
        requires
            nn == normal.x * normal.x + normal.y * normal.y + normal.z * normal.z,
            uu == u.x * u.x + u.y * u.y + u.z * u.z,
    ;
    let d = lambertian_direction(normal, u);
    lemma_product_floor(d.x, normal.x);
    lemma_product_floor(d.y, normal.y);
    lemma_product_floor(d.z, normal.z);
    let e = d.x * normal.x + d.y * normal.y + d.z * normal.z;
    let t = v3_dot(d, normal);
    assert(t * s > e - 3 * s);
    if v3_near_zero(v3_add(normal, u)) {
        assert(e == nn);
    } else {
        assert(2 * e >= nn - uu) by (nonlinear_arith)
            requires
                d.x == normal.x + u.x,
                d.y == normal.y + u.y,
                d.z == normal.z + u.z,
                nn == normal.x * normal.x + normal.y * normal.y + normal.z * normal.z,
                uu == u.x * u.x + u.y * u.y + u.z * u.z,
                e == d.x * normal.x + d.y * normal.y + d.z * normal.z,
        ;
    }
    assert(2 * s * (t + 3) == 2 * (t * s) + 6 * s) by (nonlinear_arith);
}

/// How far the dot product of a diffuse surface's direction with a unit
/// normal may lie below zero, in steps.
pub const INWARD_SLACK: i64 = 10;

/// A diffuse surface does not send a ray into the surface: with a unit
/// normal and a drawn direction of unit length, the direction that it sends
/// the ray in has a dot product with the normal of zero or more, up to
/// `INWARD_SLACK` steps of rounding.
pub proof fn lemma_lambertian_leaves(normal: V3, u: V3)
    requires
        v3_is_unit(normal),
        v3_is_unit(u),
    ensures
        v3_dot(lambertian_direction(normal, u), normal) >= -INWARD_SLACK,
{
    lemma_lambertian_dot(normal, u);
    let s = scale();
    let t = v3_dot(lambertian_direction(normal, u), normal);
    assert(t >= -10) by (nonlinear_arith)
        requires
            2 * s * (t + 3) > -12 * s - 3,
            s == 0x1_0000_0000,
    ;
}

/// A product of two numbers of two or less and one or less in size, as a
/// scalar: it is above the true product less one step.
proof fn lemma_product_floor(a: int, b: int)
    requires
        -2 * scale() <= a <= 2 * scale(),
        -scale() <= b <= scale(),
    ensures
        fx_mul(a, b) * scale() > a * b - scale(),
        -2 * scale() <= fx_mul(a, b) <= 2 * scale(),
{
    let s = scale();
    let m = magnitude(a * b);
    assert(m <= 2 * s * s) by (nonlinear_arith)
        requires
            m == magnitude(a * b),
            -2 * s <= a <= 2 * s,
            -s <= b <= s,
            s > 0,
    ;
    let q = m / s;
    assert(q * s <= m < (q + 1) * s && 0 <= q <= 2 * s) by (nonlinear_arith)
        requires
            q == m / s,
            0 <= m <= 2 * s * s,
            s == 0x1_0000_0000,
    ;
}

/// A diffuse surface sends no ray on without a direction: the direction is
/// near zero only where the normal is.
pub proof fn lemma_lambertian_direction(normal: V3, u: V3)
    ensures
        v3_near_zero(lambertian_direction(normal, u)) ==> v3_near_zero(normal),
{
}

/// A diffuse surface.
#[derive(Clone, Copy, Debug, PartialEq, Eq)]
pub struct Lambertian {
    albedo: Color,
}

impl Lambertian {
    /// The share of each colour that the surface sends on.
    pub closed spec fn albedo(self) -> V3 {
        self.albedo@
    }

    /// What `scatter` gives for the drawn direction `u`.
    pub open spec fn scatter_result(self, h: Hit, u: V3) -> Option<(V3, Line)> {
        Some(
            (self.albedo(), Line { origin: h.p, direction: lambertian_direction(h.normal, u) }),
        )
    }

    /// `out` is what `scatter` gives for some draw.
    pub open spec fn may_scatter(self, h: Hit, out: Option<(V3, Line)>) -> bool {
        exists|u: V3| #[trigger] v3_sampled_unit(u) && out == self.scatter_result(h, u)
    }

    /// A diffuse surface with the given albedo.
    pub fn new(albedo: Color) -> (r: Lambertian)
        ensures
            r.albedo() == albedo@,
    {
        Lambertian { albedo }
    }

    /// The scatter for the drawn direction `unit`.
    pub fn scatter_with(&self, rec: &HitRecord, unit: Vector3) -> (res: Option<(Color, Ray)>)
        ensures
            scatter_view(res) == self.scatter_result(rec@, unit@),
            v3_is_unit(rec.normal@) && v3_is_unit(unit@) ==> (res matches Some((_, scattered))
                && v3_dot(scattered@.direction, rec.normal@) >= -INWARD_SLACK),
            v3_in_box(rec.normal@, -scale(), scale()) && v3_in_box(unit@, -scale(), scale()) ==> (
            res matches Some((_, scattered)) && 2 * scale() * (v3_dot(
                scattered@.direction,
                rec.normal@,
            ) + 3) > v3_sum_squares(rec.normal@) - v3_sum_squares(unit@)),
    {
        proof {
            if v3_is_unit(rec.normal@) && v3_is_unit(unit@) {
                lemma_lambertian_leaves(rec.normal@, unit@);
            }
            if v3_in_box(rec.normal@, -scale(), scale()) && v3_in_box(unit@, -scale(), scale()) {
                lemma_lambertian_dot(rec.normal@, unit@);
            }
        }
        let mut scatter_direction = rec.normal + unit;
        if scatter_direction.near_zero() {
            scatter_direction = rec.normal;
        }
        let scattered = Ray::new(rec.p, scatter_direction);
        Some((self.albedo, scattered))
    }

    /// Sends the ray on in a random direction about the normal. Never absorbs.
    pub fn scatter(&self, _ray_in: &Ray, rec: &HitRecord) -> (res: Option<(Color, Ray)>)
        ensures
            self.may_scatter(rec@, scatter_view(res)),
            res matches Some((attenuation, scattered)) && attenuation@ == self.albedo()
                && scattered@.origin == rec.p@ && (v3_is_unit(rec.normal@) ==> v3_dot(
                scattered@.direction,
                rec.normal@,
            ) >= -INWARD_SLACK) && (v3_in_box(rec.normal@, -scale(), scale()) ==> 2 * scale() * (
            v3_dot(scattered@.direction, rec.normal@) + 3) > v3_sum_squares(rec.normal@) - scale()
                * scale() - 6 * scale()),
    {
        let unit = Vector3::random_unit_vector();
        self.scatter_with(rec, unit)
    }
}

/// A mirror, blurred by `fuzz`.
#[derive(Clone, Copy, Debug, PartialEq, Eq)]
pub struct Metal {
    albedo: Color,
    fuzz: Scalar,
}

impl Metal {
    /// The fuzz lies between zero and one.
    #[verifier::type_invariant]
    pub closed spec fn wf(self) -> bool {
        0 <= self.fuzz@ <= scale()
    }

    /// The share of each colour that the surface sends on.
    pub closed spec fn albedo(self) -> V3 {
        self.albedo@
    }

    /// How far a drawn direction moves the mirrored one, from zero to one.
    pub closed spec fn fuzz(self) -> int {
        self.fuzz@
    }

    /// What `scatter` gives for the incoming direction `dir` and the drawn
    /// direction `u`: the mirrored direction, made a unit vector, plus `fuzz`
    /// times `u`; absorbed where the mirrored direction is zero or the
    /// result does not leave the surface.
    pub open spec fn scatter_result(self, dir: V3, h: Hit, u: V3) -> Option<(V3, Line)> {
        let m = mirrored(dir, h.normal);
        let d = v3_add(v3_unit(m), v3_scale_left(self.fuzz(), u));
        if !v3_is_zero(m) && v3_dot(d, h.normal) > 0 {
            Some((self.albedo(), Line { origin: h.p, direction: d }))
        } else {
            None
        }
    }

    /// `out` is what `scatter` gives for some draw.
    pub open spec fn may_scatter(self, dir: V3, h: Hit, out: Option<(V3, Line)>) -> bool {
        exists|u: V3| #[trigger] v3_sampled_unit(u) && out == self.scatter_result(dir, h, u)
    }

    /// `d` is the mirrored direction plus a deviation that is no longer
    /// than the fuzz, up to `DEVIATION_SLACK` steps in the square.
    pub open spec fn near_mirrored(self, dir: V3, normal: V3, d: V3) -> bool {
        exists|dev: V3|
            {
                &&& d == v3_add(v3_unit(mirrored(dir, normal)), dev)
                &&& v3_in_box(dev, -self.fuzz(), self.fuzz())
                &&& #[trigger] v3_length_squared(dev) <= fx_mul(self.fuzz(), self.fuzz())
                    + DEVIATION_SLACK
            }
    }

    /// A metal with `fuzz` moved into the range from zero to one.
    pub fn new(albedo: Color, fuzz: Scalar) -> (r: Metal)
        ensures
            r.albedo() == albedo@,
            r.fuzz() == fx_max(0, fx_min(fuzz@, scale())),
    {
        Metal { albedo, fuzz: fuzz.min(Scalar::one()).max(Scalar::zero()) }
    }

    /// The scatter for the drawn direction `unit`.
    pub fn scatter_with(&self, ray_in: &Ray, rec: &HitRecord, unit: Vector3) -> (res: Option<
        (Color, Ray),
    >)
        ensures
            scatter_view(res) == self.scatter_result(ray_in@.direction, rec@, unit@),
            v3_is_unit(unit@) ==> (res matches Some((_, scattered)) ==> self.near_mirrored(
                ray_in@.direction,
                rec.normal@,
                scattered@.direction,
            )),
    {
        proof {
            use_type_invariant(self);
            if v3_is_unit(unit@) {
                lemma_metal_deviation(*self, ray_in@.direction, rec@, unit@);
                let dev = v3_scale_left(self.fuzz(), unit@);
                assert(v3_length_squared(dev) <= fx_mul(self.fuzz(), self.fuzz())
                    + DEVIATION_SLACK);
            }
        }
        let (incoming, _f, _g) = ray_in.direction().scaled();
        let mirrored = incoming.reflect(&rec.normal);
        if mirrored.is_zero() {
            return None;
        }
        let direction = mirrored.unit_vector() + self.fuzz * unit;
        let scattered = Ray::new(rec.p, direction);
        if scattered.direction().dot(&rec.normal).gt(&Scalar::zero()) {
            Some((self.albedo, scattered))
        } else {
            None
        }
    }

    /// Mirrors the ray, blurred by a random direction; absorbs it where the
    /// result would enter the surface.
    pub fn scatter(&self, ray_in: &Ray, rec: &HitRecord) -> (res: Option<(Color, Ray)>)
        ensures
            self.may_scatter(ray_in@.direction, rec@, scatter_view(res)),
            v3_is_zero(mirrored(ray_in@.direction, rec.normal@)) ==> res is None,
            res matches Some((attenuation, scattered)) ==> attenuation@ == self.albedo()
                && scattered@.origin == rec.p@ && v3_dot(scattered@.direction, rec.normal@) > 0
                && self.near_mirrored(ray_in@.direction, rec.normal@, scattered@.direction),
    {
        let unit = Vector3::random_unit_vector();
        self.scatter_with(ray_in, rec, unit)
    }
}

/// How far the squared length of a metal's deviation may lie above the
/// square of the fuzz, in steps.
pub const DEVIATION_SLACK: i64 = 7;

/// What a metal sends on is the mirrored direction plus a deviation that is
/// no longer than the fuzz: no component of it is larger than the fuzz, and
/// its squared length is the square of the fuzz or less, up to
/// `DEVIATION_SLACK` steps.
pub proof fn lemma_metal_deviation(m: Metal, dir: V3, h: Hit, u: V3)
    requires
        m.wf(),
        v3_is_unit(u),
    ensures
        v3_in_box(v3_scale_left(m.fuzz(), u), -m.fuzz(), m.fuzz()),
        v3_length_squared(v3_scale_left(m.fuzz(), u)) <= fx_mul(m.fuzz(), m.fuzz())
            + DEVIATION_SLACK,
        m.scatter_result(dir, h, u) matches Some((_, scattered)) ==> scattered.direction == v3_add(
            v3_unit(mirrored(dir, h.normal)),
            v3_scale_left(m.fuzz(), u),
        ),
{
    let f = m.fuzz();
    let d = v3_scale_left(f, u);
    lemma_mul_shrinks_by(f, u.x);
    lemma_mul_shrinks_by(f, u.y);
    lemma_mul_shrinks_by(f, u.z);
    lemma_shrunk_square(f, u.x);
    lemma_shrunk_square(f, u.y);
    lemma_shrunk_square(f, u.z);
    let s = scale();
    let uu = v3_sum_squares(u);
    let dd = v3_sum_squares(d);
    assert(dd * (s * s) <= (f * f) * uu) by (nonlinear_arith)
        requires
            (d.x * d.x) * (s * s) <= (f * f) * (u.x * u.x),
            (d.y * d.y) * (s * s) <= (f * f) * (u.y * u.y),
            (d.z * d.z) * (s * s) <= (f * f) * (u.z * u.z),
            dd == d.x * d.x + d.y * d.y + d.z * d.z,
            uu == u.x * u.x + u.y * u.y + u.z * u.z,
    ;
    assert(dd <= f * f + 6 * f) by (nonlinear_arith)
        requires
            dd * (s * s) <= (f * f) * uu,
            uu <= s * s + 6 * s,
            0 <= f <= s,
            s == 0x1_0000_0000,
            dd >= 0,
    ;
    lemma_square_value(d.x);
    lemma_square_value(d.y);
    lemma_square_value(d.z);
    lemma_square_value(f);
    let q = fx_mul(f, f);
    let l = v3_length_squared(d);
    assert(l * s <= dd);
    assert(l <= q + 7) by (nonlinear_arith)
        requires
            l * s <= dd,
            dd <= f * f + 6 * f,
            f * f < (q + 1) * s,
            0 <= f <= s,
            s == 0x1_0000_0000,
    ;
}

/// The square of a shrunk factor: `fx_mul(f, u)^2 2^64 <= f^2 u^2`.
proof fn lemma_shrunk_square(f: int, u: int)
    requires
        0 <= f <= scale(),
        -scale() <= u <= scale(),
    ensures
        (fx_mul(f, u) * fx_mul(f, u)) * (scale() * scale()) <= (f * f) * (u * u),
        fx_mul(f, u) * fx_mul(f, u) >= 0,
{
    let m = magnitude(u);
    let s = scale();
    assert(magnitude(f * u) == f * m) by (nonlinear_arith)
        requires
            m == magnitude(u),
            f >= 0,
    ;
    let q = (f * m) / s;
    assert(0 <= q * s <= f * m && q <= f) by (nonlinear_arith)
        requires
            q == (f * m) / s,
            0 <= f,
            0 <= m <= s,
            s == 0x1_0000_0000,
    ;
    let d = fx_mul(f, u);
    assert(magnitude(d) == q);
    assert((d * d) * (s * s) <= (f * f) * (u * u) && d * d >= 0) by (nonlinear_arith)
        requires
            magnitude(d) == q,
            0 <= q * s <= f * m,
            m == magnitude(u),
            0 <= f,
    ;
}

/// A factor `f` from zero to one times a factor of size one or less is of
/// size `f` or less.
proof fn lemma_mul_shrinks_by(f: int, u: int)
    requires
        0 <= f <= scale(),
        -scale() <= u <= scale(),
    ensures
        -f <= fx_mul(f, u) <= f,
{
    let m = magnitude(u);
    assert(magnitude(f * u) == f * m) by (nonlinear_arith)
        requires
            m == magnitude(u),
            f >= 0,
    ;
    assert(0 <= (f * m) / scale() <= f) by (nonlinear_arith)
        requires
            0 <= f,
            0 <= m <= scale(),
            scale() == 0x1_0000_0000,
    ;
}

/// The fifth power.
pub open spec fn fx_pow5(x: int) -> int {
    fx_mul(fx_mul(fx_mul(fx_mul(x, x), x), x), x)
}

/// Schlick's approximation of the share of light that a surface between two
/// media reflects: `r0 + (1 - r0) (1 - cosine)^5` with
/// `r0 = ((1 - ratio) / (1 + ratio))^2`. Meaningful for `1 + ratio != 0`.
pub open spec fn schlick(cosine: int, ratio: int) -> int {
    let q = fx_div(fx_sub(scale(), ratio), fx_add(scale(), ratio));
    let r0 = fx_mul(q, q);
    fx_add(r0, fx_mul(fx_sub(scale(), r0), fx_pow5(fx_sub(scale(), cosine))))
}

/// The ratio of the refractive indices that a ray meets: `1 / index` on its
/// way in, `index` on its way out.
pub open spec fn refraction_ratio(index: int, front_face: bool) -> int {
    if front_face {
        fx_div(scale(), index)
    } else {
        index
    }
}

/// The ray and the index admit a refraction: the direction is not zero, the
/// ratio exists, and one plus the ratio is not zero.
pub open spec fn refracts(index: int, dir: V3, front_face: bool) -> bool {
    &&& !v3_is_zero(dir)
    &&& front_face ==> index != 0
    &&& fx_add(scale(), refraction_ratio(index, front_face)) != 0
}

/// Glass with an index above zero refracts every ray but the one whose
/// direction is zero.
pub proof fn lemma_glass_refracts(index: int, dir: V3, front_face: bool)
    requires
        index > 0,
        !v3_is_zero(dir),
    ensures
        refracts(index, dir, front_face),
{
    lemma_ratio_sign(index);
}

/// One over what is above zero is not negative.
proof fn lemma_ratio_sign(index: int)
    requires
        index > 0,
    ensures
        fx_div(scale(), index) >= 0,
{
    let q = magnitude(scale() * scale()) / index;
    assert(q >= 0) by (nonlinear_arith)
        requires
            q == magnitude(scale() * scale()) / index,
            index > 0,
            magnitude(scale() * scale()) >= 0,
    ;
}

/// Where glass sends a ray with direction `dir`, for the draw `u` between
/// zero and one: mirrored where Snell's law has no solution or the
/// reflectance is above `u`, else refracted.
pub open spec fn dielectric_direction(
    index: int,
    dir: V3,
    normal: V3,
    front_face: bool,
    u: int,
) -> V3 {
    let ratio = refraction_ratio(index, front_face);
    let unit = v3_unit(dir);
    let cos_theta = fx_min(v3_dot(v3_neg(unit), normal), scale());
    let sin_theta = fx_sqrt(fx_sub(scale(), fx_mul(cos_theta, cos_theta)));
    if fx_mul(ratio, sin_theta) > scale() || schlick(cos_theta, ratio) > u {
        v3_reflect(unit, normal)
    } else {
        v3_refract(unit, normal, ratio)
    }
}

/// Schlick's approximation of the reflectance.
fn reflectance(cosine: Scalar, refraction_index: Scalar) -> (r: Scalar)
    requires
        fx_add(scale(), refraction_index@) != 0,
    ensures
        r@ == schlick(cosine@, refraction_index@),
{
    let r0 = (Scalar::one() - refraction_index) / (Scalar::one() + refraction_index);
    let r0 = r0 * r0;
    let x = Scalar::one() - cosine;
    r0 + (Scalar::one() - r0) * (x * x * x * x * x)
}

/// Clear glass.
#[derive(Clone, Copy, Debug, PartialEq, Eq)]
pub struct Dielectric {
    refraction_index: Scalar,
}

impl Dielectric {
    /// The refractive index of the glass over that of what surrounds it.
    pub closed spec fn refraction_index(self) -> int {
        self.refraction_index@
    }

    /// What `scatter` gives for the incoming direction `dir` and the draw
    /// `u`: full transmission along `dielectric_direction`, and nothing where
    /// the ray and the index admit no refraction.
    pub open spec fn scatter_result(self, dir: V3, h: Hit, u: int) -> Option<(V3, Line)> {
        if refracts(self.refraction_index(), dir, h.front_face) {
            Some(
                (
                    white(),
                    Line {
                        origin: h.p,
                        direction: dielectric_direction(
                            self.refraction_index(),
                            dir,
                            h.normal,
                            h.front_face,
                            u,
                        ),
                    },
                ),
            )
        } else {
            None
        }
    }

    /// `out` is what `scatter` gives for some draw.
    pub open spec fn may_scatter(self, dir: V3, h: Hit, out: Option<(V3, Line)>) -> bool {
        exists|u: int| 0 <= u <= scale() && out == #[trigger] self.scatter_result(dir, h, u)
    }

    /// Glass with the given refractive index.
    pub fn new(refraction_index: Scalar) -> (r: Dielectric)
        ensures
            r.refraction_index() == refraction_index@,
    {
        Dielectric { refraction_index }
    }

    /// The scatter for the draw `u`.
    pub fn scatter_with(&self, ray_in: &Ray, rec: &HitRecord, u: Scalar) -> (res: Option<
        (Color, Ray),
    >)
        ensures
            scatter_view(res) == self.scatter_result(ray_in@.direction, rec@, u@),
    {
        let attenuation = Color::new(Scalar::one(), Scalar::one(), Scalar::one());
        if ray_in.direction().is_zero() {
            return None;
        }
        if rec.front_face && self.refraction_index.raw() == 0 {
            return None;
        }
        let ri = if rec.front_face {
            Scalar::one() / self.refraction_index
        } else {
            self.refraction_index
        };
        if (Scalar::one() + ri).raw() == 0 {
            return None;
        }
        let unit_direction = ray_in.direction().unit_vector();
        let cos_theta = unit_direction.neg().dot(&rec.normal).min(Scalar::one());
        let sin_theta = (Scalar::one() - cos_theta * cos_theta).sqrt();

        let cannot_refract = (ri * sin_theta).gt(&Scalar::one());
        let direction = if cannot_refract || reflectance(cos_theta, ri).gt(&u) {
            unit_direction.reflect(&rec.normal)
        } else {
            unit_direction.refract(&rec.normal, ri)
        };

        let scattered = Ray::new(rec.p, direction);
        Some((attenuation, scattered))
    }

    /// Mirrors or refracts the ray, at random by the reflectance. Absorbs
    /// only a ray that admits no refraction.
    pub fn scatter(&self, ray_in: &Ray, rec: &HitRecord) -> (res: Option<(Color, Ray)>)
        ensures
            self.may_scatter(ray_in@.direction, rec@, scatter_view(res)),
            res is Some <==> refracts(self.refraction_index(), ray_in@.direction, rec.front_face),
            self.refraction_index() > 0 && !v3_is_zero(ray_in@.direction) ==> res is Some,
            res matches Some((attenuation, scattered)) ==> attenuation@ == white()
                && scattered@.origin == rec.p@,
    {
        proof {
            if self.refraction_index() > 0 && !v3_is_zero(ray_in@.direction) {
                lemma_glass_refracts(self.refraction_index(), ray_in@.direction, rec.front_face);
            }
        }
        let u = Scalar::random_range(Scalar::zero(), Scalar::one());
        self.scatter_with(ray_in, rec, u)
    }
}

/// The material of a surface.
#[derive(Clone, Copy, Debug, PartialEq, Eq)]
pub enum Material {
    Lambertian(Lambertian),
    Metal(Metal),
    Dielectric(Dielectric),
}

impl Material {
    /// The attenuation of every ray that the material sends on.
    pub open spec fn attenuation(self) -> V3 {
        match self {
            Material::Lambertian(m) => m.albedo(),
            Material::Metal(m) => m.albedo(),
            Material::Dielectric(_) => white(),
        }
    }

    /// The material reflects no more light than it receives.
    pub open spec fn physical(self) -> bool {
        unit_color(self.attenuation())
    }

    /// `out` is what `scatter` gives for some draw.
    pub open spec fn may_scatter(self, r: Line, h: Hit, out: Option<(V3, Line)>) -> bool {
        match self {
            Material::Lambertian(m) => m.may_scatter(h, out),
            Material::Metal(m) => m.may_scatter(r.direction, h, out),
            Material::Dielectric(m) => m.may_scatter(r.direction, h, out),
        }
    }

    /// Decides whether the ray goes on from the hit, along which ray and with
    /// what attenuation.
    pub fn scatter(&self, ray_in: &Ray, rec: &HitRecord) -> (res: Option<(Color, Ray)>)
        ensures
            self.may_scatter(ray_in@, rec@, scatter_view(res)),
            res matches Some((attenuation, scattered)) ==> attenuation@ == self.attenuation()
                && scattered@.origin == rec.p@,
    {
        match self {
            Material::Lambertian(m) => m.scatter(ray_in, rec),
            Material::Metal(m) => m.scatter(ray_in, rec),
            Material::Dielectric(m) => m.scatter(ray_in, rec),
        }
    }
}

/// Whatever a physical material sends on, it attenuates by a colour whose
/// channels lie between zero and one.
pub proof fn lemma_attenuation_in_unit_range(m: Material, r: Line, h: Hit, out: Option<(V3, Line)>)
    requires
        m.physical(),
        m.may_scatter(r, h, out),
    ensures
        out matches Some((attenuation, _)) ==> unit_color(attenuation),
{
}

} // verus!
