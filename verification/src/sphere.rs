//! Spheres, and where a ray meets one.
use crate::hit::faces_front;
use crate::hit::facing_normal;
use crate::hit::hit_before;
use crate::hit::lemma_facing_normal_opposes;
use crate::hit::Hit;
use crate::hit::HitRecord;
use crate::hit::Hittable;
use crate::interval::Interval;
use crate::material::Material;
use crate::ray::line_at;
use crate::ray::Line;
use crate::ray::Ray;
use crate::scalar::fx_add;
use crate::scalar::fx_div;
use crate::scalar::fx_max;
use crate::scalar::fx_mul;
use crate::scalar::fx_sqrt;
use crate::scalar::fx_sub;
use crate::scalar::lemma_div_error;
use crate::scalar::lemma_div_one;
use crate::scalar::lemma_isqrt_exists;
use crate::scalar::lemma_mul_error;
use crate::scalar::lemma_square_floor;
use crate::scalar::lemma_mul_neg;
use crate::scalar::lemma_mul_one;
use crate::scalar::lemma_norm_divisor;
use crate::scalar::lemma_norm_factor;
use crate::scalar::lemma_quot_one;
use crate::scalar::limit;
use crate::scalar::norm_divisor;
use crate::scalar::lemma_quot_monotonic;
use crate::scalar::lemma_square_nonnegative;
use crate::scalar::sat;
use crate::scalar::lemma_sqrt_of_square;
use crate::scalar::lemma_sqrt_sign;
use crate::scalar::magnitude;
use crate::scalar::scale;
use crate::scalar::Scalar;
use crate::vec3::lemma_length_squared_nonnegative;
use crate::vec3::v3_div;
use crate::vec3::v3_dot;
use crate::vec3::lemma_dot_neg;
use crate::vec3::lemma_scaled;
use crate::vec3::v3_sum_squares;
use crate::vec3::v3_divisor;
use crate::vec3::v3_factor;
use crate::vec3::v3_rescaled;
use crate::vec3::Vector3;
use crate::vec3::v3_in_range;
use crate::vec3::v3_is_unit;
use crate::vec3::v3_is_zero;
use crate::vec3::v3_length_squared;
use crate::vec3::v3_max_size;
use crate::vec3::v3_scaled;
use crate::vec3::v3_neg;
use crate::vec3::v3_sub;
use crate::vec3::Point3;
use crate::vec3::V3;
use vstd::prelude::*;

verus! {

/// The discriminant of the quadratic `a t^2 - 2 h t + c = 0` whose roots are
/// the parameters at which the line meets the sphere, with `a = |d|^2`,
/// `h = d . (center - origin)` and `c = |center - origin|^2 - radius^2`. It
/// is taken for the scaled direction `d`, so that a short direction loses no
/// bits in its square.
pub open spec fn sphere_discriminant(center: V3, radius: int, r: Line) -> int {
    let d = v3_scaled(r.direction);
    let oc = v3_sub(center, r.origin);
    let a = v3_length_squared(d);
    let h = v3_dot(d, oc);
    let c = fx_sub(v3_length_squared(oc), fx_mul(radius, radius));
    fx_sub(fx_mul(h, h), fx_mul(a, c))
}

/// The line meets the sphere: its scaled direction has a squared length, as
/// every direction but zero has, the sphere has a radius, and the
/// discriminant is not negative.
pub open spec fn sphere_met(center: V3, radius: int, r: Line) -> bool {
    &&& v3_length_squared(v3_scaled(r.direction)) != 0
    &&& radius != 0
    &&& sphere_discriminant(center, radius, r) >= 0
}

/// The smaller root, `(h - sqrt(disc)) / a`, as a parameter of the ray: the
/// root for the scaled direction, rescaled.
pub open spec fn sphere_near_root(center: V3, radius: int, r: Line) -> int {
    let d = v3_scaled(r.direction);
    let oc = v3_sub(center, r.origin);
    let a = v3_length_squared(d);
    let h = v3_dot(d, oc);
    v3_rescaled(
        fx_div(fx_sub(h, fx_sqrt(sphere_discriminant(center, radius, r))), a),
        r.direction,
    )
}

/// The larger root, `(h + sqrt(disc)) / a`, as a parameter of the ray.
pub open spec fn sphere_far_root(center: V3, radius: int, r: Line) -> int {
    let d = v3_scaled(r.direction);
    let oc = v3_sub(center, r.origin);
    let a = v3_length_squared(d);
    let h = v3_dot(d, oc);
    v3_rescaled(
        fx_div(fx_add(h, fx_sqrt(sphere_discriminant(center, radius, r))), a),
        r.direction,
    )
}

/// The parameter of the hit: the smaller root where it lies strictly between
/// `min` and `max`, else the larger root where that does.
pub open spec fn sphere_root(center: V3, radius: int, r: Line, min: int, max: int) -> Option<int> {
    let near = sphere_near_root(center, radius, r);
    let far = sphere_far_root(center, radius, r);
    if !sphere_met(center, radius, r) {
        None
    } else if min < near < max {
        Some(near)
    } else if min < far < max {
        Some(far)
    } else {
        None
    }
}

/// The record of the hit at the parameter `t`: the point of the line there,
/// the normal `(p - center) / radius` turned against the ray, and whether
/// the ray came from outside.
pub open spec fn sphere_record(center: V3, radius: int, mat: Material, r: Line, t: int) -> Hit {
    let p = line_at(r, t);
    let outward = v3_div(v3_sub(p, center), radius);
    Hit {
        p,
        normal: facing_normal(r.direction, outward),
        t,
        front_face: faces_front(r.direction, outward),
        mat,
    }
}

/// The hit of the line on the sphere between `min` and `max`.
pub open spec fn sphere_hit(
    center: V3,
    radius: int,
    mat: Material,
    r: Line,
    min: int,
    max: int,
) -> Option<Hit> {
    match sphere_root(center, radius, r, min, max) {
        Some(t) => Some(sphere_record(center, radius, mat, r, t)),
        None => None,
    }
}

/// The record of a hit lies on the line at the parameter of the hit, and its
/// normal is the radial direction `(p - center) / radius` or the opposite.
pub proof fn lemma_sphere_normal_radial(
    center: V3,
    radius: int,
    mat: Material,
    r: Line,
    min: int,
    max: int,
)
    ensures
        sphere_hit(center, radius, mat, r, min, max) matches Some(h) ==> {
            let radial = v3_div(v3_sub(h.p, center), radius);
            &&& h.p == line_at(r, h.t)
            &&& h.normal == radial || h.normal == v3_neg(radial)
            &&& h.front_face <==> h.normal == radial && v3_dot(r.direction, radial) < 0
            &&& h.mat == mat
        },
{
}

/// A direction that is not zero has a scaled direction with a squared length
/// of one quarter or more.
pub proof fn lemma_direction_has_length(d: V3)
    requires
        v3_in_range(d),
        !v3_is_zero(d),
    ensures
        v3_length_squared(v3_scaled(d)) >= 0x4000_0000,
{
    lemma_scaled(d);
    let s = v3_scaled(d);
    lemma_square_nonnegative(s.x);
    lemma_square_nonnegative(s.y);
    lemma_square_nonnegative(s.z);
    lemma_large_square(s.x);
    lemma_large_square(s.y);
    lemma_large_square(s.z);
}

/// The square of what is one half or more in size is one quarter or more.
proof fn lemma_large_square(x: int)
    ensures
        magnitude(x) >= 0x8000_0000 ==> fx_mul(x, x) >= 0x4000_0000,
{
    if magnitude(x) >= 0x8000_0000 {
        let m = magnitude(x);
        assert(x * x == m * m && m * m >= 0x8000_0000 * 0x8000_0000) by (nonlinear_arith)
            requires
                m == magnitude(x),
                m >= 0x8000_0000,
        ;
        assert((x * x) / scale() >= 0x4000_0000) by (nonlinear_arith)
            requires
                x * x >= 0x8000_0000 * 0x8000_0000,
                scale() == 0x1_0000_0000,
        ;
    }
}

/// The smaller root is not above the larger.
pub proof fn lemma_sphere_roots_ordered(center: V3, radius: int, r: Line)
    requires
        v3_length_squared(v3_scaled(r.direction)) != 0,
    ensures
        sphere_near_root(center, radius, r) <= sphere_far_root(center, radius, r),
{
    let dir = v3_scaled(r.direction);
    let f = v3_factor(r.direction);
    let oc = v3_sub(center, r.origin);
    let a = v3_length_squared(dir);
    let h = v3_dot(dir, oc);
    let d = sphere_discriminant(center, radius, r);
    lemma_length_squared_nonnegative(dir);
    lemma_sqrt_sign(d);
    let s = fx_sqrt(d);
    let lo = fx_sub(h, s);
    let hi = fx_add(h, s);
    assert(lo * scale() <= hi * scale()) by (nonlinear_arith)
        requires
            lo <= hi,
            scale() == 0x1_0000_0000,
    ;
    lemma_quot_monotonic(lo * scale(), hi * scale(), a);
    lemma_norm_factor(v3_max_size(r.direction));
    let g = v3_divisor(r.direction);
    if v3_max_size(r.direction) <= limit() {
        lemma_norm_divisor(v3_max_size(r.direction));
    }
    lemma_divisor_positive(v3_max_size(r.direction));
    let near = fx_div(lo, a);
    let far = fx_div(hi, a);
    assert(near * f <= far * f) by (nonlinear_arith)
        requires
            near <= far,
            f >= 1,
    ;
    lemma_quot_monotonic(sat(near * f), sat(far * f), g);
}

/// A divisor is one or more.
proof fn lemma_divisor_positive(m: int)
    ensures
        norm_divisor(m) >= 1,
    decreases m,
{
    if m > 0x1_0000_0000 {
        lemma_divisor_positive((m + 1) / 2);
    }
}

/// The hit is at the first crossing inside the range: its parameter is one
/// of the two roots, and neither root lies in the range before it.
pub proof fn lemma_sphere_first_root(center: V3, radius: int, r: Line, min: int, max: int)
    ensures
        sphere_root(center, radius, r, min, max) matches Some(t) ==> {
            let near = sphere_near_root(center, radius, r);
            let far = sphere_far_root(center, radius, r);
            &&& t == near || t == far
            &&& min < near < max ==> t <= near
            &&& min < far < max ==> t <= far
        },
{
    if sphere_met(center, radius, r) {
        lemma_sphere_roots_ordered(center, radius, r);
    }
}

/// A hit lies strictly inside the range it was asked for, its normal does not
/// point along the ray, and a range that ends earlier gives the same hit or
/// none.
pub proof fn lemma_sphere_nearest(
    center: V3,
    radius: int,
    mat: Material,
    r: Line,
    min: int,
    max: int,
    cut: int,
)
    requires
        cut <= max,
    ensures
        sphere_hit(center, radius, mat, r, min, max) matches Some(h) ==> min < h.t < max && v3_dot(
            r.direction,
            h.normal,
        ) <= 0,
        sphere_hit(center, radius, mat, r, min, cut) == hit_before(
            sphere_hit(center, radius, mat, r, min, max),
            cut,
        ),
{
    if sphere_met(center, radius, r) {
        lemma_sphere_roots_ordered(center, radius, r);
    }
    match sphere_root(center, radius, r, min, max) {
        Some(t) => {
            let p = line_at(r, t);
            let outward = v3_div(v3_sub(p, center), radius);
            lemma_facing_normal_opposes(r.direction, outward);
        },
        None => {},
    }
}

/// `d` is a unit vector along a coordinate axis, either way.
pub open spec fn is_axis(d: V3) -> bool {
    ||| magnitude(d.x) == scale() && d.y == 0 && d.z == 0
    ||| d.x == 0 && magnitude(d.y) == scale() && d.z == 0
    ||| d.x == 0 && d.y == 0 && magnitude(d.z) == scale()
}

/// The line along an axis passes through `center`: off the axis, the centre
/// has the coordinates of the origin.
pub open spec fn axis_line_through(r: Line, center: V3) -> bool {
    &&& r.direction.x == 0 ==> center.x == r.origin.x
    &&& r.direction.y == 0 ==> center.y == r.origin.y
    &&& r.direction.z == 0 ==> center.z == r.origin.z
}

/// Coordinates and radii up to this size keep the arithmetic of a hit away
/// from the ends of the range.
pub open spec fn plain(a: int) -> bool {
    -0x4000_0000_0000 <= a <= 0x4000_0000_0000
}

/// A ray with a unit direction along a coordinate axis that passes through
/// the centre of a sphere meets it at the distance of the centre less the
/// radius and at that distance plus the radius, where the radius is taken up
/// to rounding: as the square root `s` of its square, which is the radius
/// or less, and one step less at most for a radius of one half or more.
pub proof fn lemma_sphere_axis_ray(center: V3, radius: int, r: Line)
    requires
        is_axis(r.direction),
        axis_line_through(r, center),
        plain(center.x) && plain(center.y) && plain(center.z),
        plain(r.origin.x) && plain(r.origin.y) && plain(r.origin.z),
        0 < radius <= 0x4000_0000_0000,
    ensures
        ({
            let distance = v3_dot(r.direction, v3_sub(center, r.origin));
            let s = fx_sqrt(fx_mul(radius, radius));
            &&& sphere_met(center, radius, r)
            &&& sphere_near_root(center, radius, r) == distance - s
            &&& sphere_far_root(center, radius, r) == distance + s
            &&& 0 <= s <= radius
            &&& radius >= 0x8000_0000 ==> s >= radius - 1
        }),
{
    let oc = v3_sub(center, r.origin);
    let d = r.direction;
    let along = if d.x != 0 {
        oc.x
    } else if d.y != 0 {
        oc.y
    } else {
        oc.z
    };
    let e = if d.x != 0 {
        d.x
    } else if d.y != 0 {
        d.y
    } else {
        d.z
    };
    lemma_axis_is_scaled(d);
    lemma_mul_one(e);
    lemma_mul_neg(scale(), scale());
    lemma_mul_neg(-scale(), scale());
    lemma_mul_one(along);
    lemma_mul_neg(scale(), along);
    let distance = v3_dot(d, oc);
    lemma_mul_neg(along, along);
    lemma_mul_neg(-along, along);
    lemma_square_bounded(along);
    lemma_square_bounded(radius);
    let c = fx_sub(v3_length_squared(oc), fx_mul(radius, radius));
    lemma_mul_one(c);
    lemma_sqrt_of_square(radius);
    let s = fx_sqrt(fx_mul(radius, radius));
    lemma_div_one(distance - s);
    lemma_div_one(distance + s);
    lemma_times_one(distance - s);
    lemma_times_one(distance + s);
    lemma_quot_one(distance - s);
    lemma_quot_one(distance + s);
}

/// Once a number is the number.
proof fn lemma_times_one(x: int)
    ensures
        x * 1 == x,
{
}

/// The square of a plain number, doubled or not, is in range.
proof fn lemma_square_bounded(a: int)
    requires
        -0x8000_0000_0000 <= a <= 0x8000_0000_0000,
    ensures
        0 <= fx_mul(a, a) <= 0x4000_0000_0000_0000,
{
    assert(0 <= a * a <= 0x8000_0000_0000 * 0x8000_0000_0000) by (nonlinear_arith)
        requires
            -0x8000_0000_0000 <= a <= 0x8000_0000_0000,
    ;
    assert(0 <= (a * a) / scale() <= 0x4000_0000_0000_0000) by (nonlinear_arith)
        requires
            0 <= a * a <= 0x8000_0000_0000 * 0x8000_0000_0000,
            scale() == 0x1_0000_0000,
    ;
}

/// The dot product of a unit direction `d` with an offset `e` that is
/// `distance` times `d` up to one step in each coordinate: the products `m`
/// add up to the distance, up to 102 steps.
proof fn lemma_through_dot(
    d1: int,
    d2: int,
    d3: int,
    e1: int,
    e2: int,
    e3: int,
    k: int,
    m1: int,
    m2: int,
    m3: int,
)
    requires
        -scale() <= d1 <= scale(),
        -scale() <= d2 <= scale(),
        -scale() <= d3 <= scale(),
        scale() * scale() - 6 * scale() - 3 < d1 * d1 + d2 * d2 + d3 * d3 <= scale() * scale() + 6
            * scale(),
        -scale() <= e1 * scale() - k * d1 <= scale(),
        -scale() <= e2 * scale() - k * d2 <= scale(),
        -scale() <= e3 * scale() - k * d3 <= scale(),
        0 <= k <= 16 * scale(),
        -scale() < m1 * scale() - d1 * e1 < scale(),
        -scale() < m2 * scale() - d2 * e2 < scale(),
        -scale() < m3 * scale() - d3 * e3 < scale(),
    ensures
        -103 <= m1 + m2 + m3 - k <= 103,
{
    let s = scale();
    let a = d1 * d1 + d2 * d2 + d3 * d3;
    let t1 = e1 * s - k * d1;
    let t2 = e2 * s - k * d2;
    let t3 = e3 * s - k * d3;
    lemma_through_term(d1, e1, k, t1);
    lemma_through_term(d2, e2, k, t2);
    lemma_through_term(d3, e3, k, t3);
    let p = d1 * e1 + d2 * e2 + d3 * e3;
    let t = d1 * t1 + d2 * t2 + d3 * t3;
    assert(k * a == k * (d1 * d1) + k * (d2 * d2) + k * (d3 * d3)) by (nonlinear_arith)
        requires
            a == d1 * d1 + d2 * d2 + d3 * d3,
    ;
    assert(p * s == k * a + t) by (nonlinear_arith)
        requires
            p == d1 * e1 + d2 * e2 + d3 * e3,
            t == d1 * t1 + d2 * t2 + d3 * t3,
            (d1 * e1) * s == k * (d1 * d1) + d1 * t1,
            (d2 * e2) * s == k * (d2 * d2) + d2 * t2,
            (d3 * e3) * s == k * (d3 * d3) + d3 * t3,
            k * a == k * (d1 * d1) + k * (d2 * d2) + k * (d3 * d3),
    ;
    assert(k * (s * s) - k * (6 * s + 3) <= k * a <= k * (s * s) + k * (6 * s)) by (nonlinear_arith)
        requires
            s * s - 6 * s - 3 < a <= s * s + 6 * s,
            k >= 0,
    ;
    assert(k * (6 * s + 3) <= 97 * (s * s)) by (nonlinear_arith)
        requires
            0 <= k <= 16 * s,
            s == 0x1_0000_0000,
    ;
    let h = m1 + m2 + m3;
    assert(h * (s * s) - p * s == (m1 * s - d1 * e1) * s + (m2 * s - d2 * e2) * s + (m3 * s - d3
        * e3) * s) by (nonlinear_arith)
        requires
            h == m1 + m2 + m3,
            p == d1 * e1 + d2 * e2 + d3 * e3,
    ;
    assert(-3 * (s * s) < h * (s * s) - p * s < 3 * (s * s)) by (nonlinear_arith)
        requires
            h * (s * s) - p * s == (m1 * s - d1 * e1) * s + (m2 * s - d2 * e2) * s + (m3 * s
                - d3 * e3) * s,
            -s < m1 * s - d1 * e1 < s,
            -s < m2 * s - d2 * e2 < s,
            -s < m3 * s - d3 * e3 < s,
            s > 0,
    ;
    assert(-103 * (s * s) < (h - k) * (s * s) < 103 * (s * s)) by (nonlinear_arith)
        requires
            -3 * (s * s) < h * (s * s) - p * s < 3 * (s * s),
            p * s == k * a + t,
            -3 * (s * s) <= t <= 3 * (s * s),
            k * (s * s) - k * (6 * s + 3) <= k * a <= k * (s * s) + k * (6 * s),
            k * (6 * s + 3) <= 97 * (s * s),
            k >= 0,
            s > 0,
    ;
    assert(-103 < h - k < 103) by (nonlinear_arith)
        requires
            -103 * (s * s) < (h - k) * (s * s) < 103 * (s * s),
            s * s > 0,
    ;
}

/// One term of the dot product: `d e 2^32 = k d^2 + d t`, with `d t` of size
/// `2^64` or less.
proof fn lemma_through_term(d: int, e: int, k: int, t: int)
    requires
        -scale() <= d <= scale(),
        t == e * scale() - k * d,
        -scale() <= t <= scale(),
    ensures
        (d * e) * scale() == k * (d * d) + d * t,
        -(scale() * scale()) <= d * t <= scale() * scale(),
        (e * scale()) * (e * scale()) == (k * k) * (d * d) + 2 * (k * (d * t)) + t * t,
        0 <= t * t <= scale() * scale(),
{
    let s = scale();
    assert((d * e) * s == k * (d * d) + d * t) by (nonlinear_arith)
        requires
            t == e * s - k * d,
    ;
    assert(-(s * s) <= d * t <= s * s) by (nonlinear_arith)
        requires
            -s <= d <= s,
            -s <= t <= s,
            s > 0,
    ;
    assert((e * s) * (e * s) == (k * k) * (d * d) + 2 * (k * (d * t)) + t * t) by (nonlinear_arith)
        requires
            t == e * s - k * d,
    ;
    assert(0 <= t * t <= s * s) by (nonlinear_arith)
        requires
            -s <= t <= s,
            s > 0,
    ;
}

/// The squared length of an offset `e` that is `k` times a unit direction
/// `d` up to one step in each coordinate: the squares `g` add up to `k^2`,
/// up to 1640 steps.
proof fn lemma_through_square(
    d1: int,
    d2: int,
    d3: int,
    e1: int,
    e2: int,
    e3: int,
    k: int,
    g1: int,
    g2: int,
    g3: int,
)
    requires
        -scale() <= d1 <= scale(),
        -scale() <= d2 <= scale(),
        -scale() <= d3 <= scale(),
        scale() * scale() - 6 * scale() - 3 < d1 * d1 + d2 * d2 + d3 * d3 <= scale() * scale() + 6
            * scale(),
        -scale() <= e1 * scale() - k * d1 <= scale(),
        -scale() <= e2 * scale() - k * d2 <= scale(),
        -scale() <= e3 * scale() - k * d3 <= scale(),
        0 <= k <= 16 * scale(),
        g1 * scale() <= e1 * e1 < (g1 + 1) * scale(),
        g2 * scale() <= e2 * e2 < (g2 + 1) * scale(),
        g3 * scale() <= e3 * e3 < (g3 + 1) * scale(),
    ensures
        k * k - 1640 * scale() < (g1 + g2 + g3) * scale() < k * k + 1640 * scale(),
{
    let s = scale();
    let a = d1 * d1 + d2 * d2 + d3 * d3;
    let t1 = e1 * s - k * d1;
    let t2 = e2 * s - k * d2;
    let t3 = e3 * s - k * d3;
    lemma_through_term(d1, e1, k, t1);
    lemma_through_term(d2, e2, k, t2);
    lemma_through_term(d3, e3, k, t3);
    let q = e1 * e1 + e2 * e2 + e3 * e3;
    let t = d1 * t1 + d2 * t2 + d3 * t3;
    let tt = t1 * t1 + t2 * t2 + t3 * t3;
    let kk = k * k;
    let ss = s * s;
    assert((e1 * s) * (e1 * s) == (e1 * e1) * ss && (e2 * s) * (e2 * s) == (e2 * e2) * ss && (e3
        * s) * (e3 * s) == (e3 * e3) * ss) by (nonlinear_arith)
        requires
            ss == s * s,
    ;
    assert(q * ss == (e1 * e1) * ss + (e2 * e2) * ss + (e3 * e3) * ss) by (nonlinear_arith)
        requires
            q == e1 * e1 + e2 * e2 + e3 * e3,
    ;
    assert(kk * a == kk * (d1 * d1) + kk * (d2 * d2) + kk * (d3 * d3)) by (nonlinear_arith)
        requires
            a == d1 * d1 + d2 * d2 + d3 * d3,
    ;
    assert(k * t == k * (d1 * t1) + k * (d2 * t2) + k * (d3 * t3)) by (nonlinear_arith)
        requires
            t == d1 * t1 + d2 * t2 + d3 * t3,
    ;
    assert(q * ss == kk * a + 2 * (k * t) + tt);
    assert(0 <= kk <= 256 * ss) by (nonlinear_arith)
        requires
            kk == k * k,
            ss == s * s,
            0 <= k <= 16 * s,
    ;
    assert(kk * ss - kk * (6 * s + 3) <= kk * a <= kk * ss + kk * (6 * s)) by (nonlinear_arith)
        requires
            ss - 6 * s - 3 < a <= ss + 6 * s,
            kk >= 0,
    ;
    assert(kk * (6 * s + 3) <= 1537 * (ss * s)) by (nonlinear_arith)
        requires
            0 <= kk <= 256 * ss,
            ss == s * s,
            s == 0x1_0000_0000,
    ;
    assert(-48 * (ss * s) <= k * t <= 48 * (ss * s)) by (nonlinear_arith)
        requires
            0 <= k <= 16 * s,
            -3 * ss <= t <= 3 * ss,
            ss == s * s,
            s > 0,
    ;
    assert(3 * ss <= ss * s) by (nonlinear_arith)
        requires
            ss == s * s,
            s == 0x1_0000_0000,
    ;
    assert(-1634 * (ss * s) <= (q - kk) * ss <= 1634 * (ss * s)) by (nonlinear_arith)
        requires
            q * ss == kk * a + 2 * (k * t) + tt,
            kk * ss - kk * (6 * s + 3) <= kk * a <= kk * ss + kk * (6 * s),
            kk * (6 * s + 3) <= 1537 * (ss * s),
            -48 * (ss * s) <= k * t <= 48 * (ss * s),
            0 <= tt <= 3 * ss,
            3 * ss <= ss * s,
            kk >= 0,
            s > 0,
    ;
    assert(-1634 * s <= q - kk <= 1634 * s) by (nonlinear_arith)
        requires
            -1634 * (ss * s) <= (q - kk) * ss <= 1634 * (ss * s),
            ss > 0,
            ss == s * s,
    ;
}

/// The discriminant for a unit ray through the centre is the square of the
/// radius, up to 7500 steps.
proof fn lemma_through_discriminant(
    h: int,
    q: int,
    k: int,
    a: int,
    radius: int,
    r2: int,
    h2: int,
    ac: int,
)
    requires
        0 <= k <= 16 * scale(),
        -103 <= h - k <= 103,
        k * k - 1640 * scale() < q * scale() < k * k + 1640 * scale(),
        scale() - 9 <= a <= scale() + 9,
        0 <= radius <= 16 * scale(),
        r2 * scale() <= radius * radius < (r2 + 1) * scale(),
        h2 * scale() <= h * h < (h2 + 1) * scale(),
        -scale() < ac * scale() - a * (q - r2) < scale(),
    ensures
        -7500 <= (h2 - ac) - r2 <= 7500,
        -300 * scale() <= q - r2 <= 300 * scale(),
        0 <= h2 <= 300 * scale(),
        -300 * scale() <= ac <= 300 * scale(),
{
    let s = scale();
    let c = q - r2;
    assert(0 <= k * k <= 256 * (s * s)) by (nonlinear_arith)
        requires
            0 <= k <= 16 * s,
    ;
    assert(0 <= radius * radius <= 256 * (s * s)) by (nonlinear_arith)
        requires
            0 <= radius <= 16 * s,
    ;
    assert(0 <= r2 <= 256 * s) by (nonlinear_arith)
        requires
            r2 * s <= radius * radius < (r2 + 1) * s,
            0 <= radius * radius <= 256 * (s * s),
            s == 0x1_0000_0000,
    ;
    assert(-1640 < q < 256 * s + 1640) by (nonlinear_arith)
        requires
            k * k - 1640 * s < q * s < k * k + 1640 * s,
            0 <= k * k <= 256 * (s * s),
            s == 0x1_0000_0000,
    ;
    assert(-3400 * s < h * h - k * k < 3400 * s) by (nonlinear_arith)
        requires
            -103 <= h - k <= 103,
            0 <= k <= 16 * s,
            s == 0x1_0000_0000,
    ;
    assert(a * c == s * c + (a - s) * c) by (nonlinear_arith);
    assert(-2400 * s <= (a - s) * c <= 2400 * s) by (nonlinear_arith)
        requires
            -9 <= a - s <= 9,
            -257 * s <= c <= 257 * s,
            s > 0,
    ;
    let disc = h2 - ac;
    assert(s * c == q * s - r2 * s) by (nonlinear_arith)
        requires
            c == q - r2,
    ;
    assert((disc - r2) * s == h2 * s - ac * s - r2 * s) by (nonlinear_arith)
        requires
            disc == h2 - ac,
    ;
    assert(-7500 * s <= (disc - r2) * s <= 7500 * s);
    assert(-7500 <= disc - r2 <= 7500) by (nonlinear_arith)
        requires
            -7500 * s <= (disc - r2) * s <= 7500 * s,
            s > 0,
    ;
    assert(0 <= h * h <= 290 * (s * s)) by (nonlinear_arith)
        requires
            -103 <= h - k <= 103,
            0 <= k <= 16 * s,
            s == 0x1_0000_0000,
    ;
    assert(0 <= h2 <= 300 * s) by (nonlinear_arith)
        requires
            h2 * s <= h * h < (h2 + 1) * s,
            0 <= h * h <= 290 * (s * s),
            s == 0x1_0000_0000,
    ;
}

/// The root of a discriminant that is the square of the radius up to 7500
/// steps is the radius, up to 15100 steps, where the radius is one quarter
/// or more.
proof fn lemma_through_root(disc: int, radius: int, r2: int, root: int)
    requires
        scale() / 4 <= radius <= 16 * scale(),
        r2 * scale() <= radius * radius < (r2 + 1) * scale(),
        -7500 <= disc - r2 <= 7500,
        0 <= root,
        root * root <= disc * scale() < (root + 1) * (root + 1),
    ensures
        -15100 <= root - radius <= 15100,
{
    let s = scale();
    let n = disc * s;
    assert(radius * radius - 7501 * s < n < radius * radius + 7501 * s) by (nonlinear_arith)
        requires
            n == disc * s,
            r2 * s <= radius * radius < (r2 + 1) * s,
            -7500 <= disc - r2 <= 7500,
            s == 0x1_0000_0000,
    ;
    if root > radius + 15100 {
        assert(root * root >= radius * radius + 7501 * s) by (nonlinear_arith)
            requires
                root >= radius + 15100,
                radius >= 0x4000_0000,
                s == 0x1_0000_0000,
        ;
    }
    if root < radius - 15100 {
        assert((root + 1) * (root + 1) <= radius * radius - 7501 * s) by (nonlinear_arith)
            requires
                0 <= root + 1 <= radius - 15100,
                radius >= 0x4000_0000,
                s == 0x1_0000_0000,
        ;
    }
}

/// A quotient by a squared length of one, up to nine steps, is the dividend
/// up to 310 steps, where the dividend is 33 or less in size.
proof fn lemma_through_quotient(x: int, a: int, t: int)
    requires
        scale() - 9 <= a <= scale() + 9,
        -33 * scale() <= x <= 33 * scale(),
        -a < t * a - x * scale() < a,
    ensures
        -310 <= t - x <= 310,
{
    let s = scale();
    assert(-34 * s <= t <= 34 * s) by (nonlinear_arith)
        requires
            -a < t * a - x * s < a,
            s - 9 <= a <= s + 9,
            -33 * s <= x <= 33 * s,
            s == 0x1_0000_0000,
    ;
    assert(t * a == t * s + t * (a - s)) by (nonlinear_arith);
    assert(-306 * s <= t * (a - s) <= 306 * s) by (nonlinear_arith)
        requires
            -34 * s <= t <= 34 * s,
            -9 <= a - s <= 9,
            s > 0,
    ;
    assert(-310 * s < (t - x) * s < 310 * s) by (nonlinear_arith)
        requires
            -a < t * a - x * s < a,
            t * a == t * s + t * (a - s),
            -306 * s <= t * (a - s) <= 306 * s,
            s - 9 <= a <= s + 9,
            s == 0x1_0000_0000,
    ;
    assert(-310 < t - x < 310) by (nonlinear_arith)
        requires
            -310 * s < (t - x) * s < 310 * s,
            s > 0,
    ;
}

/// The centre lies on the line at the parameter `distance`, up to one step
/// in each coordinate: the offset of the centre from the origin is
/// `distance` times the direction.
pub open spec fn passes_through(r: Line, center: V3, distance: int) -> bool {
    let oc = v3_sub(center, r.origin);
    &&& magnitude(oc.x * scale() - distance * r.direction.x) <= scale()
    &&& magnitude(oc.y * scale() - distance * r.direction.y) <= scale()
    &&& magnitude(oc.z * scale() - distance * r.direction.z) <= scale()
}

/// How far the parameters of the hits of a unit ray through the centre may
/// lie from the distance less and plus the radius, in steps: below 4e-6.
pub const THROUGH_SLACK: i64 = 16384;

/// A ray with a unit direction that passes through the centre of a sphere at
/// a distance of 16 or less meets the sphere, and its two roots are the
/// distance less the radius and the distance plus the radius, up to
/// `THROUGH_SLACK` steps, where the radius is from one quarter to 16.
pub proof fn lemma_sphere_through_centre(center: V3, radius: int, r: Line, distance: int)
    requires
        v3_is_unit(r.direction),
        passes_through(r, center, distance),
        0 <= distance <= 16 * scale(),
        scale() / 4 <= radius <= 16 * scale(),
    ensures
        sphere_met(center, radius, r),
        -THROUGH_SLACK <= sphere_near_root(center, radius, r) - (distance - radius)
            <= THROUGH_SLACK,
        -THROUGH_SLACK <= sphere_far_root(center, radius, r) - (distance + radius)
            <= THROUGH_SLACK,
{
    let s = scale();
    let d = r.direction;
    let e = v3_sub(center, r.origin);
    lemma_unit_is_scaled(d);
    assert(v3_scaled(d) == d);
    let a = v3_length_squared(d);
    lemma_through_offset(d.x, e.x, distance);
    lemma_through_offset(d.y, e.y, distance);
    lemma_through_offset(d.z, e.z, distance);
    lemma_through_product(d.x, e.x);
    lemma_through_product(d.y, e.y);
    lemma_through_product(d.z, e.z);
    let h = v3_dot(d, e);
    assert(h == fx_mul(d.x, e.x) + fx_mul(d.y, e.y) + fx_mul(d.z, e.z));
    lemma_through_dot(
        d.x,
        d.y,
        d.z,
        e.x,
        e.y,
        e.z,
        distance,
        fx_mul(d.x, e.x),
        fx_mul(d.y, e.y),
        fx_mul(d.z, e.z),
    );
    lemma_through_product(e.x, e.x);
    lemma_through_product(e.y, e.y);
    lemma_through_product(e.z, e.z);
    lemma_square_floor(e.x);
    lemma_square_floor(e.y);
    lemma_square_floor(e.z);
    let q = v3_length_squared(e);
    assert(q == fx_mul(e.x, e.x) + fx_mul(e.y, e.y) + fx_mul(e.z, e.z));
    lemma_through_square(
        d.x,
        d.y,
        d.z,
        e.x,
        e.y,
        e.z,
        distance,
        fx_mul(e.x, e.x),
        fx_mul(e.y, e.y),
        fx_mul(e.z, e.z),
    );
    lemma_square_floor(radius);
    let r2 = fx_mul(radius, radius);
    lemma_square_floor(h);
    let h2 = fx_mul(h, h);
    assert(-1640 < q < 256 * s + 1640) by (nonlinear_arith)
        requires
            distance * distance - 1640 * s < q * s < distance * distance + 1640 * s,
            0 <= distance <= 16 * s,
            s == 0x1_0000_0000,
    ;
    assert(0 <= r2 <= 256 * s) by (nonlinear_arith)
        requires
            r2 * s <= radius * radius < (r2 + 1) * s,
            0 <= radius <= 16 * s,
            s == 0x1_0000_0000,
    ;
    let c = fx_sub(q, r2);
    lemma_mul_error(a, c);
    let ac = fx_mul(a, c);
    lemma_through_discriminant(h, q, distance, a, radius, r2, h2, ac);
    let disc = sphere_discriminant(center, radius, r);
    assert(disc == h2 - ac);
    assert(r2 >= 0x1000_0000) by (nonlinear_arith)
        requires
            r2 * s <= radius * radius < (r2 + 1) * s,
            radius >= 0x4000_0000,
            s == 0x1_0000_0000,
    ;
    lemma_isqrt_exists(disc * s);
    let root = fx_sqrt(disc);
    lemma_through_root(disc, radius, r2, root);
    lemma_div_error(fx_sub(h, root), a);
    lemma_div_error(fx_add(h, root), a);
    lemma_through_quotient(h - root, a, fx_div(fx_sub(h, root), a));
    lemma_through_quotient(h + root, a, fx_div(fx_add(h, root), a));
    lemma_times_one(fx_div(fx_sub(h, root), a));
    lemma_times_one(fx_div(fx_add(h, root), a));
    lemma_quot_one(fx_div(fx_sub(h, root), a));
    lemma_quot_one(fx_div(fx_add(h, root), a));
}

/// How far the normal of a hit of a unit ray through the centre may lie from
/// the direction reversed, in steps for each component: below 2e-5.
pub const NORMAL_SLACK: i64 = 65600;

/// Each component of `a` is the component of `b` up to `k` steps.
pub open spec fn v3_close(a: V3, b: V3, k: int) -> bool {
    &&& -k <= a.x - b.x <= k
    &&& -k <= a.y - b.y <= k
    &&& -k <= a.z - b.z <= k
}

/// A unit ray through the centre enters the sphere at its nearer hit and
/// leaves it at the further one, and the normal of either hit is the
/// direction reversed, up to `NORMAL_SLACK` steps for each component.
pub proof fn lemma_sphere_through_centre_record(
    center: V3,
    radius: int,
    mat: Material,
    r: Line,
    distance: int,
    min: int,
    max: int,
)
    requires
        v3_is_unit(r.direction),
        passes_through(r, center, distance),
        0 <= distance <= 16 * scale(),
        scale() / 4 <= radius <= 16 * scale(),
        plain(center.x) && plain(center.y) && plain(center.z),
        plain(r.origin.x) && plain(r.origin.y) && plain(r.origin.z),
    ensures
        sphere_hit(center, radius, mat, r, min, max) matches Some(h) ==> {
            &&& v3_close(h.normal, v3_neg(r.direction), NORMAL_SLACK as int)
            &&& h.front_face <==> h.t == sphere_near_root(center, radius, r)
            &&& !h.front_face <==> h.t == sphere_far_root(center, radius, r)
        },
{
    lemma_sphere_through_centre(center, radius, r, distance);
    let d = r.direction;
    let e = v3_sub(center, r.origin);
    lemma_through_offset(d.x, e.x, distance);
    lemma_through_offset(d.y, e.y, distance);
    lemma_through_offset(d.z, e.z, distance);
    let near = sphere_near_root(center, radius, r);
    let far = sphere_far_root(center, radius, r);
    match sphere_root(center, radius, r, min, max) {
        Some(t) => {
            let sign: int = if t == near {
                -1
            } else {
                1
            };
            let p = line_at(r, t);
            let w = v3_sub(p, center);
            let o = v3_div(w, radius);
            lemma_mul_error(t, d.x);
            lemma_mul_error(t, d.y);
            lemma_mul_error(t, d.z);
            lemma_through_size(t, d.x);
            lemma_through_size(t, d.y);
            lemma_through_size(t, d.z);
            lemma_through_normal(d.x, e.x, distance, t, radius, sign, w.x, o.x);
            lemma_through_normal(d.y, e.y, distance, t, radius, sign, w.y, o.y);
            lemma_through_normal(d.z, e.z, distance, t, radius, sign, w.z, o.z);
            lemma_through_facing(d, o, sign);
            if sign == 1 {
                lemma_dot_neg(d, o);
            }
        },
        None => {},
    }
}

/// A parameter of 33 or less times a component of one or less is 34 or less
/// in size.
proof fn lemma_through_size(t: int, d: int)
    requires
        -33 * scale() <= t <= 33 * scale(),
        -scale() <= d <= scale(),
    ensures
        -34 * scale() <= fx_mul(t, d) <= 34 * scale(),
{
    let s = scale();
    lemma_mul_error(t, d);
    assert(-33 * (s * s) <= t * d <= 33 * (s * s)) by (nonlinear_arith)
        requires
            -33 * s <= t <= 33 * s,
            -s <= d <= s,
            s > 0,
    ;
    let m = fx_mul(t, d);
    assert(-34 * s <= m <= 34 * s) by (nonlinear_arith)
        requires
            -s < m * s - t * d < s,
            -33 * (s * s) <= t * d <= 33 * (s * s),
            s == 0x1_0000_0000,
    ;
}

/// One component of the outward normal at a hit of a unit ray through the
/// centre: it is the component of the direction, reversed at the nearer hit,
/// up to `NORMAL_SLACK` steps.
proof fn lemma_through_normal(
    d: int,
    e: int,
    k: int,
    t: int,
    radius: int,
    sign: int,
    w: int,
    o: int,
)
    requires
        -scale() <= d <= scale(),
        -scale() <= e * scale() - k * d <= scale(),
        0 <= k <= 16 * scale(),
        scale() / 4 <= radius <= 16 * scale(),
        sign == 1 || sign == -1,
        -THROUGH_SLACK <= t - (k + sign * radius) <= THROUGH_SLACK,
        -scale() < fx_mul(t, d) * scale() - t * d < scale(),
        w == fx_mul(t, d) - e,
        o == fx_div(w, radius),
        -0x8000_0000_0000 <= w <= 0x8000_0000_0000,
    ensures
        -NORMAL_SLACK <= o - sign * d <= NORMAL_SLACK,
{
    let s = scale();
    let m = fx_mul(t, d);
    let delta = t - (k + sign * radius);
    lemma_div_error(w, radius);
    assert(t * d == k * d + (sign * radius) * d + delta * d) by (nonlinear_arith)
        requires
            delta == t - (k + sign * radius),
    ;
    assert(-16384 * s <= delta * d <= 16384 * s) by (nonlinear_arith)
        requires
            -16384 <= delta <= 16384,
            -s <= d <= s,
            s > 0,
    ;
    assert(w * s == m * s - e * s) by (nonlinear_arith)
        requires
            w == m - e,
    ;
    let rd = (sign * radius) * d;
    assert(-16386 * s <= w * s - rd <= 16386 * s);
    assert(rd == (sign * d) * radius) by (nonlinear_arith)
        requires
            rd == (sign * radius) * d,
    ;
    let x = o - sign * d;
    assert(x * radius == o * radius - (sign * d) * radius) by (nonlinear_arith)
        requires
            x == o - sign * d,
    ;
    assert(-16386 * s - radius <= x * radius <= 16386 * s + radius);
    assert(-65600 <= x <= 65600) by (nonlinear_arith)
        requires
            -16386 * s - radius <= x * radius <= 16386 * s + radius,
            radius >= 0x4000_0000,
            s == 0x1_0000_0000,
    ;
}

/// A vector that is a unit direction up to `NORMAL_SLACK` steps has a
/// positive dot product with the direction, and the reversed one a negative.
proof fn lemma_through_facing(d: V3, o: V3, sign: int)
    requires
        v3_is_unit(d),
        sign == 1 || sign == -1,
        -NORMAL_SLACK <= o.x - sign * d.x <= NORMAL_SLACK,
        -NORMAL_SLACK <= o.y - sign * d.y <= NORMAL_SLACK,
        -NORMAL_SLACK <= o.z - sign * d.z <= NORMAL_SLACK,
    ensures
        sign == 1 ==> v3_dot(d, o) > 0,
        sign == -1 ==> v3_dot(d, o) < 0,
{
    let s = scale();
    lemma_facing_term(d.x, o.x, sign);
    lemma_facing_term(d.y, o.y, sign);
    lemma_facing_term(d.z, o.z, sign);
    let t = v3_dot(d, o);
    let a = v3_sum_squares(d);
    assert(t == fx_mul(d.x, o.x) + fx_mul(d.y, o.y) + fx_mul(d.z, o.z));
    assert(t * s == fx_mul(d.x, o.x) * s + fx_mul(d.y, o.y) * s + fx_mul(d.z, o.z) * s)
        by (nonlinear_arith)
        requires
            t == fx_mul(d.x, o.x) + fx_mul(d.y, o.y) + fx_mul(d.z, o.z),
    ;
    assert(3 * (NORMAL_SLACK + 1) * s + 6 * s + 3 < s * s) by (nonlinear_arith)
        requires
            s == 0x1_0000_0000,
    ;
    assert(sign == 1 ==> t * s > 0);
    assert(sign == -1 ==> t * s < 0);
    assert(t * s > 0 ==> t > 0) by (nonlinear_arith)
        requires
            s > 0,
    ;
    assert(t * s < 0 ==> t < 0) by (nonlinear_arith)
        requires
            s > 0,
    ;
}

/// One term of the dot product of a direction with a vector that is the
/// direction, reversed or not, up to `NORMAL_SLACK` steps: the square of the
/// component with that sign, up to `NORMAL_SLACK` and one steps.
proof fn lemma_facing_term(d: int, o: int, sign: int)
    requires
        -scale() <= d <= scale(),
        sign == 1 || sign == -1,
        -NORMAL_SLACK <= o - sign * d <= NORMAL_SLACK,
    ensures
        -(NORMAL_SLACK + 1) * scale() < fx_mul(d, o) * scale() - sign * (d * d) < (NORMAL_SLACK
            + 1) * scale(),
        -2 * scale() <= fx_mul(d, o) <= 2 * scale(),
{
    let s = scale();
    assert(-s <= sign * d <= s) by (nonlinear_arith)
        requires
            -s <= d <= s,
            sign == 1 || sign == -1,
    ;
    lemma_mul_error(d, o);
    let x = o - sign * d;
    assert(d * o == sign * (d * d) + d * x) by (nonlinear_arith)
        requires
            x == o - sign * d,
    ;
    assert(-NORMAL_SLACK * s <= d * x <= NORMAL_SLACK * s) by (nonlinear_arith)
        requires
            -s <= d <= s,
            -NORMAL_SLACK <= x <= NORMAL_SLACK,
            s > 0,
    ;
    assert(0 <= d * d <= s * s) by (nonlinear_arith)
        requires
            -s <= d <= s,
    ;
    let m = fx_mul(d, o);
    assert(-2 * s <= m <= 2 * s) by (nonlinear_arith)
        requires
            -s < m * s - d * o < s,
            d * o == sign * (d * d) + d * x,
            -NORMAL_SLACK * s <= d * x <= NORMAL_SLACK * s,
            0 <= d * d <= s * s,
            sign == 1 || sign == -1,
            s == 0x1_0000_0000,
    ;
}

/// A unit vector has a component of one half or more, so it is its own
/// scaled vector.
proof fn lemma_unit_is_scaled(d: V3)
    requires
        v3_is_unit(d),
    ensures
        v3_factor(d) == 1,
        v3_divisor(d) == 1,
        v3_scaled(d) == d,
{
    let s = scale();
    let m = v3_max_size(d);
    if m < 0x8000_0000 {
        assert(d.x * d.x + d.y * d.y + d.z * d.z <= 3 * (0x8000_0000 * 0x8000_0000))
            by (nonlinear_arith)
            requires
                -0x8000_0000 < d.x < 0x8000_0000,
                -0x8000_0000 < d.y < 0x8000_0000,
                -0x8000_0000 < d.z < 0x8000_0000,
        ;
    }
    lemma_scaled(d);
}

/// A unit vector along an axis is its own scaled vector.
proof fn lemma_axis_is_scaled(d: V3)
    requires
        is_axis(d),
    ensures
        v3_factor(d) == 1,
        v3_divisor(d) == 1,
        v3_scaled(d) == d,
{
    lemma_scaled(d);
}

/// A product of two numbers of 17 or less in size is the true product over
/// 2^32, less than a step toward zero, and 290 or less in size.
proof fn lemma_through_product(a: int, b: int)
    requires
        -17 * scale() <= a <= 17 * scale(),
        -17 * scale() <= b <= 17 * scale(),
    ensures
        -scale() < fx_mul(a, b) * scale() - a * b < scale(),
        -290 * scale() <= fx_mul(a, b) <= 290 * scale(),
{
    let s = scale();
    lemma_mul_error(a, b);
    assert(-289 * (s * s) <= a * b <= 289 * (s * s)) by (nonlinear_arith)
        requires
            -17 * s <= a <= 17 * s,
            -17 * s <= b <= 17 * s,
            s > 0,
    ;
    let m = fx_mul(a, b);
    assert(-290 * s <= m <= 290 * s) by (nonlinear_arith)
        requires
            -s < m * s - a * b < s,
            -289 * (s * s) <= a * b <= 289 * (s * s),
            s == 0x1_0000_0000,
    ;
}

/// An offset that is `k` times a component of one or less, up to a step, is
/// 17 or less in size.
proof fn lemma_through_offset(d: int, e: int, k: int)
    requires
        -scale() <= d <= scale(),
        magnitude(e * scale() - k * d) <= scale(),
        0 <= k <= 16 * scale(),
    ensures
        -17 * scale() <= e <= 17 * scale(),
        -scale() <= e * scale() - k * d <= scale(),
{
    let s = scale();
    assert(-16 * (s * s) <= k * d <= 16 * (s * s)) by (nonlinear_arith)
        requires
            -s <= d <= s,
            0 <= k <= 16 * s,
    ;
    assert(-17 * s <= e <= 17 * s) by (nonlinear_arith)
        requires
            -s <= e * s - k * d <= s,
            -16 * (s * s) <= k * d <= 16 * (s * s),
            s == 0x1_0000_0000,
    ;
}

/// A sphere with its material.
#[derive(Clone, Copy, Debug, PartialEq, Eq)]
pub struct Sphere {
    center: Point3,
    radius: Scalar,
    mat: Material,
}

impl Sphere {
    /// The radius is not negative.
    #[verifier::type_invariant]
    pub closed spec fn wf(self) -> bool {
        self.radius@ >= 0
    }

    /// The centre.
    pub closed spec fn center(self) -> V3 {
        self.center@
    }

    /// The radius, which is not negative.
    pub closed spec fn radius(self) -> int {
        self.radius@
    }

    /// The material of the surface.
    pub closed spec fn material(self) -> Material {
        self.mat
    }

    /// A sphere about `center`; a negative `radius` counts as zero.
    pub fn new(center: Point3, radius: Scalar, mat: Material) -> (r: Sphere)
        ensures
            r.center() == center@,
            r.radius() == fx_max(radius@, 0),
            r.material() == mat,
    {
        Sphere { center, radius: radius.max(Scalar::zero()), mat }
    }
}

impl Hittable for Sphere {
    open spec fn hit_result(&self, r: Line, min: int, max: int) -> Option<Hit> {
        sphere_hit(self.center(), self.radius(), self.material(), r, min, max)
    }

    fn hit(&self, r: &Ray, interval: &Interval) -> (res: Option<HitRecord>) {
        proof {
            lemma_sphere_nearest(
                self.center(),
                self.radius(),
                self.material(),
                r@,
                interval.min@,
                interval.max@,
                interval.max@,
            );
        }
        let (d, f, g) = r.direction().scaled();
        let oc = self.center - r.origin();

        let a = d.length_squared();
        let h = d.dot(&oc);
        let c = oc.length_squared() - self.radius * self.radius;

        let discriminant = h * h - a * c;
        if a.raw() == 0 || self.radius.raw() == 0 || discriminant.lt(&Scalar::zero()) {
            return None;
        }
        let sqrt_d = discriminant.sqrt();
        let mut root = Vector3::rescaled((h - sqrt_d) / a, f, g);
        if !interval.surrounds(root) {
            root = Vector3::rescaled((h + sqrt_d) / a, f, g);
            if !interval.surrounds(root) {
                return None;
            }
        }
        let t = root;
        let p = r.at(t);
        let outward_normal = (p - self.center) / self.radius;

        let mut rec = HitRecord { p, normal: outward_normal, t, front_face: false, mat: self.mat };
        rec.set_face_normal(r, &outward_normal);

        Some(rec)
    }

    proof fn lemma_nearest(&self, r: Line, min: int, max: int, cut: int) {
        lemma_sphere_nearest(self.center(), self.radius(), self.material(), r, min, max, cut);
    }
}

} // verus!
