//! The camera: where the primary rays go, what colour a ray brings back, and
//! the text of the rendered image.
//!
//! A render draws random numbers, so its contracts are relations: `may_shade`,
//! `may_sample`, `may_pixel`, `may_row` and `may_render` say which results the
//! draws can lead to.
use crate::hit::Hittable;
use crate::interval::Interval;
use crate::material::white;
use crate::ppm::channel_level;
use crate::ppm::header_text;
use crate::ppm::lemma_channel_level_ends;
use crate::ppm::lemma_channel_level_monotonic;
use crate::ppm::lemma_channel_level_of_sky;
use crate::ppm::levels_text;
use crate::ppm::ppm_header;
use crate::ray::Line;
use crate::ray::Ray;
use crate::scalar::fx_add;
use crate::scalar::fx_div;
use crate::scalar::fx_mul;
use crate::scalar::fx_round;
use crate::scalar::fx_sub;
use crate::scalar::lemma_div_value;
use crate::scalar::lemma_mul_one;
use crate::scalar::lemma_mul_value;
use crate::scalar::lemma_mul_zero;
use crate::scalar::lemma_zero_div;
use crate::scalar::limit;
use crate::scalar::magnitude;
use crate::scalar::sat;
use crate::scalar::scale;
use crate::scalar::Scalar;
use crate::vec3::v3_add;
use crate::vec3::v3_div;
use crate::vec3::lemma_unit_vector;
use crate::vec3::v3_hadamard;
use crate::vec3::v3_in_box;
use crate::vec3::v3_in_range;
use crate::vec3::v3_is_zero;
use crate::vec3::v3_scale_left;
use crate::vec3::v3_sub;
use crate::vec3::v3_unit;
use crate::vec3::Color;
use crate::vec3::Point3;
use crate::vec3::Vector3;
use crate::vec3::Wrapper;
use crate::vec3::V3;
use core::ops::AddAssign;
use core::ops::Neg;
use vstd::prelude::*;

verus! {

/// Numerator of 0.001: a hit counts from here on, so that a ray does not hit
/// the surface that it starts from.
pub const T_MIN_RAW: i64 = 4294967;

/// Numerator of 16 over 9, the default aspect ratio.
pub const ASPECT_RAW: i64 = 7635497415;

/// Numerator of one half.
pub const HALF_RAW: i64 = 0x8000_0000;

/// Numerator of 0.7, the green of the sky.
pub const SKY_GREEN_RAW: i64 = 3006477107;

/// The numerator of the whole number `n`.
pub open spec fn int_scalar(n: int) -> int {
    sat(n * scale())
}

/// No light.
pub open spec fn black() -> V3 {
    V3 { x: 0, y: 0, z: 0 }
}

/// The blue of the sky: 0.5, 0.7, 1.
pub open spec fn sky() -> V3 {
    V3 { x: HALF_RAW as int, y: SKY_GREEN_RAW as int, z: scale() }
}

/// The weight of white in the background along `direction`: half of one
/// plus the height of the unit direction, so one straight up and zero
/// straight down.
pub open spec fn white_share(direction: V3) -> int {
    fx_mul(HALF_RAW as int, fx_add(v3_unit(direction).y, scale()))
}

/// The colour behind the scene along `direction`: a blend of white and the
/// blue of the sky, `a white + (1 - a) sky` with `a` the share of white:
/// white straight up, the blue of the sky straight down. Black for the
/// direction zero.
pub open spec fn background(direction: V3) -> V3 {
    if v3_is_zero(direction) {
        black()
    } else {
        let a = white_share(direction);
        v3_add(v3_scale_left(a, white()), v3_scale_left(fx_sub(scale(), a), sky()))
    }
}

/// The background lies between the blue of the sky and white: for every
/// direction but zero, red is one half or more, green is no less than red
/// and than the green of the sky, and blue is one.
pub proof fn lemma_background_range(direction: V3)
    requires
        v3_in_range(direction),
        !v3_is_zero(direction),
    ensures
        ({
            let c = background(direction);
            &&& 0 <= white_share(direction) <= scale()
            &&& HALF_RAW <= c.x <= c.y <= c.z
            &&& SKY_GREEN_RAW <= c.y
            &&& c.z == scale()
        }),
{
    lemma_unit_vector(direction);
    let y = v3_unit(direction).y;
    let a = white_share(direction);
    lemma_mul_value(HALF_RAW as int, y + scale(), (y + scale()) / 2);
    let b = scale() - a;
    lemma_mul_one(a);
    lemma_mul_one(b);
    lemma_mul_value(b, HALF_RAW as int, b / 2);
    lemma_mul_value(b, SKY_GREEN_RAW as int, (b * SKY_GREEN_RAW) / scale());
}

/// The levels of the background lie between those of the blue of the sky
/// and those of white: red is 181 or more, green is 214 or more and no less
/// than red, and blue is 255.
pub proof fn lemma_background_levels(direction: V3)
    requires
        v3_in_range(direction),
        !v3_is_zero(direction),
    ensures
        ({
            let c = background(direction);
            &&& 181 <= channel_level(c.x) <= channel_level(c.y) <= channel_level(c.z)
            &&& 214 <= channel_level(c.y)
            &&& channel_level(c.z) == 255
        }),
{
    lemma_background_range(direction);
    let c = background(direction);
    lemma_channel_level_of_sky();
    lemma_channel_level_ends();
    lemma_channel_level_monotonic(HALF_RAW as int, c.x);
    lemma_channel_level_monotonic(c.x, c.y);
    lemma_channel_level_monotonic(SKY_GREEN_RAW as int, c.y);
    lemma_channel_level_monotonic(c.y, c.z);
}

/// `c` is a colour that the ray `r` can bring back from `world` within
/// `depth` bounces: black at depth zero; the background where nothing is hit
/// from `T_MIN_RAW` on; black where the material at the hit absorbs the ray;
/// and else the attenuation times a colour that the scattered ray can bring
/// back within one bounce less.
pub open spec fn may_shade<H: Hittable>(world: H, r: Line, depth: nat, c: V3) -> bool
    decreases depth,
{
    if depth == 0 {
        c == black()
    } else {
        match world.hit_result(r, T_MIN_RAW as int, limit()) {
            None => c == background(r.direction),
            Some(h) => {
                ||| (h.mat.may_scatter(r, h, None) && c == black())
                ||| exists|attenuation: V3, scattered: Line, bounce: V3|
                    {
                        &&& #[trigger] h.mat.may_scatter(r, h, Some((attenuation, scattered)))
                        &&& may_shade(world, scattered, (depth - 1) as nat, bounce)
                        &&& c == #[trigger] v3_hadamard(attenuation, bounce)
                    }
            },
        }
    }
}

/// With a single bounce, a ray that is scattered brings back no light, for
/// the scattered ray has no bounce left: the colour is the background where
/// the ray hits nothing, and black else.
pub proof fn lemma_single_bounce<H: Hittable>(world: H, r: Line, c: V3)
    requires
        may_shade(world, r, 1, c),
    ensures
        c == (if world.hit_result(r, T_MIN_RAW as int, limit()) is None {
            background(r.direction)
        } else {
            black()
        }),
{
    reveal_with_fuel(may_shade, 2);
}

/// The mathematical content of a camera.
pub struct CameraView {
    pub aspect_ratio: int,
    pub image_width: int,
    pub image_height: int,
    pub center: V3,
    pub pixel00_loc: V3,
    pub pixel_delta_u: V3,
    pub pixel_delta_v: V3,
    pub samples_per_pixel: int,
    pub max_depth: nat,
}

/// The height of an image of the given width and aspect ratio: the nearest
/// whole number to their quotient, at least one.
pub open spec fn image_height_for(width: int, aspect: int) -> int {
    let h = fx_round(fx_div(int_scalar(width), aspect));
    if h < 1 {
        1
    } else if h > i32::MAX {
        i32::MAX as int
    } else {
        h
    }
}

/// The camera at the origin that looks down the negative z axis onto a
/// viewport of height two at distance one.
pub open spec fn camera_for(aspect: int, width: int, samples: int, depth: nat) -> CameraView {
    let height = image_height_for(width, aspect);
    let center = black();
    let viewport_height = 2 * scale();
    let viewport_width = fx_mul(viewport_height, fx_div(int_scalar(width), int_scalar(height)));
    let viewport_u = V3 { x: viewport_width, y: 0, z: 0 };
    let viewport_v = V3 { x: 0, y: -viewport_height, z: 0 };
    let pixel_delta_u = v3_div(viewport_u, int_scalar(width));
    let pixel_delta_v = v3_div(viewport_v, int_scalar(height));
    let upper_left = v3_sub(
        v3_sub(v3_sub(center, V3 { x: 0, y: 0, z: scale() }), v3_div(viewport_u, 2 * scale())),
        v3_div(viewport_v, 2 * scale()),
    );
    CameraView {
        aspect_ratio: aspect,
        image_width: width,
        image_height: height,
        center,
        pixel00_loc: v3_add(
            upper_left,
            v3_scale_left(HALF_RAW as int, v3_add(pixel_delta_u, pixel_delta_v)),
        ),
        pixel_delta_u,
        pixel_delta_v,
        samples_per_pixel: samples,
        max_depth: depth,
    }
}

/// An offset within a pixel: at most one half to either side, across and
/// down.
pub open spec fn square_offset(o: V3) -> bool {
    &&& -HALF_RAW <= o.x <= HALF_RAW
    &&& -HALF_RAW <= o.y <= HALF_RAW
    &&& o.z == 0
}

/// The ray from the camera through pixel `i` of row `j`, moved by `offset`
/// within the pixel.
pub open spec fn primary_ray(cam: CameraView, i: int, j: int, offset: V3) -> Line {
    let pixel_sample = v3_add(
        v3_add(
            cam.pixel00_loc,
            v3_scale_left(fx_add(int_scalar(i), offset.x), cam.pixel_delta_u),
        ),
        v3_scale_left(fx_add(int_scalar(j), offset.y), cam.pixel_delta_v),
    );
    Line { origin: cam.center, direction: v3_sub(pixel_sample, cam.center) }
}

/// The camera looks down the negative z axis from the origin with the
/// viewport at distance one: every primary ray starts at the origin and
/// advances by exactly one against z, so none is without direction.
pub proof fn lemma_primary_ray_looks_down(
    aspect: int,
    width: int,
    samples: int,
    depth: nat,
    i: int,
    j: int,
    offset: V3,
)
    requires
        width != 0,
        offset.z == 0,
    ensures
        ({
            let ray = primary_ray(camera_for(aspect, width, samples, depth), i, j, offset);
            &&& ray.origin == black()
            &&& ray.direction.z == -scale()
            &&& !v3_is_zero(ray.direction)
        }),
{
    let cam = camera_for(aspect, width, samples, depth);
    let ray = primary_ray(cam, i, j, offset);
    let d = ray.direction;
    lemma_mul_value(HALF_RAW as int, 0, 0);
    lemma_zero_div(int_scalar(width));
    lemma_zero_div(int_scalar(cam.image_height));
    lemma_zero_div(2 * scale());
    lemma_mul_zero(fx_add(int_scalar(i), offset.x));
    lemma_mul_zero(fx_add(int_scalar(j), offset.y));
}

/// `c` is a colour that one sample of the pixel can bring back.
pub open spec fn may_sample<H: Hittable>(cam: CameraView, world: H, i: int, j: int, c: V3) -> bool {
    exists|offset: V3|
        square_offset(offset) && #[trigger] may_shade(
            world,
            primary_ray(cam, i, j, offset),
            cam.max_depth,
            c,
        )
}

/// The sum of the colours, taken in their order.
pub open spec fn color_sum(colors: Seq<V3>) -> V3
    decreases colors.len(),
{
    if colors.len() == 0 {
        black()
    } else {
        v3_add(color_sum(colors.drop_last()), colors.last())
    }
}

/// How many times a loop from zero up to `n` runs.
pub open spec fn count(n: int) -> nat {
    if n > 0 {
        n as nat
    } else {
        0
    }
}

/// `c` is a colour that the pixel can get: the sum of as many samples as the
/// camera takes, over their number.
pub open spec fn may_pixel<H: Hittable>(cam: CameraView, world: H, i: int, j: int, c: V3) -> bool {
    exists|colors: Seq<V3>|
        {
            &&& colors.len() == count(cam.samples_per_pixel)
            &&& forall|k: int|
                0 <= k < colors.len() ==> may_sample(cam, world, i, j, #[trigger] colors[k])
            &&& c == v3_div(#[trigger] color_sum(colors), int_scalar(cam.samples_per_pixel))
        }
}

/// The sum of `n` colours that are all `c` is `n` times `c`.
proof fn lemma_sum_of_equal(colors: Seq<V3>, c: V3)
    requires
        colors.len() <= 0x10_0000,
        forall|k: int| 0 <= k < colors.len() ==> colors[k] == c,
        v3_in_box(c, -0x100 * scale(), 0x100 * scale()),
    ensures
        color_sum(colors) == (V3 {
            x: colors.len() * c.x,
            y: colors.len() * c.y,
            z: colors.len() * c.z,
        }),
    decreases colors.len(),
{
    let n = colors.len() as int;
    if n > 0 {
        let init = colors.drop_last();
        lemma_sum_of_equal(init, c);
        lemma_count_times(n, c.x);
        lemma_count_times(n, c.y);
        lemma_count_times(n, c.z);
    } else {
        assert(0 * c.x == 0 && 0 * c.y == 0 && 0 * c.z == 0);
    }
}

/// `n` times a channel is one time more than `n - 1` times the channel, and
/// in range for up to 2^20 samples of a channel of 256 or less in size.
proof fn lemma_count_times(n: int, x: int)
    requires
        1 <= n <= 0x10_0000,
        -0x100 * scale() <= x <= 0x100 * scale(),
    ensures
        n * x == (n - 1) * x + x,
        -0x1000_0000 * scale() <= (n - 1) * x <= 0x1000_0000 * scale(),
        -0x1000_0000 * scale() <= n * x <= 0x1000_0000 * scale(),
{
    assert(n * x == (n - 1) * x + x) by (nonlinear_arith);
    assert(-0x1000_0000 * scale() <= n * x <= 0x1000_0000 * scale() && -0x1000_0000 * scale() <= (
    n - 1) * x <= 0x1000_0000 * scale()) by (nonlinear_arith)
        requires
            1 <= n <= 0x10_0000,
            -0x100 * scale() <= x <= 0x100 * scale(),
            scale() == 0x1_0000_0000,
    ;
}

/// The mean of samples that are all one colour is that colour, for up to
/// 2^20 samples of channels of 256 or less in size.
pub proof fn lemma_mean_of_equal_samples(colors: Seq<V3>, c: V3)
    requires
        1 <= colors.len() <= 0x10_0000,
        forall|k: int| 0 <= k < colors.len() ==> colors[k] == c,
        v3_in_box(c, -0x100 * scale(), 0x100 * scale()),
    ensures
        v3_div(color_sum(colors), int_scalar(colors.len() as int)) == c,
{
    let n = colors.len() as int;
    lemma_sum_of_equal(colors, c);
    lemma_mean_channel(n, c.x);
    lemma_mean_channel(n, c.y);
    lemma_mean_channel(n, c.z);
}

/// `n` times a channel over `n` is the channel.
proof fn lemma_mean_channel(n: int, x: int)
    requires
        1 <= n <= 0x10_0000,
        -0x100 * scale() <= x <= 0x100 * scale(),
    ensures
        fx_div(n * x, int_scalar(n)) == x,
{
    let s = scale();
    let b = n * s;
    assert(int_scalar(n) == b);
    let m = magnitude(x);
    assert(magnitude((n * x) * s) == m * b && b >= 1) by (nonlinear_arith)
        requires
            m == magnitude(x),
            b == n * s,
            n >= 1,
            s == 0x1_0000_0000,
    ;
    assert((m + 1) * b == m * b + b) by (nonlinear_arith);
    assert((n * x < 0) == (x < 0) && (n * x == 0) == (x == 0)) by (nonlinear_arith)
        requires
            n >= 1,
    ;
    lemma_div_value(n * x, b, m);
}

/// The text of a row of pixels: for each colour a line with its levels.
pub open spec fn row_text(colors: Seq<V3>) -> Seq<u8>
    decreases colors.len(),
{
    if colors.len() == 0 {
        Seq::empty()
    } else {
        let c = colors.last();
        row_text(colors.drop_last()) + levels_text(c.x, c.y, c.z) + seq![10u8]
    }
}

/// `text` is a text that row `j` of the image can get.
pub open spec fn may_row<H: Hittable>(cam: CameraView, world: H, j: int, text: Seq<u8>) -> bool {
    exists|colors: Seq<V3>|
        {
            &&& colors.len() == count(cam.image_width)
            &&& forall|i: int|
                0 <= i < colors.len() ==> may_pixel(cam, world, i, j, #[trigger] colors[i])
            &&& text == #[trigger] row_text(colors)
        }
}

/// The texts one after the other.
pub open spec fn joined(rows: Seq<Seq<u8>>) -> Seq<u8>
    decreases rows.len(),
{
    if rows.len() == 0 {
        Seq::empty()
    } else {
        joined(rows.drop_last()) + rows.last()
    }
}

/// `text` is a text that the image can get: the header, then the rows from
/// the top.
pub open spec fn may_render<H: Hittable>(cam: CameraView, world: H, text: Seq<u8>) -> bool {
    exists|rows: Seq<Seq<u8>>|
        {
            &&& rows.len() == count(cam.image_height)
            &&& forall|j: int| 0 <= j < rows.len() ==> may_row(cam, world, j, #[trigger] rows[j])
            &&& text == header_text(cam.image_width, cam.image_height) + #[trigger] joined(rows)
        }
}

/// A camera, ready to render.
pub struct Camera {
    image_height: i32,
    aspect_ratio: Scalar,
    image_width: i32,
    center: Point3,
    pixel00_loc: Point3,
    pixel_delta_u: Point3,
    pixel_delta_v: Point3,
    samples_per_pixel: i32,
    max_depth: usize,
}

impl View for Camera {
    type V = CameraView;

    closed spec fn view(&self) -> CameraView {
        CameraView {
            aspect_ratio: self.aspect_ratio@,
            image_width: self.image_width as int,
            image_height: self.image_height as int,
            center: self.center@,
            pixel00_loc: self.pixel00_loc@,
            pixel_delta_u: self.pixel_delta_u@,
            pixel_delta_v: self.pixel_delta_v@,
            samples_per_pixel: self.samples_per_pixel as int,
            max_depth: self.max_depth as nat,
        }
    }
}

/// A random offset within a pixel.
fn sample_square() -> (r: Vector3)
    ensures
        square_offset(r@),
{
    let half = Scalar::from_raw(HALF_RAW);
    let low = Scalar::from_raw(-HALF_RAW);
    let x = Scalar::random_range(low, half);
    let y = Scalar::random_range(low, half);
    Vector3::new(x, y, Scalar::zero())
}

impl Camera {
    /// The image has a pixel, and each pixel gets a sample.
    #[verifier::type_invariant]
    pub closed spec fn wf(self) -> bool {
        &&& self.image_width >= 1
        &&& self.image_height >= 1
        &&& self.samples_per_pixel >= 1
    }

    /// The number of rows of the image.
    pub fn image_height(&self) -> (r: i32)
        ensures
            r == self@.image_height,
            r >= 1,
    {
        proof {
            use_type_invariant(self);
        }
        self.image_height
    }

    /// The number of pixels in a row.
    pub fn image_width(&self) -> (r: i32)
        ensures
            r == self@.image_width,
            r >= 1,
    {
        proof {
            use_type_invariant(self);
        }
        self.image_width
    }

    /// Width over height, as the camera was asked for.
    pub fn aspect_ratio(&self) -> (r: Scalar)
        ensures
            r@ == self@.aspect_ratio,
    {
        self.aspect_ratio
    }

    /// The number of samples taken for each pixel.
    pub fn samples_per_pixel(&self) -> (r: i32)
        ensures
            r == self@.samples_per_pixel,
            r >= 1,
    {
        proof {
            use_type_invariant(self);
        }
        self.samples_per_pixel
    }

    /// The number of bounces after which a ray brings back no light.
    pub fn max_depth(&self) -> (r: usize)
        ensures
            r == self@.max_depth,
    {
        self.max_depth
    }

    /// The colour behind the scene along the ray.
    pub fn background(r: &Ray) -> (c: Color)
        ensures
            c@ == background(r@.direction),
            !v3_is_zero(r@.direction) ==> HALF_RAW <= c@.x <= c@.y <= c@.z == scale()
                && SKY_GREEN_RAW <= c@.y,
    {
        let direction = *r.direction();
        proof {
            use_type_invariant(direction);
            if !v3_is_zero(direction@) {
                lemma_background_range(direction@);
            }
        }
        if r.direction().is_zero() {
            return Color::default();
        }
        let unit_direction = r.direction().unit_vector();
        let a = Scalar::from_raw(HALF_RAW) * (*unit_direction.y() + Scalar::one());
        a * Color::new(Scalar::one(), Scalar::one(), Scalar::one()) + (Scalar::one() - a)
            * Color::new(
            Scalar::from_raw(HALF_RAW),
            Scalar::from_raw(SKY_GREEN_RAW),
            Scalar::one(),
        )
    }

    /// The colour that the ray brings back from `world` within `depth`
    /// bounces.
    pub fn ray_color<H: Hittable>(r: &Ray, world: &H, depth: usize) -> (c: Color)
        ensures
            may_shade(*world, r@, depth as nat, c@),
            depth == 0 ==> c@ == black(),
            depth > 0 && world.hit_result(r@, T_MIN_RAW as int, limit()) is None ==> c@
                == background(r@.direction),
            depth > 0 && world.hit_result(r@, T_MIN_RAW as int, limit()) is None && !v3_is_zero(
                r@.direction,
            ) ==> HALF_RAW <= c@.x <= c@.y <= c@.z == scale(),
        decreases depth,
    {
        if depth == 0 {
            return Color::default();
        }
        match world.hit(r, &Interval::new(Scalar::from_raw(T_MIN_RAW), Scalar::infinity())) {
            Some(rec) => {
                match rec.mat.scatter(r, &rec) {
                    Some((attenuation, scattered)) => {
                        let bounce = Self::ray_color(&scattered, world, depth - 1);
                        let c = attenuation * bounce;
                        assert(rec@.mat.may_scatter(
                            r@,
                            rec@,
                            Some((attenuation@, scattered@)),
                        ));
                        c
                    },
                    None => Color::default(),
                }
            },
            None => Self::background(r),
        }
    }

    /// The ray through pixel `i` of row `j`, moved by `offset` within the
    /// pixel.
    pub fn ray_through(&self, i: i32, j: i32, offset: &Vector3) -> (r: Ray)
        ensures
            r@ == primary_ray(self@, i as int, j as int, offset@),
    {
        let pixel_sample = self.pixel00_loc + (Scalar::from_int(i) + *offset.x())
            * self.pixel_delta_u + (Scalar::from_int(j) + *offset.y()) * self.pixel_delta_v;

        let ray_origin = self.center;
        let ray_direction = pixel_sample - ray_origin;

        Ray::new(ray_origin, ray_direction)
    }

    /// A ray through pixel `i` of row `j`, at a random place within the
    /// pixel.
    pub fn get_ray(&self, i: i32, j: i32) -> (r: Ray)
        ensures
            exists|offset: V3|
                square_offset(offset) && r@ == #[trigger] primary_ray(
                    self@,
                    i as int,
                    j as int,
                    offset,
                ),
    {
        let offset = sample_square();
        self.ray_through(i, j, &offset)
    }

    /// The colour of pixel `i` of row `j`: the mean of the camera's samples.
    pub fn pixel_color<H: Hittable>(&self, world: &H, i: i32, j: i32) -> (c: Color)
        ensures
            may_pixel(self@, *world, i as int, j as int, c@),
    {
        proof {
            use_type_invariant(self);
        }
        let mut pixel_color = Color::default();
        let ghost mut colors: Seq<V3> = Seq::empty();
        let mut s: i32 = 0;
        while s < self.samples_per_pixel
            invariant
                0 <= s,
                s <= count(self.samples_per_pixel as int),
                colors.len() == s,
                forall|k: int|
                    0 <= k < colors.len() ==> may_sample(
                        self@,
                        *world,
                        i as int,
                        j as int,
                        #[trigger] colors[k],
                    ),
                pixel_color@ == color_sum(colors),
            decreases self.samples_per_pixel - s,
        {
            let r = self.get_ray(i, j);
            let sample = Self::ray_color(&r, world, self.max_depth);
            proof {
                assert(colors.push(sample@).drop_last() =~= colors);
                colors = colors.push(sample@);
            }
            pixel_color.add_assign(sample);
            s = s + 1;
        }
        pixel_color / Scalar::from_int(self.samples_per_pixel)
    }

    /// The text of row `j` of the image: a line for each pixel.
    pub fn render_row<H: Hittable>(&self, world: &H, j: i32) -> (out: Vec<u8>)
        ensures
            may_row(self@, *world, j as int, out@),
    {
        let mut out: Vec<u8> = Vec::new();
        let ghost mut colors: Seq<V3> = Seq::empty();
        let mut i: i32 = 0;
        while i < self.image_width
            invariant
                0 <= i,
                i <= count(self.image_width as int),
                colors.len() == i,
                forall|k: int|
                    0 <= k < colors.len() ==> may_pixel(
                        self@,
                        *world,
                        k,
                        j as int,
                        #[trigger] colors[k],
                    ),
                out@ == row_text(colors),
            decreases self.image_width - i,
        {
            let pixel = self.pixel_color(world, i, j);
            let mut line = Wrapper::new(&pixel).text();
            proof {
                assert(colors.push(pixel@).drop_last() =~= colors);
                colors = colors.push(pixel@);
            }
            out.append(&mut line);
            out.push(10);
            i = i + 1;
        }
        out
    }

    /// The text of the image: the header, then every row from the top.
    pub fn render<H: Hittable>(&self, world: &H) -> (out: Vec<u8>)
        ensures
            may_render(self@, *world, out@),
    {
        let mut out = ppm_header(self.image_width, self.image_height);
        let ghost mut rows: Seq<Seq<u8>> = Seq::empty();
        let mut j: i32 = 0;
        while j < self.image_height
            invariant
                0 <= j,
                j <= count(self.image_height as int),
                rows.len() == j,
                forall|k: int|
                    0 <= k < rows.len() ==> may_row(self@, *world, k, #[trigger] rows[k]),
                out@ == header_text(self@.image_width, self@.image_height) + joined(rows),
            decreases self.image_height - j,
        {
            let mut row = self.render_row(world, j);
            proof {
                assert(rows.push(row@).drop_last() =~= rows);
                rows = rows.push(row@);
            }
            out.append(&mut row);
            j = j + 1;
        }
        out
    }
}

/// The parameters of a camera.
pub struct CameraBuilder {
    /// Width over height of the image.
    pub aspect_ratio: Scalar,
    /// Pixels in a row.
    pub image_width: i32,
    /// Samples taken for each pixel.
    pub samples_per_pixel: i32,
    /// Bounces after which a ray brings back no light.
    pub max_depth: usize,
}

impl Default for CameraBuilder {
    /// An image 400 pixels wide at 16 to 9, with one sample for each pixel
    /// and one bounce.
    fn default() -> (r: Self)
        ensures
            r.aspect_ratio@ == fx_div(16 * scale(), 9 * scale()),
            r.aspect_ratio@ == ASPECT_RAW,
            r.image_width == 400,
            r.samples_per_pixel == 1,
            r.max_depth == 1,
            r.buildable(),
    {
        proof {
            lemma_div_value(0x10_0000_0000, 0x9_0000_0000, ASPECT_RAW as int);
        }
        CameraBuilder {
            aspect_ratio: Scalar::from_int(16) / Scalar::from_int(9),
            image_width: 400,
            samples_per_pixel: 1,
            max_depth: 1,
        }
    }
}

impl CameraBuilder {
    /// The parameters admit a camera: the aspect ratio is not zero, the
    /// image has a pixel in each row, and each pixel gets a sample.
    pub open spec fn buildable(self) -> bool {
        &&& self.aspect_ratio@ != 0
        &&& self.image_width >= 1
        &&& self.samples_per_pixel >= 1
    }

    /// The default parameters.
    pub fn new() -> (r: Self)
        ensures
            r.aspect_ratio@ == fx_div(16 * scale(), 9 * scale()),
            r.aspect_ratio@ == ASPECT_RAW,
            r.image_width == 400,
            r.samples_per_pixel == 1,
            r.max_depth == 1,
            r.buildable(),
    {
        Self::default()
    }

    /// Whether the parameters admit a camera.
    pub fn can_build(&self) -> (r: bool)
        ensures
            r == self.buildable(),
    {
        self.aspect_ratio.raw() != 0 && self.image_width >= 1 && self.samples_per_pixel >= 1
    }

    /// The camera with these parameters.
    pub fn build(self) -> (camera: Camera)
        requires
            self.buildable(),
        ensures
            camera@ == camera_for(
                self.aspect_ratio@,
                self.image_width as int,
                self.samples_per_pixel as int,
                self.max_depth as nat,
            ),
    {
        let aspect_ratio = self.aspect_ratio;
        let image_width = self.image_width;
        let rounded = (Scalar::from_int(image_width) / aspect_ratio).round();
        let image_height: i32 = if rounded < 1 {
            1
        } else if rounded > 0x7fff_ffff {
            0x7fff_ffff
        } else {
            rounded as i32
        };


        let center = Point3::new(Scalar::zero(), Scalar::zero(), Scalar::zero());

        let focal_length = Scalar::one();
        let viewport_height = Scalar::from_int(2);
        let viewport_width = viewport_height * (Scalar::from_int(image_width) / Scalar::from_int(
            image_height,
        ));

        let viewport_u = Vector3::new(viewport_width, Scalar::zero(), Scalar::zero());
        let viewport_v = Vector3::new(Scalar::zero(), viewport_height.neg(), Scalar::zero());

        let pixel_delta_u = viewport_u / Scalar::from_int(image_width);
        let pixel_delta_v = viewport_v / Scalar::from_int(image_height);

        let viewport_upper_left = center - Vector3::new(
            Scalar::zero(),
            Scalar::zero(),
            focal_length,
        ) - viewport_u / Scalar::from_int(2) - viewport_v / Scalar::from_int(2);
        let pixel00_loc = viewport_upper_left + Scalar::from_raw(HALF_RAW) * (pixel_delta_u
            + pixel_delta_v);

        Camera {
            image_height,
            aspect_ratio,
            image_width,
            center,
            pixel00_loc,
            pixel_delta_u,
            pixel_delta_v,
            samples_per_pixel: self.samples_per_pixel,
            max_depth: self.max_depth,
        }
    }
}

} // verus!
