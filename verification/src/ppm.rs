//! The text of a plain PPM image: decimal numbers, the header, and the
//! levels of a colour's channels.
use crate::interval::Interval;
use crate::scalar::fx_mul;
use crate::scalar::lemma_mul_value;
use crate::scalar::lemma_sqrt_value;
use crate::scalar::in_range;
use crate::scalar::lemma_quot_monotonic;
use crate::scalar::lemma_quot_sign;
use crate::scalar::magnitude;
use crate::scalar::lemma_sqrt_monotonic;
use crate::scalar::quot;
use crate::scalar::scale;
use crate::scalar::Scalar;
use crate::utils::gamma;
use crate::utils::linear_to_gamma;
use vstd::prelude::*;

verus! {

/// The decimal digits of `n` in ASCII, without leading zeros.
pub open spec fn digits(n: nat) -> Seq<u8>
    decreases n,
{
    if n < 10 {
        seq![(48 + n) as u8]
    } else {
        digits(n / 10).push((48 + n % 10) as u8)
    }
}

/// `n` in decimal, with a minus sign where it is negative.
pub open spec fn decimal(n: int) -> Seq<u8> {
    if n < 0 {
        seq![45u8] + digits((-n) as nat)
    } else {
        digits(n as nat)
    }
}

/// The header of an image of `width` by `height` pixels with levels up to
/// 255: the magic line of the plain format, the two sizes, and `255`.
pub open spec fn header_text(width: int, height: int) -> Seq<u8> {
    seq![80u8, 51u8, 10u8] + decimal(width) + seq![32u8] + decimal(height) + seq![
        10u8,
        50u8,
        53u8,
        53u8,
        10u8,
    ]
}

/// Numerator of 0.999, the brightest a channel gets.
pub const INTENSITY_MAX_RAW: i64 = 4290672328;

/// A gamma corrected channel, held between zero and 0.999.
pub open spec fn intensity(linear: int) -> int {
    let g = gamma(linear);
    if g < 0 {
        0
    } else if g > INTENSITY_MAX_RAW {
        INTENSITY_MAX_RAW as int
    } else {
        g
    }
}

/// The level from 0 to 255 of a linear colour channel: 256 times its
/// intensity, rounded down.
pub open spec fn channel_level(linear: int) -> int {
    quot(fx_mul(256 * scale(), intensity(linear)), scale())
}

/// The three levels of a colour in decimal, with a space between them.
pub open spec fn levels_text(x: int, y: int, z: int) -> Seq<u8> {
    decimal(channel_level(x)) + seq![32u8] + decimal(channel_level(y)) + seq![32u8] + decimal(
        channel_level(z),
    )
}

/// A level is a byte.
pub proof fn lemma_channel_level_range(linear: int)
    ensures
        0 <= channel_level(linear) <= 255,
{
    let c = intensity(linear);
    assert((256 * scale()) * c == (256 * c) * scale()) by (nonlinear_arith);
    assert(((256 * c) * scale()) / scale() == 256 * c) by (nonlinear_arith)
        requires
            scale() == 0x1_0000_0000,
    ;
    assert((256 * c) * scale() >= 0) by (nonlinear_arith)
        requires
            c >= 0,
            scale() == 0x1_0000_0000,
    ;
    lemma_quot_sign(256 * c, scale());
}

/// Black has the level 0, and white the level 255.
pub proof fn lemma_channel_level_ends()
    ensures
        channel_level(0) == 0,
        channel_level(scale()) == 255,
{
    lemma_mul_value(0x100_0000_0000, 0, 0);
    lemma_sqrt_value(0x1_0000_0000, 0x1_0000_0000);
    lemma_mul_value(0x100_0000_0000, 4290672328, 1098412115968);
}

/// No level falls as its channel grows.
pub proof fn lemma_channel_level_monotonic(a: int, b: int)
    requires
        a <= b,
        in_range(a),
        in_range(b),
    ensures
        channel_level(a) <= channel_level(b),
{
    lemma_sqrt_monotonic(a, b);
    let x = intensity(a);
    let y = intensity(b);
    lemma_level_of_intensity(x);
    lemma_level_of_intensity(y);
    lemma_quot_monotonic(256 * x, 256 * y, scale());
}

/// 256 times an intensity is in range.
proof fn lemma_level_of_intensity(c: int)
    requires
        0 <= c <= INTENSITY_MAX_RAW,
    ensures
        fx_mul(256 * scale(), c) == 256 * c,
{
    assert(magnitude((256 * scale()) * c) == (256 * c) * scale()) by (nonlinear_arith)
        requires
            c >= 0,
            scale() == 0x1_0000_0000,
    ;
    lemma_mul_value(256 * scale(), c, 256 * c);
}

/// The levels of one half and of the green of the sky are 181 and 214.
pub proof fn lemma_channel_level_of_sky()
    ensures
        channel_level(0x8000_0000) == 181,
        channel_level(3006477107) == 214,
{
    lemma_sqrt_value(0x8000_0000, 3037000499);
    lemma_sqrt_value(3006477107, 3593427451);
    lemma_mul_value(0x100_0000_0000, 3037000499, 777472127744);
    lemma_mul_value(0x100_0000_0000, 3593427451, 919917427456);
}

/// Appends the decimal digits of `n`.
pub fn push_digits(out: &mut Vec<u8>, n: u64)
    ensures
        final(out)@ == old(out)@ + digits(n as nat),
    decreases n,
{
    if n >= 10 {
        push_digits(out, n / 10);
    }
    out.push(48 + (n % 10) as u8);
}

/// Appends `n` in decimal.
pub fn push_decimal(out: &mut Vec<u8>, n: i64)
    ensures
        final(out)@ == old(out)@ + decimal(n as int),
{
    if n < 0 {
        out.push(45);
        let m: u64 = (-(n as i128)) as u64;
        push_digits(out, m);
    } else {
        push_digits(out, n as u64);
    }
}

/// The header of an image of `width` by `height` pixels.
pub fn ppm_header(width: i32, height: i32) -> (out: Vec<u8>)
    ensures
        out@ == header_text(width as int, height as int),
{
    let mut out: Vec<u8> = Vec::new();
    out.push(80);
    out.push(51);
    out.push(10);
    push_decimal(&mut out, width as i64);
    out.push(32);
    push_decimal(&mut out, height as i64);
    out.push(10);
    out.push(50);
    out.push(53);
    out.push(53);
    out.push(10);
    out
}

/// The level from 0 to 255 of a linear colour channel.
pub fn level(linear: Scalar) -> (r: u8)
    ensures
        r == channel_level(linear@),
{
    let range = Interval::new(Scalar::zero(), Scalar::from_raw(INTENSITY_MAX_RAW));
    let scaled = Scalar::from_int(256) * range.clamp(linear_to_gamma(linear));
    proof {
        lemma_channel_level_range(linear@);
    }
    scaled.trunc() as u8
}

} // verus!
