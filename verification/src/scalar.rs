//! Fixed-point scalars.
//!
//! A `Scalar` is an integer numerator over the denominator 2^32. Its view is
//! that numerator; the functions `fx_*` below are the arithmetic of the type,
//! written over mathematical integers. Results that leave the range are pinned
//! to the nearest end, and the two ends stand for the infinities.
use vstd::prelude::*;
use vstd::std_specs::ops::AddSpecImpl;
use vstd::std_specs::ops::DivSpecImpl;
use vstd::std_specs::ops::MulSpecImpl;
use vstd::std_specs::ops::NegSpecImpl;
use vstd::std_specs::ops::SubSpecImpl;

verus! {

/// Numerator of the value one.
pub const ONE_RAW: i64 = 0x1_0000_0000;

/// Largest numerator; `-MAX_RAW` is the smallest.
pub const MAX_RAW: i64 = 0x7fff_ffff_ffff_ffff;

/// The common denominator, 2^32.
pub open spec fn scale() -> int {
    0x1_0000_0000
}

/// The largest numerator a scalar can hold.
pub open spec fn limit() -> int {
    0x7fff_ffff_ffff_ffff
}

/// `a` is the numerator of some scalar.
pub open spec fn in_range(a: int) -> bool {
    -limit() <= a <= limit()
}

/// The nearest numerator in range.
pub open spec fn sat(a: int) -> int {
    if a > limit() {
        limit()
    } else if a < -limit() {
        -limit()
    } else {
        a
    }
}

/// Absolute value.
pub open spec fn magnitude(a: int) -> int {
    if a < 0 {
        -a
    } else {
        a
    }
}

/// Quotient rounded toward zero. Meaningful for `b != 0`.
pub open spec fn quot(a: int, b: int) -> int {
    if (a < 0) == (b < 0) {
        magnitude(a) / magnitude(b)
    } else {
        -(magnitude(a) / magnitude(b))
    }
}

/// The sum, pinned to the range.
pub open spec fn fx_add(a: int, b: int) -> int {
    sat(a + b)
}

/// The difference, pinned to the range.
pub open spec fn fx_sub(a: int, b: int) -> int {
    sat(a - b)
}

/// The product `a b / 2^32`, rounded toward zero and pinned to the range.
pub open spec fn fx_mul(a: int, b: int) -> int {
    sat(quot(a * b, scale()))
}

/// The quotient `a 2^32 / b`, rounded toward zero and pinned to the range.
/// Meaningful for `b != 0`.
pub open spec fn fx_div(a: int, b: int) -> int {
    sat(quot(a * scale(), b))
}

/// `r` is the integer square root of `n`.
pub open spec fn is_root(r: int, n: int) -> bool {
    0 <= r && r * r <= n < (r + 1) * (r + 1)
}

/// Integer square root of `n`, for `n >= 0`.
pub open spec fn isqrt(n: int) -> int {
    choose|r: int| is_root(r, n)
}

/// The square root `sqrt(a / 2^32) 2^32`, rounded down; zero for what is not
/// above zero.
pub open spec fn fx_sqrt(a: int) -> int {
    if a <= 0 {
        0
    } else {
        isqrt(a * scale())
    }
}

/// The smaller of the two.
pub open spec fn fx_min(a: int, b: int) -> int {
    if a <= b {
        a
    } else {
        b
    }
}

/// The larger of the two.
pub open spec fn fx_max(a: int, b: int) -> int {
    if a >= b {
        a
    } else {
        b
    }
}

/// Nearest integer, halves away from zero.
pub open spec fn fx_round(a: int) -> int {
    if a >= 0 {
        (a + scale() / 2) / scale()
    } else {
        -((-a + scale() / 2) / scale())
    }
}

/// The power of two that brings a size `m` from below one half to one half
/// or more: the least `2^k` with `m 2^k >= 2^31`. One for zero and for what
/// is one half or more already.
pub open spec fn norm_factor(m: int) -> int
    decreases
            (if m < 0x8000_0000 {
                0x8000_0000 - m
            } else {
                0
            }),
{
    if m <= 0 || m >= 0x8000_0000 {
        1
    } else {
        2 * norm_factor(2 * m)
    }
}

/// The factor is at least one, leaves one half or more in place, and brings
/// every smaller size that is not zero to one half or more and below one.
pub proof fn lemma_norm_factor(m: int)
    ensures
        1 <= norm_factor(m) < 0x1_0000_0000,
        m >= 0x8000_0000 || m <= 0 ==> norm_factor(m) == 1,
        0 < m < 0x8000_0000 ==> 0x8000_0000 <= m * norm_factor(m) < 0x1_0000_0000,
    decreases
            (if m < 0x8000_0000 {
                0x8000_0000 - m
            } else {
                0
            }),
{
    if 0 < m < 0x8000_0000 {
        lemma_norm_factor(2 * m);
        let g = norm_factor(2 * m);
        assert(m * (2 * g) == (2 * m) * g) by (nonlinear_arith);
        assert(2 * g < 0x1_0000_0000) by (nonlinear_arith)
            requires
                m * (2 * g) < 0x1_0000_0000,
                m >= 1,
                g >= 1,
        ;
    }
}

/// The power of two that brings a size `m` above one down to one or less:
/// the least `2^k` with `m <= 2^32 2^k`. One for what is one or less.
pub open spec fn norm_divisor(m: int) -> int
    decreases m,
{
    if m <= 0x1_0000_0000 {
        1
    } else {
        2 * norm_divisor((m + 1) / 2)
    }
}

/// The divisor is at least one, leaves one or less in place, and brings
/// every larger size to more than one half and at most one.
pub proof fn lemma_norm_divisor(m: int)
    requires
        m <= limit(),
    ensures
        1 <= norm_divisor(m) < 0x1_0000_0000,
        m <= 0x1_0000_0000 ==> norm_divisor(m) == 1,
        m > 0x1_0000_0000 ==> 0x8000_0000 * norm_divisor(m) < m <= 0x1_0000_0000 * norm_divisor(
            m,
        ),
    decreases m,
{
    if m > 0x1_0000_0000 {
        lemma_norm_divisor((m + 1) / 2);
    }
}

/// The quotient by one is the number.
pub proof fn lemma_quot_one(x: int)
    ensures
        quot(x, 1) == x,
{
    let m = magnitude(x);
    let one = magnitude(1);
    assert(m / one == m) by (nonlinear_arith)
        requires
            one == 1,
    ;
}

/// The quotient of a size by a divisor of one or more: it has the sign of
/// the dividend and is no larger in size, and the size is the size of the
/// dividend over the divisor.
pub proof fn lemma_quot_size(x: int, g: int)
    requires
        g >= 1,
    ensures
        magnitude(quot(x, g)) == magnitude(x) / g,
        magnitude(quot(x, g)) <= magnitude(x),
        x >= 0 ==> quot(x, g) >= 0,
        x <= 0 ==> quot(x, g) <= 0,
{
    let m = magnitude(x);
    assert(0 <= m / g <= m) by (nonlinear_arith)
        requires
            m >= 0,
            g >= 1,
    ;
}

/// The integer square root grows with the number.
pub proof fn lemma_isqrt_monotonic(a: int, b: int)
    requires
        0 <= a <= b,
    ensures
        isqrt(a) <= isqrt(b),
{
    lemma_isqrt_exists(a);
    lemma_isqrt_exists(b);
    let r = isqrt(a);
    let t = isqrt(b);
    if r > t {
        assert(r * r >= (t + 1) * (t + 1)) by (nonlinear_arith)
            requires
                r >= t + 1,
                t >= 0,
        ;
    }
}

/// The square root grows with the scalar.
pub proof fn lemma_sqrt_monotonic(a: int, b: int)
    requires
        a <= b,
        in_range(a),
        in_range(b),
    ensures
        fx_sqrt(a) <= fx_sqrt(b),
{
    lemma_sqrt_sign(b);
    if a > 0 {
        assert(0 <= a * scale() <= b * scale()) by (nonlinear_arith)
            requires
                0 < a <= b,
                scale() == 0x1_0000_0000,
        ;
        lemma_isqrt_monotonic(a * scale(), b * scale());
    }
}

/// Two roots of one number are equal.
pub proof fn lemma_root_unique(r: int, s: int, n: int)
    requires
        is_root(r, n),
        is_root(s, n),
    ensures
        r == s,
{
    if r < s {
        assert((r + 1) * (r + 1) <= s * s) by (nonlinear_arith)
            requires
                0 <= r,
                r + 1 <= s,
        ;
    } else if s < r {
        assert((s + 1) * (s + 1) <= r * r) by (nonlinear_arith)
            requires
                0 <= s,
                s + 1 <= r,
        ;
    }
}

/// A number with a root: `isqrt` is that root.
pub proof fn lemma_isqrt(r: int, n: int)
    requires
        is_root(r, n),
    ensures
        isqrt(n) == r,
{
    lemma_root_unique(r, isqrt(n), n);
}

/// `q` with the sign of a quotient of `a` by `b`: plus where the two agree in
/// sign, else minus.
pub open spec fn with_sign(q: int, a: int, b: int) -> int {
    if (a < 0) == (b < 0) {
        q
    } else {
        -q
    }
}

/// Names the product of `a` and `b`: it is `q`, with the sign of the
/// product, where `q 2^32` is the size of `a b` rounded down to a multiple
/// of 2^32.
pub proof fn lemma_mul_value(a: int, b: int, q: int)
    requires
        q * scale() <= magnitude(a * b) < (q + 1) * scale(),
    ensures
        fx_mul(a, b) == sat(with_sign(q, a, b)),
{
    let m = magnitude(a * b);
    assert(m / scale() == q) by (nonlinear_arith)
        requires
            q * scale() <= m < (q + 1) * scale(),
            scale() == 0x1_0000_0000,
    ;
    assert(a * b == 0 || ((a * b < 0) == ((a < 0) != (b < 0)))) by (nonlinear_arith);
}

/// Names the quotient of `a` by `b`: it is `q`, with the sign of the
/// quotient, where `q` times the size of `b` is the size of `a 2^32`
/// rounded down to a multiple of the size of `b`.
pub proof fn lemma_div_value(a: int, b: int, q: int)
    requires
        b != 0,
        q * magnitude(b) <= magnitude(a * scale()) < (q + 1) * magnitude(b),
    ensures
        fx_div(a, b) == sat(with_sign(q, a, b)),
{
    let m = magnitude(a * scale());
    let d = magnitude(b);
    assert(m / d == q) by (nonlinear_arith)
        requires
            q * d <= m < (q + 1) * d,
            d > 0,
    ;
    assert((a * scale() < 0) == (a < 0)) by (nonlinear_arith)
        requires
            scale() == 0x1_0000_0000,
    ;
}

/// Names the square root of `a`: it is `r`, where `r^2` is `a 2^32` rounded
/// down to a square.
pub proof fn lemma_sqrt_value(a: int, r: int)
    requires
        a > 0,
        0 <= r,
        r * r <= a * scale() < (r + 1) * (r + 1),
    ensures
        fx_sqrt(a) == r,
{
    lemma_isqrt(r, a * scale());
}

/// Changing the sign of either operand changes the sign of the quotient.
pub proof fn lemma_quot_neg(a: int, b: int)
    requires
        b != 0,
    ensures
        quot(-a, b) == -quot(a, b),
        quot(a, -b) == -quot(a, b),
{
}

/// The quotient by a positive number grows with the dividend.
pub proof fn lemma_quot_monotonic(a: int, b: int, d: int)
    requires
        a <= b,
        d > 0,
    ensures
        quot(a, d) <= quot(b, d),
{
    let ma = magnitude(a);
    let mb = magnitude(b);
    assert(0 <= ma / d) by (nonlinear_arith)
        requires
            ma >= 0,
            d > 0,
    ;
    assert(0 <= mb / d) by (nonlinear_arith)
        requires
            mb >= 0,
            d > 0,
    ;
    if a >= 0 {
        assert(a / d <= b / d) by (nonlinear_arith)
            requires
                0 <= a <= b,
                d > 0,
        ;
    } else if b < 0 {
        assert((-b) / d <= (-a) / d) by (nonlinear_arith)
            requires
                0 <= -b <= -a,
                d > 0,
        ;
    }
}

/// The sign of a quotient by a positive number is that of the dividend, and
/// the quotient is no further from zero than the dividend.
pub proof fn lemma_quot_sign(a: int, d: int)
    requires
        d > 0,
    ensures
        a >= 0 ==> 0 <= quot(a, d) <= a,
        a <= 0 ==> a <= quot(a, d) <= 0,
{
    let m = magnitude(a);
    assert(0 <= m / d <= m) by (nonlinear_arith)
        requires
            m >= 0,
            d > 0,
    ;
}

/// The product changes sign with either factor.
pub proof fn lemma_mul_neg(a: int, b: int)
    ensures
        fx_mul(-a, b) == -fx_mul(a, b),
        fx_mul(a, -b) == -fx_mul(a, b),
{
    assert((-a) * b == -(a * b)) by (nonlinear_arith);
    assert(a * (-b) == -(a * b)) by (nonlinear_arith);
    lemma_quot_neg(a * b, scale());
}

/// The product does not depend on the order of the factors.
pub proof fn lemma_mul_commutes(a: int, b: int)
    ensures
        fx_mul(a, b) == fx_mul(b, a),
{
    assert(a * b == b * a) by (nonlinear_arith);
}

/// A square is not negative.
pub proof fn lemma_square_nonnegative(a: int)
    ensures
        fx_mul(a, a) >= 0,
{
    assert(a * a >= 0) by (nonlinear_arith);
    lemma_quot_sign(a * a, scale());
}

/// A product with zero is zero.
pub proof fn lemma_mul_zero(a: int)
    ensures
        fx_mul(a, 0) == 0,
        fx_mul(0, a) == 0,
{
}

/// Zero over anything but zero is zero.
pub proof fn lemma_zero_div(b: int)
    requires
        b != 0,
    ensures
        fx_div(0, b) == 0,
{
    lemma_div_value(0, b, 0);
}

/// The size of `a 2^32` is the size of `a` times 2^32.
proof fn lemma_scaled_magnitude(a: int)
    ensures
        magnitude(a * scale()) == magnitude(a) * scale(),
{
    assert(magnitude(a * scale()) == magnitude(a) * scale()) by (nonlinear_arith)
        requires
            scale() == 0x1_0000_0000,
    ;
}

/// One is the unit of the product.
pub proof fn lemma_mul_one(a: int)
    requires
        in_range(a),
    ensures
        fx_mul(a, scale()) == a,
        fx_mul(scale(), a) == a,
{
    lemma_scaled_magnitude(a);
    lemma_mul_value(a, scale(), magnitude(a));
    lemma_mul_commutes(a, scale());
}

/// The square root is not negative, and zero only of what is not above zero.
pub proof fn lemma_sqrt_sign(a: int)
    requires
        in_range(a),
    ensures
        fx_sqrt(a) >= 0,
        a > 0 ==> fx_sqrt(a) > 0,
        in_range(fx_sqrt(a)),
{
    if a > 0 {
        let n = a * scale();
        lemma_isqrt_exists(n);
        let r = isqrt(n);
        assert(is_root(r, n));
        if r >= 0x1_0000_0000_0000 {
            assert(r * r >= 0x1_0000_0000_0000 * 0x1_0000_0000_0000) by (nonlinear_arith)
                requires
                    r >= 0x1_0000_0000_0000,
            ;
        }
        if r == 0 {
            assert((r + 1) * (r + 1) == 1) by (nonlinear_arith)
                requires
                    r == 0,
            ;
        }
    }
}

/// Every number that is not negative has an integer square root.
pub proof fn lemma_isqrt_exists(n: int)
    requires
        n >= 0,
    ensures
        is_root(isqrt(n), n),
    decreases n,
{
    if n == 0 {
        assert(is_root(0, 0));
    } else {
        lemma_isqrt_exists(n - 1);
        let r = isqrt(n - 1);
        if (r + 1) * (r + 1) <= n {
            assert((r + 2) * (r + 2) > n) by (nonlinear_arith)
                requires
                    r >= 0,
                    n - 1 < (r + 1) * (r + 1),
            ;
            assert(is_root(r + 1, n));
        } else {
            assert(is_root(r, n));
        }
    }
}

/// A number `c` over a number `r` that is at least as large: the quotient
/// is at most one in size, and its size `u` has `u r <= |c| 2^32 < (u + 1) r`.
pub proof fn lemma_ratio_bounds(c: int, r: int)
    requires
        r > 0,
        magnitude(c) <= r,
    ensures
        ({
            let u = magnitude(fx_div(c, r));
            &&& u <= scale()
            &&& u * r <= magnitude(c) * scale() < (u + 1) * r
            &&& (c >= 0 ==> fx_div(c, r) >= 0)
            &&& (c <= 0 ==> fx_div(c, r) <= 0)
        }),
{
    let m = magnitude(c);
    lemma_scaled_magnitude(c);
    let q = (m * scale()) / r;
    assert(q * r <= m * scale() < (q + 1) * r && 0 <= q <= scale()) by (nonlinear_arith)
        requires
            q == (m * scale()) / r,
            0 <= m <= r,
            r > 0,
            scale() == 0x1_0000_0000,
    ;
    assert((c * scale() < 0) == (c < 0)) by (nonlinear_arith)
        requires
            scale() == 0x1_0000_0000,
    ;
}

/// The square of a number of one or less in size, as a scalar: `q` with
/// `q 2^32 <= a^2 < (q + 1) 2^32`, from zero to one.
pub proof fn lemma_square_value(a: int)
    requires
        -scale() <= a <= scale(),
    ensures
        0 <= fx_mul(a, a) <= scale(),
        fx_mul(a, a) * scale() <= a * a < (fx_mul(a, a) + 1) * scale(),
{
    assert(0 <= a * a <= scale() * scale()) by (nonlinear_arith)
        requires
            -scale() <= a <= scale(),
    ;
    let q = (a * a) / scale();
    assert(q * scale() <= a * a < (q + 1) * scale() && 0 <= q <= scale()) by (nonlinear_arith)
        requires
            q == (a * a) / scale(),
            0 <= a * a <= scale() * scale(),
            scale() == 0x1_0000_0000,
    ;
}

/// Three sizes `u` of quotients by the root `r` of the sum of the squares of
/// the dividends `c`: the sum of their squares is one, up to six steps and a
/// little, where `r` is one half or more.
pub proof fn lemma_unit_sum(u1: int, u2: int, u3: int, c1: int, c2: int, c3: int, r: int)
    requires
        0 <= u1 <= scale(),
        0 <= u2 <= scale(),
        0 <= u3 <= scale(),
        0 <= c1,
        0 <= c2,
        0 <= c3,
        u1 * r <= c1 * scale() < (u1 + 1) * r,
        u2 * r <= c2 * scale() < (u2 + 1) * r,
        u3 * r <= c3 * scale() < (u3 + 1) * r,
        r >= 0x8000_0000,
        r * r <= c1 * c1 + c2 * c2 + c3 * c3 < (r + 1) * (r + 1),
    ensures
        scale() * scale() - 6 * scale() - 3 < u1 * u1 + u2 * u2 + u3 * u3,
        u1 * u1 + u2 * u2 + u3 * u3 <= scale() * scale() + 6 * scale(),
{
    let s = scale();
    let n = c1 * c1 + c2 * c2 + c3 * c3;
    let uu = u1 * u1 + u2 * u2 + u3 * u3;
    lemma_square_le(u1 * r, c1 * s);
    lemma_square_le(u2 * r, c2 * s);
    lemma_square_le(u3 * r, c3 * s);
    lemma_square_lt(c1 * s, (u1 + 1) * r);
    lemma_square_lt(c2 * s, (u2 + 1) * r);
    lemma_square_lt(c3 * s, (u3 + 1) * r);
    lemma_square_of_product(u1, r);
    lemma_square_of_product(u2, r);
    lemma_square_of_product(u3, r);
    lemma_square_of_product(c1, s);
    lemma_square_of_product(c2, s);
    lemma_square_of_product(c3, s);
    lemma_square_of_product(u1 + 1, r);
    lemma_square_of_product(u2 + 1, r);
    lemma_square_of_product(u3 + 1, r);
    let rr = r * r;
    let ss = s * s;
    assert(rr > 0 && ss > 0) by (nonlinear_arith)
        requires
            rr == r * r,
            ss == s * s,
            r >= 1,
            s >= 1,
    ;
    assert(uu * rr == (u1 * u1) * rr + (u2 * u2) * rr + (u3 * u3) * rr) by (nonlinear_arith)
        requires
            uu == u1 * u1 + u2 * u2 + u3 * u3,
    ;
    assert(n * ss == (c1 * c1) * ss + (c2 * c2) * ss + (c3 * c3) * ss) by (nonlinear_arith)
        requires
            n == c1 * c1 + c2 * c2 + c3 * c3,
    ;
    assert(uu * rr <= n * ss);
    let vv = (u1 + 1) * (u1 + 1) + (u2 + 1) * (u2 + 1) + (u3 + 1) * (u3 + 1);
    assert(vv * rr == ((u1 + 1) * (u1 + 1)) * rr + ((u2 + 1) * (u2 + 1)) * rr + ((u3 + 1) * (u3
        + 1)) * rr) by (nonlinear_arith)
        requires
            vv == (u1 + 1) * (u1 + 1) + (u2 + 1) * (u2 + 1) + (u3 + 1) * (u3 + 1),
    ;
    assert(n * ss < vv * rr);
    assert(vv == uu + 2 * (u1 + u2 + u3) + 3) by (nonlinear_arith)
        requires
            vv == (u1 + 1) * (u1 + 1) + (u2 + 1) * (u2 + 1) + (u3 + 1) * (u3 + 1),
            uu == u1 * u1 + u2 * u2 + u3 * u3,
    ;
    assert(vv > ss) by (nonlinear_arith)
        requires
            n * ss < vv * rr,
            rr <= n,
            rr > 0,
            ss > 0,
    ;
    assert(uu <= ss + 6 * s) by (nonlinear_arith)
        requires
            uu * rr <= n * ss,
            n < (r + 1) * (r + 1),
            rr == r * r,
            ss == s * s,
            2 * r >= s,
            s == 0x1_0000_0000,
            uu >= 0,
    ;
}

/// Squares keep the order of what is not negative.
proof fn lemma_square_le(a: int, b: int)
    requires
        0 <= a <= b,
    ensures
        a * a <= b * b,
{
    assert(a * a <= b * b) by (nonlinear_arith)
        requires
            0 <= a <= b,
    ;
}

/// Squares keep the strict order of what is not negative.
proof fn lemma_square_lt(a: int, b: int)
    requires
        0 <= a < b,
    ensures
        a * a < b * b,
{
    assert(a * a < b * b) by (nonlinear_arith)
        requires
            0 <= a < b,
    ;
}

/// The square of a product is the product of the squares.
proof fn lemma_square_of_product(a: int, b: int)
    ensures
        (a * b) * (a * b) == (a * a) * (b * b),
{
    assert((a * b) * (a * b) == (a * a) * (b * b)) by (nonlinear_arith);
}

/// A product of two numbers of 2^15 or less in size is the true product over
/// 2^32, less than a step toward zero.
pub proof fn lemma_mul_error(a: int, b: int)
    requires
        -0x8000_0000_0000 <= a <= 0x8000_0000_0000,
        -0x8000_0000_0000 <= b <= 0x8000_0000_0000,
    ensures
        -scale() < fx_mul(a, b) * scale() - a * b < scale(),
        -0x4000_0000_0000_0000 <= fx_mul(a, b) <= 0x4000_0000_0000_0000,
{
    let s = scale();
    let m = magnitude(a * b);
    assert(m <= 0x8000_0000_0000 * 0x8000_0000_0000) by (nonlinear_arith)
        requires
            m == magnitude(a * b),
            -0x8000_0000_0000 <= a <= 0x8000_0000_0000,
            -0x8000_0000_0000 <= b <= 0x8000_0000_0000,
    ;
    let q = m / s;
    assert(q * s <= m < (q + 1) * s && 0 <= q <= 0x4000_0000_0000_0000) by (nonlinear_arith)
        requires
            q == m / s,
            0 <= m <= 0x8000_0000_0000 * 0x8000_0000_0000,
            s == 0x1_0000_0000,
    ;
}

/// The square of a number of 2^15 or less in size, as a scalar: `g` with
/// `g 2^32 <= e^2 < (g + 1) 2^32`.
pub proof fn lemma_square_floor(e: int)
    requires
        -0x8000_0000_0000 <= e <= 0x8000_0000_0000,
    ensures
        fx_mul(e, e) * scale() <= e * e < (fx_mul(e, e) + 1) * scale(),
        0 <= fx_mul(e, e) <= 0x4000_0000_0000_0000,
{
    let s = scale();
    assert(0 <= e * e <= 0x8000_0000_0000 * 0x8000_0000_0000) by (nonlinear_arith)
        requires
            -0x8000_0000_0000 <= e <= 0x8000_0000_0000,
    ;
    let q = (e * e) / s;
    assert(q * s <= e * e < (q + 1) * s && 0 <= q <= 0x4000_0000_0000_0000) by (nonlinear_arith)
        requires
            q == (e * e) / s,
            0 <= e * e <= 0x8000_0000_0000 * 0x8000_0000_0000,
            s == 0x1_0000_0000,
    ;
}

/// A quotient of a number of 2^15 or less in size by one of one quarter or
/// more: it is the true quotient, less than a step toward zero.
pub proof fn lemma_div_error(x: int, a: int)
    requires
        -0x8000_0000_0000 <= x <= 0x8000_0000_0000,
        a >= 0x4000_0000,
    ensures
        -a < fx_div(x, a) * a - x * scale() < a,
{
    let s = scale();
    lemma_scaled_magnitude(x);
    let m = magnitude(x) * s;
    let q = m / a;
    assert(q * a <= m < (q + 1) * a && 0 <= q <= 0x2_0000_0000_0000) by (nonlinear_arith)
        requires
            q == m / a,
            m == magnitude(x) * s,
            0 <= magnitude(x) <= 0x8000_0000_0000,
            a >= 0x4000_0000,
            s == 0x1_0000_0000,
    ;
    assert((x * s < 0) == (x < 0)) by (nonlinear_arith)
        requires
            s == 0x1_0000_0000,
    ;
    assert(x * s == if x < 0 {
        -m
    } else {
        m
    }) by (nonlinear_arith)
        requires
            m == magnitude(x) * s,
    ;
    let t = fx_div(x, a);
    assert(t == if x < 0 {
        -q
    } else {
        q
    });
    let ta = t * a;
    let xs = x * s;
    let qa = q * a;
    assert(ta == if x < 0 {
        -qa
    } else {
        qa
    }) by (nonlinear_arith)
        requires
            ta == t * a,
            qa == q * a,
            t == if x < 0 {
                -q
            } else {
                q
            },
    ;
    assert((q + 1) * a == qa + a) by (nonlinear_arith)
        requires
            qa == q * a,
    ;
    assert(-a < ta - xs < a);
}

/// Division by one changes nothing.
pub proof fn lemma_div_one(a: int)
    requires
        in_range(a),
    ensures
        fx_div(a, scale()) == a,
{
    lemma_scaled_magnitude(a);
    lemma_div_value(a, scale(), magnitude(a));
}

/// The square root of a square is the number itself or, by rounding, less:
/// one step less at most for a number of one half or more.
pub proof fn lemma_sqrt_of_square(a: int)
    requires
        0 <= a <= 0x8000_0000_0000,
    ensures
        0 <= fx_sqrt(fx_mul(a, a)) <= a,
        a >= 0x8000_0000 ==> fx_sqrt(fx_mul(a, a)) >= a - 1,
{
    assert(0 <= a * a <= 0x8000_0000_0000 * 0x8000_0000_0000) by (nonlinear_arith)
        requires
            0 <= a <= 0x8000_0000_0000,
    ;
    let q = (a * a) / scale();
    assert(q * scale() <= a * a < (q + 1) * scale() && 0 <= q <= 0x4000_0000_0000_0000)
        by (nonlinear_arith)
        requires
            q == (a * a) / scale(),
            scale() == 0x1_0000_0000,
            0 <= a * a <= 0x8000_0000_0000 * 0x8000_0000_0000,
    ;
    assert(fx_mul(a, a) == q);
    if q > 0 {
        let n = q * scale();
        lemma_isqrt_exists(n);
        let s = isqrt(n);
        assert(fx_sqrt(q) == s);
        if s > a {
            assert(s * s >= (a + 1) * (a + 1) && (a + 1) * (a + 1) > a * a) by (nonlinear_arith)
                requires
                    s >= a + 1,
                    a >= 0,
            ;
        }
        if a > 0x8000_0000 && s + 1 < a {
            assert((s + 1) * (s + 1) <= (a - 1) * (a - 1)) by (nonlinear_arith)
                requires
                    0 <= s + 1 <= a - 1,
            ;
            assert((a - 1) * (a - 1) <= a * a - scale()) by (nonlinear_arith)
                requires
                    a >= 0x8000_0000 + 1,
                    scale() == 0x1_0000_0000,
            ;
        }
        if a == 0x8000_0000 {
            assert(is_root(a, n)) by (nonlinear_arith)
                requires
                    a == 0x8000_0000,
                    n == q * scale(),
                    q == (a * a) / scale(),
                    scale() == 0x1_0000_0000,
            ;
            lemma_root_unique(a, s, n);
        }
    } else {
        assert(a * a < scale());
        if a >= 0x8000_0000 {
            assert(a * a >= 0x8000_0000 * 0x8000_0000) by (nonlinear_arith)
                requires
                    a >= 0x8000_0000,
            ;
        }
    }
}

/// A fixed-point number: its view over 2^32.
#[derive(Clone, Copy, Debug, PartialEq, Eq, PartialOrd, Ord, Structural)]
pub struct Scalar {
    raw: i64,
}

impl View for Scalar {
    type V = int;

    closed spec fn view(&self) -> int {
        self.raw as int
    }
}

impl Scalar {
    /// Every scalar's numerator lies between the two ends of the range.
    #[verifier::type_invariant]
    pub open spec fn wf(self) -> bool {
        in_range(self@)
    }

    /// The scalar with numerator `v`, for `v` in range.
    pub closed spec fn of(v: int) -> Scalar {
        Scalar { raw: v as i64 }
    }

    /// A scalar is fixed by its view: two scalars with one numerator are
    /// equal.
    pub proof fn lemma_view_eq(a: Scalar, b: Scalar)
        requires
            a@ == b@,
        ensures
            a == b,
    {
    }

    /// A scalar is the scalar of its own numerator.
    pub proof fn lemma_of_self(a: Scalar)
        requires
            a.wf(),
        ensures
            Scalar::of(a@) == a,
    {
    }

    /// The scalar with numerator `raw`, pinned to the range.
    pub fn from_raw(raw: i64) -> (r: Scalar)
        ensures
            r@ == sat(raw as int),
    {
        if raw < -MAX_RAW {
            Scalar { raw: -MAX_RAW }
        } else {
            Scalar { raw }
        }
    }

    /// The scalar with the wide numerator `v`, pinned to the range.
    fn from_wide(v: i128) -> (r: Scalar)
        ensures
            r@ == sat(v as int),
    {
        if v > MAX_RAW as i128 {
            Scalar { raw: MAX_RAW }
        } else if v < -(MAX_RAW as i128) {
            Scalar { raw: -MAX_RAW }
        } else {
            Scalar { raw: v as i64 }
        }
    }

    /// The numerator.
    pub fn raw(&self) -> (r: i64)
        ensures
            r == self@,
            in_range(r as int),
    {
        proof {
            use_type_invariant(self);
        }
        self.raw
    }
}


impl Scalar {
    /// Zero.
    pub fn zero() -> (r: Scalar)
        ensures
            r@ == 0,
    {
        Scalar { raw: 0 }
    }

    /// One.
    pub fn one() -> (r: Scalar)
        ensures
            r@ == scale(),
    {
        Scalar { raw: ONE_RAW }
    }

    /// The upper end of the range, which stands for plus infinity.
    pub fn infinity() -> (r: Scalar)
        ensures
            r@ == limit(),
    {
        Scalar { raw: MAX_RAW }
    }

    /// The lower end of the range, which stands for minus infinity.
    pub fn neg_infinity() -> (r: Scalar)
        ensures
            r@ == -limit(),
    {
        Scalar { raw: -MAX_RAW }
    }

    /// The whole number `n`.
    pub fn from_int(n: i32) -> (r: Scalar)
        ensures
            r@ == sat(n * scale()),
    {
        Scalar::from_wide((n as i128) * 0x1_0000_0000)
    }

    /// The fraction `num / den`, rounded toward zero.
    pub fn from_ratio(num: i64, den: i64) -> (r: Scalar)
        requires
            den != 0,
        ensures
            r@ == sat(quot(num * scale(), den as int)),
    {
        let n: i128 = (num as i128) * 0x1_0000_0000;
        Scalar::from_wide(wide_quot(n, den as i128))
    }

    /// `self < other`.
    pub fn lt(&self, other: &Scalar) -> (r: bool)
        ensures
            r == (self@ < other@),
    {
        self.raw < other.raw
    }

    /// `self <= other`.
    pub fn le(&self, other: &Scalar) -> (r: bool)
        ensures
            r == (self@ <= other@),
    {
        self.raw <= other.raw
    }

    /// `self > other`.
    pub fn gt(&self, other: &Scalar) -> (r: bool)
        ensures
            r == (self@ > other@),
    {
        self.raw > other.raw
    }

    /// `self >= other`.
    pub fn ge(&self, other: &Scalar) -> (r: bool)
        ensures
            r == (self@ >= other@),
    {
        self.raw >= other.raw
    }

    /// The smaller of two scalars.
    pub fn min(self, other: Scalar) -> (r: Scalar)
        ensures
            r@ == fx_min(self@, other@),
    {
        if self.raw <= other.raw {
            self
        } else {
            other
        }
    }

    /// The larger of two scalars.
    pub fn max(self, other: Scalar) -> (r: Scalar)
        ensures
            r@ == fx_max(self@, other@),
    {
        if self.raw >= other.raw {
            self
        } else {
            other
        }
    }

    /// Absolute value.
    pub fn abs(self) -> (r: Scalar)
        ensures
            r@ == magnitude(self@),
    {
        proof {
            use_type_invariant(self);
        }
        if self.raw < 0 {
            Scalar { raw: -self.raw }
        } else {
            self
        }
    }

    /// Nearest whole number, halves away from zero.
    pub fn round(self) -> (r: i64)
        ensures
            r == fx_round(self@),
    {
        proof {
            use_type_invariant(self);
        }
        let half: i128 = 0x8000_0000;
        let v: i128 = self.raw as i128;
        if v >= 0 {
            ((v + half) / 0x1_0000_0000) as i64
        } else {
            (-((-v + half) / 0x1_0000_0000)) as i64
        }
    }

    /// Whole part, rounded toward zero.
    pub fn trunc(self) -> (r: i64)
        ensures
            r == quot(self@, scale()),
    {
        proof {
            use_type_invariant(self);
        }
        if self.raw >= 0 {
            self.raw / 0x1_0000_0000
        } else {
            -((-self.raw) / 0x1_0000_0000)
        }
    }
}

impl Scalar {
    /// Square root, rounded down to a multiple of 2^-32; zero for what is
    /// not above zero.
    pub fn sqrt(self) -> (r: Scalar)
        ensures
            r@ == fx_sqrt(self@),
    {
        proof {
            use_type_invariant(self);
        }
        if self.raw <= 0 {
            return Scalar::zero();
        }
        let n: u128 = (self.raw as u128) * 0x1_0000_0000;
        let mut lo: u128 = 0;
        let mut hi: u128 = 0x1_0000_0000_0000;
        assert(n < hi * hi) by (nonlinear_arith)
            requires
                n < 0x8000_0000_0000_0000_0000_0000,
                hi == 0x1_0000_0000_0000,
        ;
        while hi - lo > 1
            invariant
                lo < hi <= 0x1_0000_0000_0000,
                lo * lo <= n < hi * hi,
            decreases hi - lo,
        {
            let mid: u128 = lo + (hi - lo) / 2;
            assert(mid * mid < 0x1_0000_0000_0000_0000_0000_0000) by (nonlinear_arith)
                requires
                    mid < 0x1_0000_0000_0000,
            ;
            if mid * mid <= n {
                lo = mid;
            } else {
                hi = mid;
            }
        }
        proof {
            lemma_isqrt(lo as int, n as int);
        }
        Scalar { raw: lo as i64 }
    }
}

/// The integer square root of a wide number.
fn wide_root(n: u128) -> (r: u128)
    ensures
        is_root(r as int, n as int),
        r < 0x1_0000_0000_0000_0000,
{
    let mut lo: u128 = 0;
    let mut hi: u128 = 0x1_0000_0000_0000_0000;
    assert(n < hi * hi) by (nonlinear_arith)
        requires
            n < 0x1_0000_0000_0000_0000_0000_0000_0000_0000,
            hi == 0x1_0000_0000_0000_0000,
    ;
    while hi - lo > 1
        invariant
            lo < hi <= 0x1_0000_0000_0000_0000,
            lo * lo <= n < hi * hi,
        decreases hi - lo,
    {
        let mid: u128 = lo + (hi - lo) / 2;
        assert(mid * mid < 0x1_0000_0000_0000_0000_0000_0000_0000_0000) by (nonlinear_arith)
            requires
                mid < 0x1_0000_0000_0000_0000,
        ;
        if mid * mid <= n {
            lo = mid;
        } else {
            hi = mid;
        }
    }
    lo
}

impl Scalar {
    /// The power of two that brings the size `m` to one half or more.
    pub fn norm_factor_of(m: Scalar) -> (f: i64)
        ensures
            f == norm_factor(m@),
            1 <= f < 0x1_0000_0000,
    {
        proof {
            lemma_norm_factor(m@);
            assert(1 * norm_factor(m@) == norm_factor(m@)) by (nonlinear_arith);
        }
        let mut x: i64 = m.raw;
        let mut f: i64 = 1;
        while 0 < x && x < 0x8000_0000
            invariant
                1 <= f < 0x1_0000_0000,
                norm_factor(m@) == f * norm_factor(x as int),
                1 <= norm_factor(m@) < 0x1_0000_0000,
            decreases
                    (if x < 0x8000_0000 {
                        0x8000_0000 - x
                    } else {
                        0
                    }),
        {
            proof {
                lemma_norm_factor(2 * x);
                let g = norm_factor(2 * x);
                assert(f * (2 * g) == (2 * f) * g) by (nonlinear_arith);
                assert(2 * f < 0x1_0000_0000) by (nonlinear_arith)
                    requires
                        (2 * f) * g < 0x1_0000_0000,
                        g >= 1,
                        f >= 1,
                ;
            }
            x = 2 * x;
            f = 2 * f;
        }
        proof {
            lemma_norm_factor(x as int);
            assert(f * 1 == f) by (nonlinear_arith);
        }
        f
    }

    /// The power of two that brings the size `m` down to one or less.
    pub fn norm_divisor_of(m: Scalar) -> (g: i64)
        ensures
            g == norm_divisor(m@),
            1 <= g < 0x1_0000_0000,
    {
        proof {
            use_type_invariant(m);
            lemma_norm_divisor(m@);
            assert(1 * norm_divisor(m@) == norm_divisor(m@)) by (nonlinear_arith);
        }
        let mut x: i64 = m.raw;
        let mut g: i64 = 1;
        while x > 0x1_0000_0000
            invariant
                1 <= g < 0x1_0000_0000,
                norm_divisor(m@) == g * norm_divisor(x as int),
                1 <= norm_divisor(m@) < 0x1_0000_0000,
                x <= limit(),
            decreases x,
        {
            proof {
                lemma_norm_divisor((x + 1) / 2);
                let h = norm_divisor((x + 1) / 2);
                assert(g * (2 * h) == (2 * g) * h) by (nonlinear_arith);
                assert(2 * g < 0x1_0000_0000) by (nonlinear_arith)
                    requires
                        (2 * g) * h < 0x1_0000_0000,
                        h >= 1,
                        g >= 1,
                ;
            }
            x = x / 2 + x % 2;
            g = 2 * g;
        }
        proof {
            assert(g * 1 == g) by (nonlinear_arith);
        }
        g
    }

    /// The scalar over the whole number `g`, rounded toward zero.
    pub fn over_int(self, g: i64) -> (r: Scalar)
        requires
            g >= 1,
        ensures
            r@ == quot(self@, g as int),
    {
        proof {
            use_type_invariant(self);
            lemma_quot_size(self@, g as int);
        }
        Scalar::from_wide(wide_quot(self.raw as i128, g as i128))
    }

    /// The scalar times the whole number `f`.
    pub fn times(self, f: i64) -> (r: Scalar)
        ensures
            r@ == sat(self@ * f),
    {
        let a: i128 = self.raw as i128;
        let b: i128 = f as i128;
        assert(-0x4000_0000_0000_0000_0000_0000_0000_0000 <= a * b
            <= 0x4000_0000_0000_0000_0000_0000_0000_0000) by (nonlinear_arith)
            requires
                -0x8000_0000_0000_0000 <= a <= 0x8000_0000_0000_0000,
                -0x8000_0000_0000_0000 <= b <= 0x8000_0000_0000_0000,
        ;
        Scalar::from_wide(a * b)
    }

    /// The root of the sum of the squares of three numerators: the length
    /// of the vector that they make, in steps, rounded down.
    pub fn root_of_squares(x: Scalar, y: Scalar, z: Scalar) -> (r: u128)
        ensures
            r == isqrt(x@ * x@ + y@ * y@ + z@ * z@),
            is_root(r as int, x@ * x@ + y@ * y@ + z@ * z@),
            r < 0x1_0000_0000_0000_0000,
    {
        proof {
            use_type_invariant(x);
            use_type_invariant(y);
            use_type_invariant(z);
        }
        let a: u128 = x.abs().raw as u128;
        let b: u128 = y.abs().raw as u128;
        let c: u128 = z.abs().raw as u128;
        assert(a * a == x@ * x@ && a * a < 0x4000_0000_0000_0000_0000_0000_0000_0000)
            by (nonlinear_arith)
            requires
                a == magnitude(x@),
                a < 0x8000_0000_0000_0000,
        ;
        assert(b * b == y@ * y@ && b * b < 0x4000_0000_0000_0000_0000_0000_0000_0000)
            by (nonlinear_arith)
            requires
                b == magnitude(y@),
                b < 0x8000_0000_0000_0000,
        ;
        assert(c * c == z@ * z@ && c * c < 0x4000_0000_0000_0000_0000_0000_0000_0000)
            by (nonlinear_arith)
            requires
                c == magnitude(z@),
                c < 0x8000_0000_0000_0000,
        ;
        let n: u128 = a * a + b * b + c * c;
        let r = wide_root(n);
        proof {
            lemma_isqrt(r as int, n as int);
        }
        r
    }

    /// The scalar over the wide number `n`.
    pub fn over_wide(self, n: u128) -> (r: Scalar)
        requires
            0 < n < 0x1_0000_0000_0000_0000,
        ensures
            r@ == fx_div(self@, n as int),
    {
        proof {
            use_type_invariant(self);
        }
        let a: i128 = (self.raw as i128) * 0x1_0000_0000;
        Scalar::from_wide(wide_quot(a, n as i128))
    }

    /// The wide number `n` times the whole number `g` over the whole number
    /// `f`, rounded down and pinned to the range.
    pub fn from_wide_quotient(n: u128, g: i64, f: i64) -> (r: Scalar)
        requires
            f >= 1,
            1 <= g < 0x1_0000_0000,
            n < 0x1_0000_0000_0000_0000,
        ensures
            r@ == sat((n as int * g as int) / f as int),
    {
        assert(n * (g as u128) < 0x1_0000_0000_0000_0000_0000_0000) by (nonlinear_arith)
            requires
                n < 0x1_0000_0000_0000_0000,
                1 <= g < 0x1_0000_0000,
        ;
        let m: u128 = n * (g as u128);
        let q: u128 = m / (f as u128);
        assert(q <= m) by (nonlinear_arith)
            requires
                q == m / (f as u128),
                f >= 1,
        ;
        Scalar::from_wide(q as i128)
    }
}

/// `rand::random_range` on the inclusive range of numerators `lo..=hi`: some
/// numerator of that range, drawn from the thread's generator. Nothing is
/// claimed of how the draws are spread. The call panics on an empty range,
/// which `requires` leaves out, and where the system gives the generator no
/// seed, which no argument changes.
#[verifier::external_body]
fn random_raw(lo: i64, hi: i64) -> (r: i64)
    requires
        lo <= hi,
    ensures
        lo <= r <= hi,
{
    rand::random_range(lo..=hi)
}

impl Scalar {
    /// A random scalar between `min` and `max`, both ends included.
    pub fn random_range(min: Scalar, max: Scalar) -> (r: Scalar)
        requires
            min@ <= max@,
        ensures
            min@ <= r@ <= max@,
    {
        proof {
            use_type_invariant(min);
            use_type_invariant(max);
        }
        Scalar { raw: random_raw(min.raw, max.raw) }
    }
}

/// Quotient of two wide integers, rounded toward zero.
fn wide_quot(a: i128, b: i128) -> (r: i128)
    requires
        b != 0,
        -0x4000_0000_0000_0000_0000_0000_0000_0000 <= a,
        a <= 0x4000_0000_0000_0000_0000_0000_0000_0000,
        -0x4000_0000_0000_0000_0000_0000_0000_0000 <= b,
        b <= 0x4000_0000_0000_0000_0000_0000_0000_0000,
    ensures
        r == quot(a as int, b as int),
{
    let ua: i128 = if a < 0 {
        -a
    } else {
        a
    };
    let ub: i128 = if b < 0 {
        -b
    } else {
        b
    };
    let q: i128 = ua / ub;
    assert(0 <= q <= ua) by (nonlinear_arith)
        requires
            q == ua / ub,
            ua >= 0,
            ub > 0,
    ;
    if (a < 0) == (b < 0) {
        q
    } else {
        -q
    }
}

impl core::ops::Neg for Scalar {
    type Output = Scalar;

    fn neg(self) -> (r: Scalar)
        ensures
            r@ == -self@,
    {
        proof {
            use_type_invariant(self);
        }
        Scalar { raw: -self.raw }
    }
}

impl NegSpecImpl for Scalar {
    open spec fn obeys_neg_spec() -> bool {
        true
    }

    open spec fn neg_req(self) -> bool {
        true
    }

    open spec fn neg_spec(self) -> Scalar {
        Scalar::of(-self@)
    }
}

impl core::ops::Add for Scalar {
    type Output = Scalar;

    fn add(self, rhs: Scalar) -> (r: Scalar)
        ensures
            r@ == fx_add(self@, rhs@),
    {
        Scalar::from_wide(self.raw as i128 + rhs.raw as i128)
    }
}

impl AddSpecImpl for Scalar {
    open spec fn obeys_add_spec() -> bool {
        true
    }

    open spec fn add_req(self, rhs: Scalar) -> bool {
        true
    }

    open spec fn add_spec(self, rhs: Scalar) -> Scalar {
        Scalar::of(fx_add(self@, rhs@))
    }
}

impl core::ops::Sub for Scalar {
    type Output = Scalar;

    fn sub(self, rhs: Scalar) -> (r: Scalar)
        ensures
            r@ == fx_sub(self@, rhs@),
    {
        Scalar::from_wide(self.raw as i128 - rhs.raw as i128)
    }
}

impl SubSpecImpl for Scalar {
    open spec fn obeys_sub_spec() -> bool {
        true
    }

    open spec fn sub_req(self, rhs: Scalar) -> bool {
        true
    }

    open spec fn sub_spec(self, rhs: Scalar) -> Scalar {
        Scalar::of(fx_sub(self@, rhs@))
    }
}

impl core::ops::Mul for Scalar {
    type Output = Scalar;

    fn mul(self, rhs: Scalar) -> (r: Scalar)
        ensures
            r@ == fx_mul(self@, rhs@),
    {
        proof {
            use_type_invariant(self);
            use_type_invariant(rhs);
        }
        let a: i128 = self.raw as i128;
        let b: i128 = rhs.raw as i128;
        assert(-0x4000_0000_0000_0000_0000_0000_0000_0000 <= a * b
            <= 0x4000_0000_0000_0000_0000_0000_0000_0000) by (nonlinear_arith)
            requires
                -0x8000_0000_0000_0000 <= a <= 0x8000_0000_0000_0000,
                -0x8000_0000_0000_0000 <= b <= 0x8000_0000_0000_0000,
        ;
        Scalar::from_wide(wide_quot(a * b, 0x1_0000_0000))
    }
}

impl MulSpecImpl for Scalar {
    open spec fn obeys_mul_spec() -> bool {
        true
    }

    open spec fn mul_req(self, rhs: Scalar) -> bool {
        true
    }

    open spec fn mul_spec(self, rhs: Scalar) -> Scalar {
        Scalar::of(fx_mul(self@, rhs@))
    }
}

impl core::ops::Div for Scalar {
    type Output = Scalar;

    fn div(self, rhs: Scalar) -> (r: Scalar)
        ensures
            r@ == fx_div(self@, rhs@),
    {
        proof {
            use_type_invariant(self);
            use_type_invariant(rhs);
        }
        let a: i128 = (self.raw as i128) * 0x1_0000_0000;
        Scalar::from_wide(wide_quot(a, rhs.raw as i128))
    }
}

impl DivSpecImpl for Scalar {
    open spec fn obeys_div_spec() -> bool {
        true
    }

    /// Division by zero is left out.
    open spec fn div_req(self, rhs: Scalar) -> bool {
        rhs@ != 0
    }

    open spec fn div_spec(self, rhs: Scalar) -> Scalar {
        Scalar::of(fx_div(self@, rhs@))
    }
}

} // verus!
