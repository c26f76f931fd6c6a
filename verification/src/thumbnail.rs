//! The size of a cover thumbnail. The side that follows from the image's aspect ratio
//! is computed in double precision, each step rounded to the nearest number with a
//! significand of 53 bits, ties to even; here in integers.

use vstd::prelude::*;

verus! {

/// The width that a thumbnail is fitted to.
pub const THUMB_W: u32 = 280;

/// The height that a thumbnail is fitted to.
pub const THUMB_H: u32 = 420;

/// The least significand of 53 bits.
pub const UNIT: u128 = 0x10_0000_0000_0000;

/// The longest side of a JPEG image.
pub const MAX_SIDE: u32 = 65535;

/// The least power of two from `p` on that scales `n / d` to a significand of 53 bits.
pub open spec fn scale_from(n: nat, d: nat, p: nat) -> nat
    decreases
            (if n * p >= UNIT * d {
                0
            } else {
                UNIT * d - n * p
            }),
{
    if n * p >= UNIT * d || n == 0 || p == 0 {
        p
    } else {
        proof {
            assert(n * (2 * p) > n * p) by (nonlinear_arith)
                requires
                    n > 0,
                    p > 0,
            ;
        }
        scale_from(n, d, 2 * p)
    }
}

/// The integer nearest to `n / d`; of two equally near, the even one.
pub open spec fn nearest(n: nat, d: nat) -> nat {
    let q = n / d;
    let r = n % d;
    if 2 * r > d || (2 * r == d && q % 2 == 1) {
        q + 1
    } else {
        q
    }
}

/// The double-precision number nearest to `n / d`, as a significand and the power of
/// two that it is divided by; for a quotient below the 53rd power of two.
pub open spec fn double_of(n: nat, d: nat) -> (nat, nat) {
    let p = scale_from(n, d, 1);
    (nearest(n * p, d), p)
}

/// The image is wider, for its height, than a thumbnail.
pub open spec fn is_wide(w: nat, h: nat) -> bool {
    w * THUMB_H > THUMB_W * h
}

/// The thumbnail's height by its width, in double precision: the full width divided
/// by the aspect ratio, rounded down.
pub open spec fn height_by_ratio(w: nat, h: nat) -> nat {
    if h == 0 {
        0
    } else {
        let ratio = double_of(w, h);
        let side = double_of(THUMB_W as nat * ratio.1, ratio.0);
        side.0 / side.1
    }
}

/// The thumbnail's width by its height, in double precision: the full height times
/// the aspect ratio, rounded down.
pub open spec fn width_by_ratio(w: nat, h: nat) -> nat {
    if w == 0 || h == 0 {
        0
    } else {
        let ratio = double_of(w, h);
        let side = double_of(THUMB_H as nat * ratio.0, ratio.1);
        side.0 / side.1
    }
}

/// The size that the image is fitted to, whether or not it is smaller already.
pub open spec fn fitted(w: nat, h: nat) -> (nat, nat) {
    if is_wide(w, h) {
        (THUMB_W as nat, height_by_ratio(w, h))
    } else {
        (width_by_ratio(w, h), THUMB_H as nat)
    }
}

/// The size of the thumbnail of an image; an image that is smaller keeps its size.
pub open spec fn thumb_size_of(w: nat, h: nat) -> (nat, nat) {
    let (x, y) = fitted(w, h);
    if x >= w && y >= h {
        (w, h)
    } else {
        (x, y)
    }
}

/// The scale is the least power of two that suffices.
proof fn lemma_scale_from(n: nat, d: nat, p: nat)
    requires
        n > 0,
        p > 0,
        d > 0,
    ensures
        ({
            let s = scale_from(n, d, p);
            &&& s >= p
            &&& n * s >= UNIT * d
            &&& s > p ==> n * s < 2 * (UNIT * d)
        }),
    decreases
            (if n * p >= UNIT * d {
                0
            } else {
                UNIT * d - n * p
            }),
{
    if n * p < UNIT * d {
        assert(n * (2 * p) > n * p) by (nonlinear_arith)
            requires
                n > 0,
                p > 0,
        ;
        assert(n * (2 * p) == 2 * (n * p)) by (nonlinear_arith);
        lemma_scale_from(n, d, 2 * p);
    }
}

/// The nearest integer differs from the quotient by at most a half.
proof fn lemma_nearest(n: nat, d: nat)
    requires
        d > 0,
    ensures
        2 * (nearest(n, d) * d) <= 2 * n + d,
        2 * (nearest(n, d) * d) + d >= 2 * n,
{
    let q = n / d;
    let r = n % d;
    assert(n == q * d + r && r < d) by (nonlinear_arith)
        requires
            d > 0,
            q == n / d,
            r == n % d,
    ;
    assert((q + 1) * d == q * d + d) by (nonlinear_arith);
}

/// A double-precision number differs from what it stands for by at most one part in
/// twice the least significand.
proof fn lemma_double_of(n: nat, d: nat)
    requires
        n > 0,
        d > 0,
        n < UNIT * d,
    ensures
        ({
            let (m, p) = double_of(n, d);
            &&& p > 0
            &&& m >= UNIT
            &&& m <= 2 * UNIT
            &&& n * p < 2 * (UNIT * d)
            &&& 2 * UNIT * (m * d) <= (2 * UNIT + 1) * (n * p)
            &&& 2 * UNIT * (m * d) >= (2 * UNIT - 1) * (n * p)
        }),
{
    let (m, p) = double_of(n, d);
    let v = n * p;
    lemma_scale_from(n, d, 1);
    assert(n * 1 == n);
    assert(p > 1);
    assert(v >= UNIT * d);
    assert(v < 2 * (UNIT * d));
    lemma_nearest(v, d);
    assert(m * d >= UNIT * d - d / 2 - 1);
    assert(m >= UNIT) by {
        if m < UNIT {
            assert(v / d >= UNIT) by (nonlinear_arith)
                requires
                    v >= UNIT * d,
                    d > 0,
            ;
        }
    }
    assert(m <= 2 * UNIT) by {
        assert(v / d < 2 * UNIT) by (nonlinear_arith)
            requires
                v < 2 * (UNIT * d),
                d > 0,
        ;
    }
    assert(UNIT * d <= v);
    let e = m * d;
    assert(2 * UNIT * e <= (2 * UNIT + 1) * v) by (nonlinear_arith)
        requires
            2 * e <= 2 * v + d,
            UNIT * d <= v,
            UNIT == 0x10_0000_0000_0000,
    ;
    assert(2 * UNIT * e >= (2 * UNIT - 1) * v) by (nonlinear_arith)
        requires
            2 * e + d >= 2 * v,
            UNIT * d <= v,
            UNIT == 0x10_0000_0000_0000,
    ;
}

/// Rounding down reaches `t` exactly if the number does.
proof fn lemma_floor(m: nat, p: nat, t: nat)
    requires
        p > 0,
    ensures
        m / p >= t <==> m >= t * p,
{
    let q = m / p;
    assert(q * p <= m && m < (q + 1) * p) by (nonlinear_arith)
        requires
            p > 0,
            q == m / p,
    ;
    if q >= t {
        assert(t * p <= q * p) by (nonlinear_arith)
            requires
                q >= t,
        ;
    } else {
        assert((q + 1) * p <= t * p) by (nonlinear_arith)
            requires
                q + 1 <= t,
        ;
    }
}

/// A common positive factor can be left out of an inequality.
proof fn lemma_cancel(a: int, b: int, c: int)
    requires
        c > 0,
    ensures
        a * c <= b * c <==> a <= b,
{
    assert(a * c <= b * c <==> a <= b) by (nonlinear_arith)
        requires
            c > 0,
    ;
}

/// The aspect ratio of a wide image, and the steps to the thumbnail's height.
proof fn lemma_wide_steps(w: nat, h: nat)
    requires
        0 < h,
        is_wide(w, h),
        w < UNIT,
    ensures
        w > 0,
        w < UNIT * h,
        ({
            let ratio = double_of(w, h);
            &&& 0 < THUMB_W * ratio.1 < UNIT * ratio.0
            &&& THUMB_W * ratio.1 < 1000 * UNIT
            &&& UNIT <= ratio.0 <= 2 * UNIT
        }),
{
    assert(w < UNIT * h) by (nonlinear_arith)
        requires
            w < UNIT,
            h > 0,
            UNIT == 0x10_0000_0000_0000,
    ;
    assert(w > 0);
    lemma_double_of(w, h);
    let (m, p) = double_of(w, h);
    assert(p < 3 * UNIT) by (nonlinear_arith)
        requires
            w * p < 2 * (UNIT * h),
            w * 420 > 280 * h,
            w > 0,
            UNIT == 0x10_0000_0000_0000,
    ;
    assert(280 * p < UNIT * m) by (nonlinear_arith)
        requires
            p < 3 * UNIT,
            m >= UNIT,
            UNIT == 0x10_0000_0000_0000,
    ;
}

/// What the thumbnail's height says of the image's sides: `t` is reached only if the
/// exact quotient comes near it, and missed only if it does not exceed it much.
proof fn lemma_height_by_ratio(w: nat, h: nat, t: nat)
    requires
        0 < h,
        is_wide(w, h),
        w < UNIT,
    ensures
        height_by_ratio(w, h) >= t ==> t * ((2 * UNIT - 1) * w) <= (2 * UNIT + 1) * (280 * h),
        height_by_ratio(w, h) < t ==> (2 * UNIT - 1) * (280 * h) <= t * ((2 * UNIT + 1) * w),
{
    lemma_wide_steps(w, h);
    lemma_double_of(w, h);
    let (m, p) = double_of(w, h);
    let n = THUMB_W as nat * p;
    lemma_double_of(n, m);
    let (m2, p2) = double_of(n, m);
    lemma_floor(m2, p2, t);
    let u: int = 2 * UNIT;
    if m2 >= t * p2 {
        assert((u * t * m) * p2 <= ((u + 1) * 280 * p) * p2) by (nonlinear_arith)
            requires
                m2 >= t * p2,
                u * (m2 * m) <= (u + 1) * (n * p2),
                n == 280 * p,
                u > 0,
                m > 0,
        {
            assert(u * ((t * p2) * m) <= u * (m2 * m));
        }
        lemma_cancel(u * t * m, (u + 1) * 280 * p, p2 as int);
        assert((t * ((u - 1) * w)) * p <= ((u + 1) * (280 * h)) * p) by (nonlinear_arith)
            requires
                u * t * m <= (u + 1) * 280 * p,
                u * (m * h) >= (u - 1) * (w * p),
                h > 0,
                t >= 0,
        {
            assert((u * t * m) * h <= ((u + 1) * 280 * p) * h);
            assert(t * (u * (m * h)) >= t * ((u - 1) * (w * p)));
        }
        lemma_cancel(t * ((u - 1) * w), (u + 1) * (280 * h), p as int);
    } else {
        assert(((u - 1) * 280 * p) * p2 <= (u * t * m) * p2) by (nonlinear_arith)
            requires
                m2 < t * p2,
                u * (m2 * m) >= (u - 1) * (n * p2),
                n == 280 * p,
                u > 0,
                m > 0,
        {
            assert(u * (m2 * m) <= u * ((t * p2) * m));
        }
        lemma_cancel((u - 1) * 280 * p, u * t * m, p2 as int);
        assert(((u - 1) * (280 * h)) * p <= (t * ((u + 1) * w)) * p) by (nonlinear_arith)
            requires
                (u - 1) * 280 * p <= u * t * m,
                u * (m * h) <= (u + 1) * (w * p),
                h > 0,
                t >= 0,
        {
            assert(((u - 1) * 280 * p) * h <= (u * t * m) * h);
            assert(t * (u * (m * h)) <= t * ((u + 1) * (w * p)));
        }
        lemma_cancel((u - 1) * (280 * h), t * ((u + 1) * w), p as int);
    }
}

/// The aspect ratio of an image that is not wide, and the steps to the thumbnail's
/// width.
proof fn lemma_tall_steps(w: nat, h: nat)
    requires
        0 < w,
        !is_wide(w, h),
        h <= MAX_SIDE,
    ensures
        h > 0,
        w < UNIT * h,
        ({
            let ratio = double_of(w, h);
            &&& 0 < THUMB_H * ratio.0 < UNIT * ratio.1
            &&& UNIT <= ratio.0 <= 2 * UNIT
            &&& 0 < ratio.1 < 2 * UNIT * MAX_SIDE
        }),
{
    assert(h > 0);
    assert(w < UNIT * h) by (nonlinear_arith)
        requires
            w * 420 <= 280 * h,
            h > 0,
            UNIT == 0x10_0000_0000_0000,
    ;
    lemma_double_of(w, h);
    let (m, p) = double_of(w, h);
    lemma_scale_from(w, h, 1);
    assert(p >= UNIT) by (nonlinear_arith)
        requires
            w * p >= UNIT * h,
            w * 420 <= 280 * h,
            w > 0,
            UNIT == 0x10_0000_0000_0000,
    ;
    assert(420 * m < UNIT * p) by (nonlinear_arith)
        requires
            p >= UNIT,
            m <= 2 * UNIT,
            UNIT == 0x10_0000_0000_0000,
    ;
    assert(p < 2 * UNIT * MAX_SIDE) by (nonlinear_arith)
        requires
            w * p < 2 * (UNIT * h),
            w > 0,
            h <= MAX_SIDE,
            MAX_SIDE == 65535,
            UNIT == 0x10_0000_0000_0000,
    ;
}

/// What the thumbnail's width says of the image's sides.
proof fn lemma_width_by_ratio(w: nat, h: nat, t: nat)
    requires
        0 < w,
        !is_wide(w, h),
        h <= MAX_SIDE,
    ensures
        ({
            let u: int = 2 * UNIT;
            &&& width_by_ratio(w, h) >= t ==> (u * u) * (t * h) <= ((u + 1) * (u + 1)) * (420 * w)
            &&& width_by_ratio(w, h) < t ==> ((u - 1) * (u - 1)) * (420 * w) <= (u * u) * (t * h)
        }),
{
    lemma_tall_steps(w, h);
    lemma_double_of(w, h);
    let (m, p) = double_of(w, h);
    let n = THUMB_H as nat * m;
    lemma_double_of(n, p);
    let (m2, p2) = double_of(n, p);
    lemma_floor(m2, p2, t);
    let u: int = 2 * UNIT;
    if m2 >= t * p2 {
        assert((u * t * p) * p2 <= ((u + 1) * 420 * m) * p2) by (nonlinear_arith)
            requires
                m2 >= t * p2,
                u * (m2 * p) <= (u + 1) * (n * p2),
                n == 420 * m,
                u > 0,
                p > 0,
        {
            assert(u * ((t * p2) * p) <= u * (m2 * p));
        }
        lemma_cancel(u * t * p, (u + 1) * 420 * m, p2 as int);
        assert(((u * u) * (t * h)) * p <= (((u + 1) * (u + 1)) * (420 * w)) * p)
            by (nonlinear_arith)
            requires
                u * t * p <= (u + 1) * 420 * m,
                u * (m * h) <= (u + 1) * (w * p),
                h > 0,
                u > 0,
        {
            assert((u * t * p) * (u * h) <= ((u + 1) * 420 * m) * (u * h));
            assert(((u + 1) * 420) * (u * (m * h)) <= ((u + 1) * 420) * ((u + 1) * (w * p)));
        }
        lemma_cancel((u * u) * (t * h), ((u + 1) * (u + 1)) * (420 * w), p as int);
    } else {
        assert(((u - 1) * 420 * m) * p2 <= (u * t * p) * p2) by (nonlinear_arith)
            requires
                m2 < t * p2,
                u * (m2 * p) >= (u - 1) * (n * p2),
                n == 420 * m,
                u > 0,
                p > 0,
        {
            assert(u * (m2 * p) <= u * ((t * p2) * p));
        }
        lemma_cancel((u - 1) * 420 * m, u * t * p, p2 as int);
        assert((((u - 1) * (u - 1)) * (420 * w)) * p <= ((u * u) * (t * h)) * p)
            by (nonlinear_arith)
            requires
                (u - 1) * 420 * m <= u * t * p,
                u * (m * h) >= (u - 1) * (w * p),
                h > 0,
                u > 1,
        {
            assert(((u - 1) * 420 * m) * (u * h) <= (u * t * p) * (u * h));
            assert(((u - 1) * 420) * (u * (m * h)) >= ((u - 1) * 420) * ((u - 1) * (w * p)));
        }
        lemma_cancel(((u - 1) * (u - 1)) * (420 * w), (u * u) * (t * h), p as int);
    }
}

/// The height that a wide image is fitted to stays within the thumbnail's, and within
/// the image's own unless the image is narrower than the thumbnail.
proof fn lemma_wide_fits(w: nat, h: nat)
    requires
        is_wide(w, h),
        w <= MAX_SIDE,
        h <= MAX_SIDE,
    ensures
        height_by_ratio(w, h) <= THUMB_H,
        w >= THUMB_W ==> height_by_ratio(w, h) <= h,
        w < THUMB_W ==> height_by_ratio(w, h) >= h,
{
    if h > 0 {
        lemma_height_by_ratio(w, h, 421);
        lemma_height_by_ratio(w, h, h + 1);
        lemma_height_by_ratio(w, h, h);
        let u: int = 2 * UNIT;
        assert(!(421 * ((u - 1) * w) <= (u + 1) * (280 * h))) by (nonlinear_arith)
            requires
                w * 420 > 280 * h,
                u == 0x20_0000_0000_0000,
        ;
        if w >= 280 {
            assert(!((h + 1) * ((u - 1) * w) <= (u + 1) * (280 * h))) by (nonlinear_arith)
                requires
                    w >= 280,
                    0 < h <= 65535,
                    u == 0x20_0000_0000_0000,
            ;
        } else {
            assert(!((u - 1) * (280 * h) <= h * ((u + 1) * w))) by (nonlinear_arith)
                requires
                    w <= 279,
                    h > 0,
                    u == 0x20_0000_0000_0000,
            ;
        }
    }
}

/// The width that another image is fitted to stays within the thumbnail's, and within
/// the image's own unless the image is lower than the thumbnail.
proof fn lemma_tall_fits(w: nat, h: nat)
    requires
        !is_wide(w, h),
        w <= MAX_SIDE,
        h <= MAX_SIDE,
    ensures
        width_by_ratio(w, h) <= THUMB_W,
        h >= THUMB_H ==> width_by_ratio(w, h) <= w,
        h < THUMB_H ==> width_by_ratio(w, h) >= w,
{
    if w > 0 {
        lemma_width_by_ratio(w, h, 281);
        lemma_width_by_ratio(w, h, w + 1);
        lemma_width_by_ratio(w, h, w);
        let u: int = 2 * UNIT;
        let a = u * u;
        let b = (u + 1) * (u + 1);
        let c = (u - 1) * (u - 1);
        assert(u * u == 0x400_0000_0000_0000_0000_0000_0000) by (nonlinear_arith)
            requires
                u == 0x20_0000_0000_0000,
        ;
        assert((u + 1) * (u + 1) == u * u + 2 * u + 1) by (nonlinear_arith);
        assert((u - 1) * (u - 1) == u * u - 2 * u + 1) by (nonlinear_arith);
        assert(!(a * (281 * h) <= b * (420 * w))) by (nonlinear_arith)
            requires
                w * 420 <= 280 * h,
                h > 0,
                a == 0x400_0000_0000_0000_0000_0000_0000,
                b == a + 0x40_0000_0000_0001,
        ;
        if h >= 420 {
            assert(!(a * ((w + 1) * h) <= b * (420 * w))) by (nonlinear_arith)
                requires
                    h >= 420,
                    0 < w <= 65535,
                    a == 0x400_0000_0000_0000_0000_0000_0000,
                    b == a + 0x40_0000_0000_0001,
            ;
        } else {
            assert(!(c * (420 * w) <= a * (w * h))) by (nonlinear_arith)
                requires
                    h <= 419,
                    w > 0,
                    a == 0x400_0000_0000_0000_0000_0000_0000,
                    c == a - 0x3f_ffff_ffff_ffff,
            ;
        }
    }
}

/// A thumbnail fits into 280 by 420.
pub proof fn law_thumbnail_fits(w: nat, h: nat)
    requires
        w <= MAX_SIDE,
        h <= MAX_SIDE,
    ensures
        thumb_size_of(w, h).0 <= THUMB_W,
        thumb_size_of(w, h).1 <= THUMB_H,
{
    if is_wide(w, h) {
        lemma_wide_fits(w, h);
    } else {
        lemma_tall_fits(w, h);
    }
}

/// A thumbnail is never larger than the image, on neither side; an image that fits
/// into the thumbnail with room to spare keeps its size.
pub proof fn law_thumbnail_never_enlarges(w: nat, h: nat)
    requires
        w <= MAX_SIDE,
        h <= MAX_SIDE,
    ensures
        thumb_size_of(w, h).0 <= w,
        thumb_size_of(w, h).1 <= h,
        w < THUMB_W && h < THUMB_H ==> thumb_size_of(w, h) == (w, h),
{
    if is_wide(w, h) {
        lemma_wide_fits(w, h);
    } else {
        lemma_tall_fits(w, h);
    }
}

/// The double-precision number nearest to `n / d`.
fn double(n: u128, d: u128) -> (r: (u128, u128))
    requires
        0 < d <= 2 * UNIT * MAX_SIDE,
        0 < n < UNIT * d,
    ensures
        (r.0 as nat, r.1 as nat) == double_of(n as nat, d as nat),
{
    let top = UNIT * d;
    let mut v = n;
    let mut p: u128 = 1;
    while v < top
        invariant
            top == UNIT * d,
            0 < d <= 2 * UNIT * MAX_SIDE,
            0 < n,
            p > 0,
            v == n * p,
            p <= v < 2 * top,
            scale_from(n as nat, d as nat, 1) == scale_from(n as nat, d as nat, p as nat),
        decreases 2 * top - v,
    {
        proof {
            let x: int = n as int;
            let y: int = p as int;
            assert(x * (y * 2) == (x * y) * 2) by (nonlinear_arith);
            assert(n as nat * (2 * p as nat) == n as nat * (p as nat * 2));
        }
        v = v * 2;
        p = p * 2;
    }
    let q = v / d;
    let rest = v % d;
    if 2 * rest > d || (2 * rest == d && q % 2 == 1) {
        (q + 1, p)
    } else {
        (q, p)
    }
}

/// The size of the thumbnail of an image.
pub fn thumb_size(w: u32, h: u32) -> (r: (u32, u32))
    requires
        w <= MAX_SIDE,
        h <= MAX_SIDE,
    ensures
        (r.0 as nat, r.1 as nat) == thumb_size_of(w as nat, h as nat),
{
    let wide = w as u64 * THUMB_H as u64 > THUMB_W as u64 * h as u64;
    let (x, y): (u32, u32) = if wide {
        if h == 0 {
            (THUMB_W, 0)
        } else {
            proof {
                lemma_wide_steps(w as nat, h as nat);
                lemma_wide_fits(w as nat, h as nat);
            }
            let ratio = double(w as u128, h as u128);
            let side = double(THUMB_W as u128 * ratio.1, ratio.0);
            proof {
                lemma_double_of(THUMB_W as nat * ratio.1 as nat, ratio.0 as nat);
            }
            (THUMB_W, (side.0 / side.1) as u32)
        }
    } else {
        if w == 0 {
            (0, THUMB_H)
        } else {
            proof {
                lemma_tall_steps(w as nat, h as nat);
                lemma_tall_fits(w as nat, h as nat);
            }
            let ratio = double(w as u128, h as u128);
            let side = double(THUMB_H as u128 * ratio.0, ratio.1);
            proof {
                lemma_double_of(THUMB_H as nat * ratio.0 as nat, ratio.1 as nat);
            }
            ((side.0 / side.1) as u32, THUMB_H)
        }
    };
    if x >= w && y >= h {
        (w, h)
    } else {
        (x, y)
    }
}

/// The thumbnail of an image that is wider, for its height, than 280 by 420 is 280 wide,
/// and as high as keeps the proportions, less than a pixel at most; that of any other is
/// 420 high, and as wide as keeps them. An image that is narrower or lower than that keeps
/// its size.
pub proof fn law_thumbnail_keeps_proportions(w: nat, h: nat)
    requires
        0 < w <= 65535,
        0 < h <= 65535,
    ensures
        3 * w > 2 * h && w >= 280 ==> {
            &&& thumb_size_of(w, h).0 == 280
            &&& thumb_size_of(w, h).1 * w <= 280 * h
            &&& 280 * h <= (thumb_size_of(w, h).1 + 1) * w
        },
        3 * w <= 2 * h && h >= 420 ==> {
            &&& thumb_size_of(w, h).1 == 420
            &&& thumb_size_of(w, h).0 * h <= 420 * w
            &&& 420 * w <= (thumb_size_of(w, h).0 + 1) * h
        },
        3 * w > 2 * h && w < 280 ==> thumb_size_of(w, h) == (w, h),
        3 * w <= 2 * h && h < 420 ==> thumb_size_of(w, h) == (w, h),
{
    let u: int = 2 * UNIT;
    assert(is_wide(w, h) <==> 3 * w > 2 * h);
    if is_wide(w, h) {
        lemma_wide_fits(w, h);
        let y = height_by_ratio(w, h);
        lemma_height_by_ratio(w, h, y);
        lemma_height_by_ratio(w, h, y + 1);
        assert(y * w <= 280 * h) by (nonlinear_arith)
            requires
                y * ((u - 1) * w) <= (u + 1) * (280 * h),
                0 <= y <= 420,
                0 < w <= 65535,
                0 < h <= 65535,
                u == 0x20_0000_0000_0000,
        {
            let a = y * w;
            let b = 280 * h;
            assert(y * ((u - 1) * w) == u * a - a);
            assert((u + 1) * (280 * h) == u * b + b);
            assert(a <= 420 * 65535);
            assert(u * (a - b) <= a + b);
        }
        assert(280 * h <= (y + 1) * w) by (nonlinear_arith)
            requires
                (u - 1) * (280 * h) <= (y + 1) * ((u + 1) * w),
                0 <= y <= 420,
                0 < w <= 65535,
                0 < h <= 65535,
                u == 0x20_0000_0000_0000,
        {
            let a = (y + 1) * w;
            let b = 280 * h;
            assert((y + 1) * ((u + 1) * w) == u * a + a);
            assert((u - 1) * (280 * h) == u * b - b);
            assert(a <= 421 * 65535);
            assert(u * (b - a) <= a + b);
        }
        if w >= 280 && thumb_size_of(w, h) == (w, h) {
            assert(w == 280);
            assert(h * w <= 280 * h && 280 * h <= (h + 1) * w) by (nonlinear_arith)
                requires
                    w == 280,
            ;
        }
    } else {
        lemma_tall_fits(w, h);
        let x = width_by_ratio(w, h);
        lemma_width_by_ratio(w, h, x);
        lemma_width_by_ratio(w, h, x + 1);
        assert(x * h <= 420 * w) by (nonlinear_arith)
            requires
                (u * u) * (x * h) <= ((u + 1) * (u + 1)) * (420 * w),
                0 <= x <= 280,
                0 < w <= 65535,
                0 < h <= 65535,
                u == 0x20_0000_0000_0000,
        {
            let a = x * h;
            let b = 420 * w;
            let uu = u * u;
            assert((u + 1) * (u + 1) == uu + 2 * u + 1);
            assert((uu + 2 * u + 1) * b == uu * b + (2 * u + 1) * b);
            assert(b <= 420 * 65535);
            assert((2 * u + 1) * b < uu);
            assert(uu * (a - b) < uu);
        }
        assert(420 * w <= (x + 1) * h) by (nonlinear_arith)
            requires
                ((u - 1) * (u - 1)) * (420 * w) <= (u * u) * ((x + 1) * h),
                0 <= x <= 280,
                0 < w <= 65535,
                0 < h <= 65535,
                u == 0x20_0000_0000_0000,
        {
            let a = (x + 1) * h;
            let b = 420 * w;
            let uu = u * u;
            assert((u - 1) * (u - 1) == uu - 2 * u + 1);
            assert((uu - 2 * u + 1) * b == uu * b - (2 * u - 1) * b);
            assert(b <= 420 * 65535);
            assert((2 * u - 1) * b < uu);
            assert(uu * (b - a) < uu);
        }
        if h >= 420 && thumb_size_of(w, h) == (w, h) {
            assert(h == 420);
            assert(w * h <= 420 * w && 420 * w <= (w + 1) * h) by (nonlinear_arith)
                requires
                    h == 420,
            ;
        }
    }
}

/// No integer is nearer to a quotient than the one it is rounded to; of two equally near
/// the even one is taken.
pub proof fn law_rounding_is_to_the_nearest(n: nat, d: nat, k: int)
    requires
        d > 0,
    ensures
        ({
            let far = nearest(n, d) * d - n;
            let other = k * d - n;
            &&& -d <= 2 * far <= d
            &&& (2 * far == d || 2 * far == -d) ==> nearest(n, d) % 2 == 0
            &&& k != nearest(n, d) ==> 2 * other >= d || 2 * other <= -d
        }),
{
    let m = nearest(n, d) as int;
    let q = n / d;
    let r = n % d;
    lemma_nearest(n, d);
    assert(n == q * d + r && r < d) by (nonlinear_arith)
        requires
            d > 0,
            q == n / d,
            r == n % d,
    ;
    assert((q + 1) * d == q * d + d) by (nonlinear_arith);
    if k > m {
        assert(k * d >= m * d + d) by (nonlinear_arith)
            requires
                k >= m + 1,
                d > 0,
        ;
    } else if k < m {
        assert(k * d <= m * d - d) by (nonlinear_arith)
            requires
                k <= m - 1,
                d > 0,
        ;
    }
}

/// A double-precision number has a significand of 53 bits, that nearest to the quotient
/// times the power of two that it is divided by.
pub proof fn law_double_has_53_bits(n: nat, d: nat)
    requires
        n > 0,
        d > 0,
        n < 0x10_0000_0000_0000 * d,
    ensures
        ({
            let (m, p) = double_of(n, d);
            &&& 0x10_0000_0000_0000 <= m <= 0x20_0000_0000_0000
            &&& m == nearest(n * p, d)
            &&& 0x10_0000_0000_0000 * d <= n * p < 0x20_0000_0000_0000 * d
            &&& exists|e: nat| p == #[trigger] vstd::arithmetic::power2::pow2(e)
        }),
{
    lemma_double_of(n, d);
    lemma_scale_from(n, d, 1);
    vstd::arithmetic::power2::lemma2_to64();
    lemma_scale_is_power(n, d, 0);
}

proof fn lemma_scale_is_power(n: nat, d: nat, e: nat)
    ensures
        exists|k: nat|
            scale_from(n, d, vstd::arithmetic::power2::pow2(e))
                == #[trigger] vstd::arithmetic::power2::pow2(k),
    decreases
            (if n * vstd::arithmetic::power2::pow2(e) >= UNIT * d {
                0
            } else {
                UNIT * d - n * vstd::arithmetic::power2::pow2(e)
            }),
{
    let p = vstd::arithmetic::power2::pow2(e);
    if !(n * p >= UNIT * d || n == 0 || p == 0) {
        vstd::arithmetic::power2::lemma_pow2_unfold(e + 1);
        assert(n * (2 * p) > n * p) by (nonlinear_arith)
            requires
                n > 0,
                p > 0,
        ;
        assert(vstd::arithmetic::power2::pow2(e + 1) == 2 * p);
        lemma_scale_is_power(n, d, e + 1);
    }
}

/// The side of a thumbnail that follows from the proportions is reckoned in double
/// precision: the ratio is rounded, the side is reckoned with the rounded ratio and rounded
/// again, and only then is it cut to whole pixels.
pub proof fn law_thumbnail_is_rounded_twice(w: nat, h: nat)
    requires
        0 < w <= 65535,
        0 < h <= 65535,
    ensures
        3 * w > 2 * h && w >= 280 ==> {
            let (m, p) = double_of(w, h);
            let (n, q) = double_of(280 * p, m);
            let side = thumb_size_of(w, h).1;
            side * q <= n && n < (side + 1) * q
        },
        3 * w <= 2 * h && h >= 420 ==> {
            let (m, p) = double_of(w, h);
            let (n, q) = double_of(420 * m, p);
            let side = thumb_size_of(w, h).0;
            side * q <= n && n < (side + 1) * q
        },
{
    if is_wide(w, h) {
        lemma_wide_steps(w, h);
        lemma_wide_fits(w, h);
        let (m, p) = double_of(w, h);
        lemma_double_of(280 * p, m);
        let (n, q) = double_of(280 * p, m);
        let side = n / q;
        lemma_floor(n, q, side);
        lemma_floor(n, q, side + 1);
    } else {
        lemma_tall_steps(w, h);
        lemma_tall_fits(w, h);
        let (m, p) = double_of(w, h);
        lemma_double_of(420 * m, p);
        let (n, q) = double_of(420 * m, p);
        let side = n / q;
        lemma_floor(n, q, side);
        lemma_floor(n, q, side + 1);
    }
}

} // verus!
