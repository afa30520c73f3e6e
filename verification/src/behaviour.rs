//! What a call of a kernel does, told by what goes in and what comes out.
//!
//! Every law is about one call: a row before it is `old`, the row after it is
//! `final`, and numbers stand for the lanes and channels in them.

use vstd::arithmetic::div_mod;
use vstd::prelude::*;

use crate::chunk;
use crate::lane;
use crate::lasx;
use crate::lsx;
use crate::m128;
use crate::m128::M128i;
use crate::m256;
use crate::m256::M256i;
use crate::pixel;
use crate::vector;

verus! {

/// Whether `q` is the integer nearest to `a * b / 255`.
pub open spec fn nearest(a: int, b: int, q: int) -> bool {
    -127 <= a * b - 255 * q <= 127
}

/// Whether `r` is what source-over leaves of `d` under a source `s` of alpha
/// `a`: `s + d * (256 - a) / 256`, rounded down and at most 255.
pub open spec fn composed(d: int, s: int, a: int, r: int) -> bool {
    &&& 0 <= r <= 255
    &&& r < 255 ==> 256 * (r - s) <= d * (256 - a) < 256 * (r - s) + 256
    &&& r == 255 ==> 256 * (255 - s) <= d * (256 - a)
}

/// Whether the chunk of `w` elements that element `i` is in ends within `len`.
pub open spec fn fits(i: int, w: int, len: int) -> bool {
    i - i % w + w <= len
}

/// Red, green, blue or alpha of a pixel, by its place from the low byte up.
pub open spec fn colour(p: u32, k: int) -> int {
    if k == 0 {
        p as int % 256
    } else if k == 1 {
        p as int / 256 % 256
    } else if k == 2 {
        p as int / 65536 % 256
    } else {
        p as int / 16777216
    }
}

/// The lanes of a narrow register.
pub open spec fn lanes128(v: M128i) -> Seq<u16> {
    v.h@
}

/// The lanes of a wide register, those of its low half first.
pub open spec fn lanes256(v: M256i) -> Seq<u16> {
    v.low.h@ + v.high.h@
}

/// The 32-bit word `p` of a register.
pub open spec fn word_of(v: Seq<u16>, p: int) -> int {
    v[2 * p] + 65536 * v[2 * p + 1]
}

/// Byte `j` of a register.
pub open spec fn byte_of(v: Seq<u16>, j: int) -> int {
    if j % 2 == 0 {
        v[j / 2] as int % 256
    } else {
        v[j / 2] as int / 256
    }
}

/// The nearest integer is the rounded quotient.
proof fn lemma_nearest(a: int, b: int, q: int)
    ensures
        nearest(a, b, q) <==> q == lane::div255(a * b),
{
    let n = a * b;
    assert(n + 127 == 255 * ((n + 127) / 255) + (n + 127) % 255);
}

/// Source-over as a relation.
proof fn lemma_composed(d: int, s: int, a: int)
    requires
        0 <= d <= 255,
        0 <= s <= 255,
        0 <= a <= 255,
    ensures
        composed(d, s, a, lane::over(d, s, 255 - a)),
        0 <= lane::over(d, s, 255 - a) <= 255,
{
    let m = d * (256 - a);
    assert(d * (255 - a + 1) == m);
    assert(0 <= m) by (nonlinear_arith)
        requires
            0 <= d,
            a <= 255,
            m == d * (256 - a),
    ;
    assert(m == 256 * (m / 256) + m % 256);
}

/// An element is in a whole chunk if its own chunk fits.
proof fn lemma_fits(i: int, w: int, len: int)
    requires
        0 <= i,
        0 < w,
        0 <= len,
    ensures
        i < pixel::whole(w, len) <==> fits(i, w, len),
{
    let (c, n) = (i / w, len / w);
    div_mod::lemma_fundamental_div_mod(i, w);
    div_mod::lemma_fundamental_div_mod(len, w);
    div_mod::lemma_mod_bound(i, w);
    div_mod::lemma_mod_bound(len, w);
    assert(i - i % w == w * c && len - len % w == w * n);
    if i < w * n {
        assert(c < n) by (nonlinear_arith)
            requires
                0 < w,
                w * c <= i < w * n,
        ;
        assert(w * c + w <= w * n) by (nonlinear_arith)
            requires
                0 < w,
                c < n,
        ;
    }
    if w * c + w <= len {
        assert(c + 1 <= n) by (nonlinear_arith)
            requires
                0 < w,
                w * c + w <= len < w * n + w,
        ;
        assert(w * c + w <= w * n) by (nonlinear_arith)
            requires
                0 < w,
                c + 1 <= n,
        ;
    }
}

/// The same for the shorter of two rows.
proof fn lemma_fits2(i: int, w: int, a: int, b: int)
    requires
        0 <= i,
        0 < w,
        0 <= a,
        0 <= b,
    ensures
        i < pixel::whole2(w, a, b) <==> fits(i, w, a) && fits(i, w, b),
{
    lemma_fits(i, w, if a <= b { a } else { b });
}

/// The same for the shortest of three rows.
proof fn lemma_fits3(i: int, w: int, a: int, b: int, c: int)
    requires
        0 <= i,
        0 < w,
        0 <= a,
        0 <= b,
        0 <= c,
    ensures
        i < pixel::whole3(w, a, b, c) <==> fits(i, w, a) && fits(i, w, b) && fits(i, w, c),
{
    lemma_fits2(i, w, if a <= b { a } else { b }, c);
}

/// The channels of source-over on pixels.
proof fn lemma_over_pixel(d: u32, s: u32, k: int)
    requires
        0 <= k < 4,
    ensures
        composed(colour(d, k), colour(s, k), colour(s, 3), colour(pixel::over_pixel(d, s), k)),
{
    let f = |c: int|
        lane::over(
            pixel::channel(d, c) as int,
            pixel::channel(s, c) as int,
            255 - pixel::channel(s, 3),
        ) as u8;
    chunk::lemma_channels_of_pixel(f);
    assert(pixel::channel(pixel::over_pixel(d, s), k) == f(k));
    lemma_composed(colour(d, k), colour(s, k), colour(s, 3));
}

/// Whether `r` is the combination of coverage `old` with the contribution `c`:
/// the nearest integer to `old * (255 - c) / 255` for `s`, to `old * c / 255`
/// for `i`, the distance of the two for `f`, and otherwise `c` more than the
/// nearest integer to `(255 - c) * old / 255`.
pub open spec fn combined(mode: u8, old: int, c: int, r: int) -> bool {
    if mode == 0x73 {
        nearest(old, 255 - c, r)
    } else if mode == 0x69 {
        nearest(old, c, r)
    } else if mode == 0x66 {
        0 <= r && (r == old - c || r == c - old)
    } else {
        nearest(255 - c, old, r - c)
    }
}

/// The difference of masks is symmetric, and so are intersection and addition:
/// it does not matter which mask comes first.
pub proof fn combination_is_symmetric(mode: u8, a: u8, b: u8)
    requires
        mode != 0x73,
    ensures
        pixel::mask_combined(mode, a, b) == pixel::mask_combined(mode, b, a),
{
    let (x, y) = (a as int, b as int);
    assert(x * y == y * x) by (nonlinear_arith);
    if mode != 0x69 && mode != 0x66 {
        assert((255 - y) * x == 255 * x - x * y) by (nonlinear_arith);
        assert((255 - x) * y == 255 * y - x * y) by (nonlinear_arith);
        lane::lemma_div255_of_product(255 - y, x);
        lane::lemma_div255_of_product(255 - x, y);
        let (p, q) = (lane::div255((255 - y) * x), lane::div255((255 - x) * y));
        lemma_nearest(255 - y, x, p);
        lemma_nearest(255 - x, y, q);
        assert(y + p == x + q);
    }
}

proof fn lemma_scaled_over(d: u8, c: u8, alpha: u8, s: int)
    ensures
        nearest(c as int, alpha as int, s) ==> composed(
            d as int,
            s,
            s,
            pixel::alpha_scaled_over(d, c, alpha) as int,
        ),
{
    lemma_nearest(c as int, alpha as int, s);
    lane::lemma_div255_of_product(c as int, alpha as int);
    lemma_composed(d as int, lane::div255(c * alpha), lane::div255(c * alpha));
}

proof fn lemma_product(d: u8, f: u8)
    ensures
        nearest(d as int, f as int, pixel::alpha_product(d, f) as int),
{
    lane::lemma_div255_of_product(d as int, f as int);
    lemma_nearest(d as int, f as int, lane::div255(d * f));
}

proof fn lemma_matte(d: u8, s: u8, opacity: u8, inverted: bool, f: int)
    ensures
        nearest(s as int, opacity as int, f) ==> nearest(
            d as int,
            if inverted { 255 - f } else { f },
            pixel::alpha_product(d, pixel::matte_factor(s, opacity, inverted)) as int,
        ),
{
    lemma_nearest(s as int, opacity as int, f);
    lane::lemma_div255_of_product(s as int, opacity as int);
    lemma_product(d, pixel::matte_factor(s, opacity, inverted));
}

proof fn lemma_combined(mode: u8, old: u8, s: u8, inverted: bool, opacity: u8, c: int)
    ensures
        nearest(if inverted { 255 - s } else { s as int }, opacity as int, c) ==> combined(
            mode,
            old as int,
            c,
            pixel::mask_combined(mode, old, pixel::mask_contribution(s, inverted, opacity)) as int,
        ),
{
    let t = if inverted {
        255 - s
    } else {
        s as int
    };
    lemma_nearest(t, opacity as int, c);
    lane::lemma_div255_of_product(t, opacity as int);
    let q = pixel::mask_contribution(s, inverted, opacity) as int;
    assert(q == lane::div255(t * opacity));
    if mode == 0x73 {
        lane::lemma_div255_of_product(old as int, 255 - q);
        lemma_nearest(old as int, 255 - q, lane::div255(old * (255 - q)));
    } else if mode == 0x69 {
        lane::lemma_div255_of_product(old as int, q);
        lemma_nearest(old as int, q, lane::div255(old * q));
    } else if mode != 0x66 {
        lane::lemma_div255_of_product(255 - q, old as int);
        lemma_nearest(255 - q, old as int, lane::div255((255 - q) * old));
    }
}

proof fn lemma_ends(mode: u8, old: int, c: int, r: int)
    requires
        0 <= old <= 255,
        0 <= c <= 255,
        0 <= r <= 255,
        nearest(c, 255, c) ==> combined(mode, old, c, r),
    ensures
        mode == 0x73 && old == 255 ==> r == 255 - c,
        mode == 0x73 && c == 255 ==> r == 0,
        mode == 0x73 && c == 0 ==> r == old,
        mode == 0x69 && c == 255 ==> r == old,
        mode == 0x69 && c == 0 ==> r == 0,
        mode == 0x66 && c == old ==> r == 0,
        mode == 0x66 && c == 0 ==> r == old,
        mode != 0x73 && mode != 0x69 && mode != 0x66 && c == 0 ==> r == old,
        mode != 0x73 && mode != 0x69 && mode != 0x66 && c == 255 ==> r == 255,
{
    assert(nearest(c, 255, c));
    assert(combined(mode, old, c, r));
    if old == 255 {
        assert(old * (255 - c) == 255 * (255 - c));
    }
    if c == 255 {
        assert(old * (255 - c) == 0 && old * c == 255 * old && (255 - c) * old == 0);
    }
    if c == 0 {
        assert(old * (255 - c) == 255 * old && old * c == 0 && (255 - c) * old == 255 * old);
    }
}

/// Every pixel whose chunk all rows fill is composed with `coverage` at
/// `alpha`, and every other pixel stays.
pub proof fn alpha_blend_solid_lsx_call(
    dst: &mut [u8],
    coverage: &[u8],
    alpha: u8,
    i: int,
    s: int,
)
    requires
        call_ensures(lsx::alpha_blend_solid_lsx, (dst, coverage, alpha), ()),
        0 <= i < old(dst).len(),
    ensures
        final(dst).len() == old(dst).len(),
        fits(i, 16, old(dst).len() as int) && fits(i, 16, coverage.len() as int) && nearest(
            coverage@[i] as int,
            alpha as int,
            s,
        ) ==> composed(old(dst)@[i] as int, s, s, final(dst)@[i] as int),
        !(fits(i, 16, old(dst).len() as int) && fits(i, 16, coverage.len() as int))
            ==> final(dst)@[i] == old(dst)@[i],
{
    lemma_fits2(i, 16, old(dst).len() as int, coverage.len() as int);
    if fits(i, 16, old(dst).len() as int) && fits(i, 16, coverage.len() as int) {
        lemma_scaled_over(old(dst)@[i], coverage@[i], alpha, s);
    }
}

/// Every pixel whose chunk all rows fill is composed with the product of `lhs`
/// and `rhs`, and every other pixel stays.
pub proof fn alpha_blend_product_lsx_call(dst: &mut [u8], lhs: &[u8], rhs: &[u8], i: int, s: int)
    requires
        call_ensures(lsx::alpha_blend_product_lsx, (dst, lhs, rhs), ()),
        0 <= i < old(dst).len(),
    ensures
        final(dst).len() == old(dst).len(),
        fits(i, 16, old(dst).len() as int) && fits(i, 16, lhs.len() as int) && fits(
            i,
            16,
            rhs.len() as int,
        ) && nearest(lhs@[i] as int, rhs@[i] as int, s) ==> composed(
            old(dst)@[i] as int,
            s,
            s,
            final(dst)@[i] as int,
        ),
        !(fits(i, 16, old(dst).len() as int) && fits(i, 16, lhs.len() as int) && fits(
            i,
            16,
            rhs.len() as int,
        )) ==> final(dst)@[i] == old(dst)@[i],
{
    lemma_fits3(i, 16, old(dst).len() as int, lhs.len() as int, rhs.len() as int);
    if i < pixel::whole3(16, old(dst).len() as int, lhs.len() as int, rhs.len() as int) {
        lemma_scaled_over(old(dst)@[i], lhs@[i], rhs@[i], s);
    }
}

/// Every pixel in a whole chunk is composed with `source`, and every other
/// pixel stays.
pub proof fn alpha_blend_uniform_lsx_call(dst: &mut [u8], source: u8, i: int)
    requires
        call_ensures(lsx::alpha_blend_uniform_lsx, (dst, source), ()),
        0 <= i < old(dst).len(),
    ensures
        final(dst).len() == old(dst).len(),
        fits(i, 16, old(dst).len() as int) ==> composed(
            old(dst)@[i] as int,
            source as int,
            source as int,
            final(dst)@[i] as int,
        ),
        !fits(i, 16, old(dst).len() as int) ==> final(dst)@[i] == old(dst)@[i],
{
    lemma_fits(i, 16, old(dst).len() as int);
    lemma_composed(old(dst)@[i] as int, source as int, source as int);
}

/// Every pixel whose chunk both rows fill is composed with `src` at `opacity`,
/// and every other pixel stays.
pub proof fn alpha_composite_over_lsx_call(
    dst: &mut [u8],
    src: &[u8],
    opacity: u8,
    i: int,
    s: int,
)
    requires
        call_ensures(lsx::alpha_composite_over_lsx, (dst, src, opacity), ()),
        0 <= i < old(dst).len(),
    ensures
        final(dst).len() == old(dst).len(),
        fits(i, 16, old(dst).len() as int) && fits(i, 16, src.len() as int) && nearest(
            src@[i] as int,
            opacity as int,
            s,
        ) ==> composed(old(dst)@[i] as int, s, s, final(dst)@[i] as int),
        !(fits(i, 16, old(dst).len() as int) && fits(i, 16, src.len() as int)) ==> final(dst)@[i]
            == old(dst)@[i],
{
    lemma_fits2(i, 16, old(dst).len() as int, src.len() as int);
    if fits(i, 16, old(dst).len() as int) && fits(i, 16, src.len() as int) {
        lemma_scaled_over(old(dst)@[i], src@[i], opacity, s);
    }
}

/// Every pixel whose chunk both rows fill becomes its product with the factor
/// there, and every other pixel stays.
pub proof fn alpha_multiply_lsx_call(dst: &mut [u8], factors: &[u8], i: int)
    requires
        call_ensures(lsx::alpha_multiply_lsx, (dst, factors), ()),
        0 <= i < old(dst).len(),
    ensures
        final(dst).len() == old(dst).len(),
        fits(i, 16, old(dst).len() as int) && fits(i, 16, factors.len() as int) ==> nearest(
            old(dst)@[i] as int,
            factors@[i] as int,
            final(dst)@[i] as int,
        ),
        !(fits(i, 16, old(dst).len() as int) && fits(i, 16, factors.len() as int))
            ==> final(dst)@[i] == old(dst)@[i],
{
    lemma_fits2(i, 16, old(dst).len() as int, factors.len() as int);
    if fits(i, 16, old(dst).len() as int) && fits(i, 16, factors.len() as int) {
        lemma_product(old(dst)@[i], factors@[i]);
    }
}

/// Every pixel whose chunk both rows fill becomes its product with the matte at
/// `opacity`, or with what that leaves of 255, and every other pixel stays.
pub proof fn alpha_matte_lsx_call(
    dst: &mut [u8],
    src: &[u8],
    opacity: u8,
    inverted: bool,
    i: int,
    f: int,
)
    requires
        call_ensures(lsx::alpha_matte_lsx, (dst, src, opacity, inverted), ()),
        0 <= i < old(dst).len(),
    ensures
        final(dst).len() == old(dst).len(),
        fits(i, 16, old(dst).len() as int) && fits(i, 16, src.len() as int) && nearest(
            src@[i] as int,
            opacity as int,
            f,
        ) ==> nearest(
            old(dst)@[i] as int,
            if inverted { 255 - f } else { f },
            final(dst)@[i] as int,
        ),
        !(fits(i, 16, old(dst).len() as int) && fits(i, 16, src.len() as int)) ==> final(dst)@[i]
            == old(dst)@[i],
{
    lemma_fits2(i, 16, old(dst).len() as int, src.len() as int);
    if fits(i, 16, old(dst).len() as int) && fits(i, 16, src.len() as int) {
        lemma_matte(old(dst)@[i], src@[i], opacity, inverted, f);
    }
}

/// Every pixel whose chunk both rows fill is combined with what the mask, or
/// its complement, contributes at `opacity`, and every other pixel stays.
pub proof fn alpha_mask_combine_lsx_call(
    dst: &mut [u8],
    src: &[u8],
    mode: u8,
    inverted: bool,
    opacity: u8,
    i: int,
    c: int,
)
    requires
        call_ensures(lsx::alpha_mask_combine_lsx, (dst, src, mode, inverted, opacity), ()),
        0 <= i < old(dst).len(),
    ensures
        final(dst).len() == old(dst).len(),
        fits(i, 16, old(dst).len() as int) && fits(i, 16, src.len() as int) && nearest(
            if inverted { 255 - src@[i] } else { src@[i] as int },
            opacity as int,
            c,
        ) ==> combined(mode, old(dst)@[i] as int, c, final(dst)@[i] as int),
        !(fits(i, 16, old(dst).len() as int) && fits(i, 16, src.len() as int)) ==> final(dst)@[i]
            == old(dst)@[i],
{
    lemma_fits2(i, 16, old(dst).len() as int, src.len() as int);
    if fits(i, 16, old(dst).len() as int) && fits(i, 16, src.len() as int) {
        lemma_combined(mode, old(dst)@[i], src@[i], inverted, opacity, c);
    }
}

/// A full mask at full opacity takes everything away and keeps everything, an
/// empty one does neither, and full coverage keeps what a mask leaves of it.
pub proof fn alpha_mask_combine_lsx_ends(dst: &mut [u8], src: &[u8], mode: u8, i: int)
    requires
        call_ensures(lsx::alpha_mask_combine_lsx, (dst, src, mode, false, 255u8), ()),
        0 <= i < old(dst).len(),
        fits(i, 16, old(dst).len() as int),
        fits(i, 16, src.len() as int),
    ensures
        mode == 0x73 && old(dst)@[i] == 255 ==> final(dst)@[i] == 255 - src@[i],
        mode == 0x73 && src@[i] == 255 ==> final(dst)@[i] == 0,
        mode == 0x73 && src@[i] == 0 ==> final(dst)@[i] == old(dst)@[i],
        mode == 0x69 && src@[i] == 255 ==> final(dst)@[i] == old(dst)@[i],
        mode == 0x69 && src@[i] == 0 ==> final(dst)@[i] == 0,
        mode == 0x66 && src@[i] == old(dst)@[i] ==> final(dst)@[i] == 0,
        mode == 0x66 && src@[i] == 0 ==> final(dst)@[i] == old(dst)@[i],
        mode != 0x73 && mode != 0x69 && mode != 0x66 && src@[i] == 0 ==> final(dst)@[i] == old(
            dst,
        )@[i],
        mode != 0x73 && mode != 0x69 && mode != 0x66 && src@[i] == 255 ==> final(dst)@[i] == 255,
{
    alpha_mask_combine_lsx_call(dst, src, mode, false, 255, i, src@[i] as int);
    lemma_ends(mode, old(dst)@[i] as int, src@[i] as int, final(dst)@[i] as int);
}

/// Every pixel whose chunk all rows fill is composed with `coverage` at
/// `alpha`, and every other pixel stays.
pub proof fn alpha_blend_solid_lasx_call(
    dst: &mut [u8],
    coverage: &[u8],
    alpha: u8,
    i: int,
    s: int,
)
    requires
        call_ensures(lasx::alpha_blend_solid_lasx, (dst, coverage, alpha), ()),
        0 <= i < old(dst).len(),
    ensures
        final(dst).len() == old(dst).len(),
        fits(i, 32, old(dst).len() as int) && fits(i, 32, coverage.len() as int) && nearest(
            coverage@[i] as int,
            alpha as int,
            s,
        ) ==> composed(old(dst)@[i] as int, s, s, final(dst)@[i] as int),
        !(fits(i, 32, old(dst).len() as int) && fits(i, 32, coverage.len() as int))
            ==> final(dst)@[i] == old(dst)@[i],
{
    lemma_fits2(i, 32, old(dst).len() as int, coverage.len() as int);
    if fits(i, 32, old(dst).len() as int) && fits(i, 32, coverage.len() as int) {
        lemma_scaled_over(old(dst)@[i], coverage@[i], alpha, s);
    }
}

/// Every pixel whose chunk all rows fill is composed with the product of `lhs`
/// and `rhs`, and every other pixel stays.
pub proof fn alpha_blend_product_lasx_call(dst: &mut [u8], lhs: &[u8], rhs: &[u8], i: int, s: int)
    requires
        call_ensures(lasx::alpha_blend_product_lasx, (dst, lhs, rhs), ()),
        0 <= i < old(dst).len(),
    ensures
        final(dst).len() == old(dst).len(),
        fits(i, 32, old(dst).len() as int) && fits(i, 32, lhs.len() as int) && fits(
            i,
            32,
            rhs.len() as int,
        ) && nearest(lhs@[i] as int, rhs@[i] as int, s) ==> composed(
            old(dst)@[i] as int,
            s,
            s,
            final(dst)@[i] as int,
        ),
        !(fits(i, 32, old(dst).len() as int) && fits(i, 32, lhs.len() as int) && fits(
            i,
            32,
            rhs.len() as int,
        )) ==> final(dst)@[i] == old(dst)@[i],
{
    lemma_fits3(i, 32, old(dst).len() as int, lhs.len() as int, rhs.len() as int);
    if i < pixel::whole3(32, old(dst).len() as int, lhs.len() as int, rhs.len() as int) {
        lemma_scaled_over(old(dst)@[i], lhs@[i], rhs@[i], s);
    }
}

/// Every pixel in a whole chunk is composed with `source`, and every other
/// pixel stays.
pub proof fn alpha_blend_uniform_lasx_call(dst: &mut [u8], source: u8, i: int)
    requires
        call_ensures(lasx::alpha_blend_uniform_lasx, (dst, source), ()),
        0 <= i < old(dst).len(),
    ensures
        final(dst).len() == old(dst).len(),
        fits(i, 32, old(dst).len() as int) ==> composed(
            old(dst)@[i] as int,
            source as int,
            source as int,
            final(dst)@[i] as int,
        ),
        !fits(i, 32, old(dst).len() as int) ==> final(dst)@[i] == old(dst)@[i],
{
    lemma_fits(i, 32, old(dst).len() as int);
    lemma_composed(old(dst)@[i] as int, source as int, source as int);
}

/// Every pixel whose chunk both rows fill is composed with `src` at `opacity`,
/// and every other pixel stays.
pub proof fn alpha_composite_over_lasx_call(
    dst: &mut [u8],
    src: &[u8],
    opacity: u8,
    i: int,
    s: int,
)
    requires
        call_ensures(lasx::alpha_composite_over_lasx, (dst, src, opacity), ()),
        0 <= i < old(dst).len(),
    ensures
        final(dst).len() == old(dst).len(),
        fits(i, 32, old(dst).len() as int) && fits(i, 32, src.len() as int) && nearest(
            src@[i] as int,
            opacity as int,
            s,
        ) ==> composed(old(dst)@[i] as int, s, s, final(dst)@[i] as int),
        !(fits(i, 32, old(dst).len() as int) && fits(i, 32, src.len() as int)) ==> final(dst)@[i]
            == old(dst)@[i],
{
    lemma_fits2(i, 32, old(dst).len() as int, src.len() as int);
    if fits(i, 32, old(dst).len() as int) && fits(i, 32, src.len() as int) {
        lemma_scaled_over(old(dst)@[i], src@[i], opacity, s);
    }
}

/// Every pixel whose chunk both rows fill becomes its product with the factor
/// there, and every other pixel stays.
pub proof fn alpha_multiply_lasx_call(dst: &mut [u8], factors: &[u8], i: int)
    requires
        call_ensures(lasx::alpha_multiply_lasx, (dst, factors), ()),
        0 <= i < old(dst).len(),
    ensures
        final(dst).len() == old(dst).len(),
        fits(i, 32, old(dst).len() as int) && fits(i, 32, factors.len() as int) ==> nearest(
            old(dst)@[i] as int,
            factors@[i] as int,
            final(dst)@[i] as int,
        ),
        !(fits(i, 32, old(dst).len() as int) && fits(i, 32, factors.len() as int))
            ==> final(dst)@[i] == old(dst)@[i],
{
    lemma_fits2(i, 32, old(dst).len() as int, factors.len() as int);
    if fits(i, 32, old(dst).len() as int) && fits(i, 32, factors.len() as int) {
        lemma_product(old(dst)@[i], factors@[i]);
    }
}

/// Every pixel whose chunk both rows fill becomes its product with the matte at
/// `opacity`, or with what that leaves of 255, and every other pixel stays.
pub proof fn alpha_matte_lasx_call(
    dst: &mut [u8],
    src: &[u8],
    opacity: u8,
    inverted: bool,
    i: int,
    f: int,
)
    requires
        call_ensures(lasx::alpha_matte_lasx, (dst, src, opacity, inverted), ()),
        0 <= i < old(dst).len(),
    ensures
        final(dst).len() == old(dst).len(),
        fits(i, 32, old(dst).len() as int) && fits(i, 32, src.len() as int) && nearest(
            src@[i] as int,
            opacity as int,
            f,
        ) ==> nearest(
            old(dst)@[i] as int,
            if inverted { 255 - f } else { f },
            final(dst)@[i] as int,
        ),
        !(fits(i, 32, old(dst).len() as int) && fits(i, 32, src.len() as int)) ==> final(dst)@[i]
            == old(dst)@[i],
{
    lemma_fits2(i, 32, old(dst).len() as int, src.len() as int);
    if fits(i, 32, old(dst).len() as int) && fits(i, 32, src.len() as int) {
        lemma_matte(old(dst)@[i], src@[i], opacity, inverted, f);
    }
}

/// Every pixel whose chunk both rows fill is combined with what the mask, or
/// its complement, contributes at `opacity`, and every other pixel stays.
pub proof fn alpha_mask_combine_lasx_call(
    dst: &mut [u8],
    src: &[u8],
    mode: u8,
    inverted: bool,
    opacity: u8,
    i: int,
    c: int,
)
    requires
        call_ensures(lasx::alpha_mask_combine_lasx, (dst, src, mode, inverted, opacity), ()),
        0 <= i < old(dst).len(),
    ensures
        final(dst).len() == old(dst).len(),
        fits(i, 32, old(dst).len() as int) && fits(i, 32, src.len() as int) && nearest(
            if inverted { 255 - src@[i] } else { src@[i] as int },
            opacity as int,
            c,
        ) ==> combined(mode, old(dst)@[i] as int, c, final(dst)@[i] as int),
        !(fits(i, 32, old(dst).len() as int) && fits(i, 32, src.len() as int)) ==> final(dst)@[i]
            == old(dst)@[i],
{
    lemma_fits2(i, 32, old(dst).len() as int, src.len() as int);
    if fits(i, 32, old(dst).len() as int) && fits(i, 32, src.len() as int) {
        lemma_combined(mode, old(dst)@[i], src@[i], inverted, opacity, c);
    }
}

/// A full mask at full opacity takes everything away and keeps everything, an
/// empty one does neither, and full coverage keeps what a mask leaves of it.
pub proof fn alpha_mask_combine_lasx_ends(dst: &mut [u8], src: &[u8], mode: u8, i: int)
    requires
        call_ensures(lasx::alpha_mask_combine_lasx, (dst, src, mode, false, 255u8), ()),
        0 <= i < old(dst).len(),
        fits(i, 32, old(dst).len() as int),
        fits(i, 32, src.len() as int),
    ensures
        mode == 0x73 && old(dst)@[i] == 255 ==> final(dst)@[i] == 255 - src@[i],
        mode == 0x73 && src@[i] == 255 ==> final(dst)@[i] == 0,
        mode == 0x73 && src@[i] == 0 ==> final(dst)@[i] == old(dst)@[i],
        mode == 0x69 && src@[i] == 255 ==> final(dst)@[i] == old(dst)@[i],
        mode == 0x69 && src@[i] == 0 ==> final(dst)@[i] == 0,
        mode == 0x66 && src@[i] == old(dst)@[i] ==> final(dst)@[i] == 0,
        mode == 0x66 && src@[i] == 0 ==> final(dst)@[i] == old(dst)@[i],
        mode != 0x73 && mode != 0x69 && mode != 0x66 && src@[i] == 0 ==> final(dst)@[i] == old(
            dst,
        )@[i],
        mode != 0x73 && mode != 0x69 && mode != 0x66 && src@[i] == 255 ==> final(dst)@[i] == 255,
{
    alpha_mask_combine_lasx_call(dst, src, mode, false, 255, i, src@[i] as int);
    lemma_ends(mode, old(dst)@[i] as int, src@[i] as int, final(dst)@[i] as int);
}

/// Whether `q` is `x + 127`, cut to sixteen bits, divided by 255 and rounded
/// down.
pub open spec fn quotient16(x: int, q: int) -> bool {
    255 * q <= (x + 127) % 65536 < 255 * q + 255
}

/// What is left of a sixteen-bit sum after the signed minimum with 255, cut to
/// a byte.
pub open spec fn clamped16(sum: int) -> int {
    if sum < 32768 {
        if sum <= 255 {
            sum
        } else {
            255
        }
    } else {
        sum % 256
    }
}

/// What lane source-over of `s` with alpha `a` leaves of `d`, modulo 2^16.
pub open spec fn composed16(d: int, s: int, a: int) -> int {
    clamped16((s + (d * (256 - a)) % 65536 / 256) % 65536)
}

/// The sixteen bits that come to stand in lane `k` when four values of 32 bits
/// are put sixteen bits apart: its own low half, and the high half of the one
/// below.
pub open spec fn spread(a: u32, b: u32, c: u32, d: u32, k: int) -> int {
    if k == 0 {
        a as int % 65536
    } else if k == 1 {
        (b | (a >> 16)) as int % 65536
    } else if k == 2 {
        (c | (b >> 16)) as int % 65536
    } else {
        (d | (c >> 16)) as int % 65536
    }
}

proof fn lemma_quotient16(x: int, q: int)
    ensures
        quotient16(x, q) <==> q == lane::lane_div255(lane::wrap16(x)),
{
    let y = (x + 127) % 65536;
    div_mod::lemma_add_mod_noop(x, 127, 65536);
    assert(lane::wrap16(lane::wrap16(x) + 127) == y) by {
        assert(127int % 65536 == 127);
    }
    crate::laws::reciprocal_is_exact(y);
    reveal(lane::lane_div255);
    assert(y == 255 * (y / 255) + y % 255);
}

proof fn lemma_composed16(d: u8, s: u16, a: int)
    ensures
        pixel::lane_over_byte(d, s, lane::wrap16(255 - a)) == composed16(d as int, s as int, a),
{
    let inv = lane::wrap16(255 - a);
    let e = lane::wrap16(inv + 1);
    assert(e == (256 - a) % 65536) by {
        div_mod::lemma_add_mod_noop(255 - a, 1, 65536);
        assert(1int % 65536 == 1);
    }
    let m = lane::wrap16(d as u16 * e);
    assert(m == (d * (256 - a)) % 65536) by {
        div_mod::lemma_mul_mod_noop_right(d as int, 256 - a, 65536);
    }
    reveal(lane::lane_over);
}

proof fn lemma_spread(a: u32, b: u32, c: u32, d: u32, k: int)
    requires
        0 <= k < 4,
    ensures
        vector::pattern_lane(pixel::lane_pattern(a, b, c, d), k) == spread(a, b, c, d, k),
{
    let x: u64 = a as u64 | (b as u64) << 16 | (c as u64) << 32 | (d as u64) << 48;
    assert(x % 0x1_0000 == (a % 0x1_0000) as u64 && x / 0x1_0000 % 0x1_0000 == ((b | (a >> 16))
        % 0x1_0000) as u64 && x / 0x1_0000_0000 % 0x1_0000 == ((c | (b >> 16)) % 0x1_0000) as u64
        && x / 0x1_0000_0000_0000 == ((d | (c >> 16)) % 0x1_0000) as u64) by (bit_vector)
        requires
            x == a as u64 | (b as u64) << 16 | (c as u64) << 32 | (d as u64) << 48,
    ;
}

proof fn lemma_colours(f: spec_fn(int) -> u8, k: int)
    requires
        0 <= k < 4,
    ensures
        colour(pixel::pixel_of(f), k) == f(k),
{
    chunk::lemma_channels_of_pixel(f);
    assert(pixel::channel(pixel::pixel_of(f), k) == f(k));
}

proof fn lemma_matte_pixel(d: u32, s: u32, opacity: u8, inverted: bool, k: int, f: int)
    requires
        0 <= k < 4,
    ensures
        nearest(colour(s, 3), opacity as int, f) ==> nearest(
            colour(d, k),
            if inverted { 255 - f } else { f },
            colour(pixel::matte_pixel(d, s, opacity, inverted), k),
        ),
{
    let g = |c: int|
        pixel::alpha_product(
            pixel::channel(d, c),
            pixel::matte_factor(pixel::channel(s, 3), opacity, inverted),
        );
    lemma_colours(g, k);
    lemma_matte(pixel::channel(d, k), pixel::channel(s, 3), opacity, inverted, f);
}

proof fn lemma_premultiplied(r: u8, g: u8, b: u8, a: u8, k: int, s: int)
    requires
        0 <= k < 4,
        k == 0 ==> nearest(r as int, a as int, s),
        k == 1 ==> nearest(g as int, a as int, s),
        k == 2 ==> nearest(b as int, a as int, s),
        k == 3 ==> s == a,
    ensures
        colour(pixel::premultiplied(r, g, b, a), k) == s,
{
    let f = |c: int|
        if c == 0 {
            lane::div255(r * a) as u8
        } else if c == 1 {
            lane::div255(g * a) as u8
        } else if c == 2 {
            lane::div255(b * a) as u8
        } else {
            a
        };
    lemma_colours(f, k);
    lane::lemma_div255_of_product(r as int, a as int);
    lane::lemma_div255_of_product(g as int, a as int);
    lane::lemma_div255_of_product(b as int, a as int);
    lemma_nearest(r as int, a as int, s);
    lemma_nearest(g as int, a as int, s);
    lemma_nearest(b as int, a as int, s);
}

proof fn lemma_solid(
    d: u32,
    c: u8,
    r: u8,
    g: u8,
    b: u8,
    a: u8,
    k: int,
    ca: int,
    s: int,
)
    requires
        0 <= k < 4,
        nearest(c as int, a as int, ca),
        k == 0 ==> nearest(r as int, ca, s),
        k == 1 ==> nearest(g as int, ca, s),
        k == 2 ==> nearest(b as int, ca, s),
        k == 3 ==> s == ca,
    ensures
        composed(colour(d, k), s, ca, colour(pixel::solid_pixel(d, c, r, g, b, a), k)),
{
    lane::lemma_div255_of_product(c as int, a as int);
    lemma_nearest(c as int, a as int, ca);
    let q = ca as u8;
    lemma_premultiplied(r, g, b, q, k, s);
    lemma_premultiplied(r, g, b, q, 3, ca);
    lemma_over_pixel(d, pixel::premultiplied(r, g, b, q), k);
}

proof fn lemma_rgba(r: u8, g: u8, b: u8, a: u8, k: int)
    requires
        0 <= k < 4,
    ensures
        k == 0 ==> colour(pixel::rgba(r, g, b, a), k) == r,
        k == 1 ==> colour(pixel::rgba(r, g, b, a), k) == g,
        k == 2 ==> colour(pixel::rgba(r, g, b, a), k) == b,
        k == 3 ==> colour(pixel::rgba(r, g, b, a), k) == a,
{
    let f = |c: int|
        if c == 0 {
            r
        } else if c == 1 {
            g
        } else if c == 2 {
            b
        } else {
            a
        };
    lemma_colours(f, k);
}

proof fn lemma_scaled_pixel(s: u32, m: u8, k: int, q: int)
    requires
        0 <= k < 4,
        nearest(colour(s, k), m as int, q),
    ensures
        colour(pixel::scaled_pixel(s, m), k) == q,
{
    let f = |c: int| lane::div255(pixel::channel(s, c) * m) as u8;
    lemma_colours(f, k);
    lane::lemma_div255_of_product(pixel::channel(s, k) as int, m as int);
    lemma_nearest(colour(s, k), m as int, q);
}

proof fn lemma_composite(d: u32, s: u32, m: u8, k: int, a: int, q: int)
    requires
        0 <= k < 4,
        nearest(colour(s, 3), m as int, a),
        nearest(colour(s, k), m as int, q),
    ensures
        composed(colour(d, k), q, a, colour(pixel::composite_pixel(d, s, m), k)),
{
    lemma_scaled_pixel(s, m, k, q);
    lemma_scaled_pixel(s, m, 3, a);
    lemma_over_pixel(d, pixel::scaled_pixel(s, m), k);
}

proof fn lemma_lane_solid(
    d: u32,
    c: u8,
    sr: u32,
    sg: u32,
    sb: u32,
    sa: u32,
    k: int,
    ca: int,
    s: int,
)
    requires
        0 <= k < 4,
        quotient16(c * sa, ca),
        quotient16(spread(sr, sg, sb, 255, k) * ca, s),
    ensures
        colour(pixel::lane_solid_pixel(d, c, sr, sg, sb, sa), k) == composed16(colour(d, k), s, ca),
{
    let ca16 = lane::lane_div255(lane::wrap16(c * lane::wrap16(sa as int)));
    div_mod::lemma_mul_mod_noop_right(c as int, sa as int, 65536);
    assert(lane::wrap16(c * lane::wrap16(sa as int)) == lane::wrap16(c * sa));
    lemma_quotient16(c * sa, ca);
    assert(ca16 == ca);
    let f = |j: int|
        pixel::lane_over_byte(
            pixel::channel(d, j),
            lane::lane_div255(
                lane::wrap16(
                    vector::pattern_lane(pixel::lane_pattern(sr, sg, sb, 255), j) * ca16,
                ),
            ),
            lane::wrap16(255 - ca16),
        );
    lemma_colours(f, k);
    lemma_spread(sr, sg, sb, 255, k);
    lemma_quotient16(spread(sr, sg, sb, 255, k) * ca, s);
    lemma_composed16(pixel::channel(d, k), s as u16, ca);
}

proof fn lemma_lane_uniform(d: u32, ca: u32, s_r: u32, s_g: u32, s_b: u32, k: int)
    requires
        0 <= k < 4,
    ensures
        colour(pixel::lane_uniform_pixel(d, ca, s_r, s_g, s_b), k) == composed16(
            colour(d, k),
            spread(s_r, s_g, s_b, ca, k),
            ca as int,
        ),
{
    let f = |j: int|
        pixel::lane_over_byte(
            pixel::channel(d, j),
            vector::pattern_lane(pixel::lane_pattern(s_r, s_g, s_b, ca), j),
            lane::wrap16(255 - ca),
        );
    lemma_colours(f, k);
    lemma_spread(s_r, s_g, s_b, ca, k);
    lemma_composed16(
        pixel::channel(d, k),
        vector::pattern_lane(pixel::lane_pattern(s_r, s_g, s_b, ca), k),
        ca as int,
    );
}

proof fn lemma_lane_composite(d: u32, s: u32, m: u32, k: int, a: int, q: int)
    requires
        0 <= k < 4,
        quotient16(colour(s, 3) * m, a),
        quotient16(colour(s, k) * m, q),
    ensures
        colour(pixel::lane_composite_pixel(d, s, m), k) == composed16(colour(d, k), q, a),
{
    let kq = lane::wrap16(m as int);
    let f = |c: int|
        pixel::lane_over_byte(
            pixel::channel(d, c),
            lane::lane_div255(lane::wrap16(pixel::channel(s, c) * kq)),
            lane::wrap16(255 - lane::lane_div255(lane::wrap16(pixel::channel(s, 3) * kq))),
        );
    lemma_colours(f, k);
    div_mod::lemma_mul_mod_noop_right(colour(s, k), m as int, 65536);
    div_mod::lemma_mul_mod_noop_right(colour(s, 3), m as int, 65536);
    assert(lane::wrap16(pixel::channel(s, k) * kq) == lane::wrap16(colour(s, k) * m));
    assert(lane::wrap16(pixel::channel(s, 3) * kq) == lane::wrap16(colour(s, 3) * m));
    lemma_quotient16(colour(s, k) * m, q);
    lemma_quotient16(colour(s, 3) * m, a);
    lemma_composed16(pixel::channel(d, k), q as u16, a);
}

/// Every channel of a pixel whose chunk both rows fill becomes its product with
/// the alpha of the matte at `source_opacity`, or with what that leaves of 255,
/// and every other pixel stays.
pub proof fn apply_matte_alpha_lsx_call(
    dst: &mut [u32],
    src: &[u32],
    source_opacity: u8,
    inverted: bool,
    i: int,
    k: int,
    f: int,
)
    requires
        call_ensures(lsx::apply_matte_alpha_lsx, (dst, src, source_opacity, inverted), ()),
        0 <= i < old(dst).len(),
        0 <= k < 4,
    ensures
        final(dst).len() == old(dst).len(),
        fits(i, 4, old(dst).len() as int) && fits(i, 4, src.len() as int) && nearest(
            colour(src@[i], 3),
            source_opacity as int,
            f,
        ) ==> nearest(
            colour(old(dst)@[i], k),
            if inverted { 255 - f } else { f },
            colour(final(dst)@[i], k),
        ),
        !(fits(i, 4, old(dst).len() as int) && fits(i, 4, src.len() as int)) ==> final(dst)@[i]
            == old(dst)@[i],
{
    lemma_fits2(i, 4, old(dst).len() as int, src.len() as int);
    if fits(i, 4, old(dst).len() as int) && fits(i, 4, src.len() as int) {
        lemma_matte_pixel(old(dst)@[i], src@[i], source_opacity, inverted, k, f);
    }
}

/// Every pixel whose chunk both rows fill is composed with the colour at the
/// coverage there: its alpha `ca` is the coverage of `sa`, and a channel `s` is
/// the colour's at that alpha. Every other pixel stays.
pub proof fn fill_span_solid_lsx_call(
    dst: &mut [u32],
    cov: &[u8],
    sr: u32,
    sg: u32,
    sb: u32,
    sa: u32,
    i: int,
    k: int,
    ca: int,
    s: int,
)
    requires
        call_ensures(lsx::fill_span_solid_lsx, (dst, cov, sr, sg, sb, sa), ()),
        sr <= 255 && sg <= 255 && sb <= 255 && sa <= 255,
        0 <= i < old(dst).len(),
        0 <= k < 4,
        fits(i, 4, old(dst).len() as int),
        fits(i, 4, cov.len() as int),
        nearest(cov@[i] as int, sa as int, ca),
        k == 0 ==> nearest(sr as int, ca, s),
        k == 1 ==> nearest(sg as int, ca, s),
        k == 2 ==> nearest(sb as int, ca, s),
        k == 3 ==> s == ca,
    ensures
        composed(colour(old(dst)@[i], k), s, ca, colour(final(dst)@[i], k)),
{
    lemma_fits2(i, 4, old(dst).len() as int, cov.len() as int);
    lemma_solid(
        old(dst)@[i],
        cov@[i],
        sr as u8,
        sg as u8,
        sb as u8,
        sa as u8,
        k,
        ca,
        s,
    );
}

/// For colours of any width a solid fill goes by sixteen-bit lanes, and every
/// pixel outside the whole chunks stays.
pub proof fn fill_span_solid_lsx_lanes(
    dst: &mut [u32],
    cov: &[u8],
    sr: u32,
    sg: u32,
    sb: u32,
    sa: u32,
    i: int,
    k: int,
    ca: int,
    s: int,
)
    requires
        call_ensures(lsx::fill_span_solid_lsx, (dst, cov, sr, sg, sb, sa), ()),
        0 <= i < old(dst).len(),
        0 <= k < 4,
    ensures
        final(dst).len() == old(dst).len(),
        fits(i, 4, old(dst).len() as int) && fits(i, 4, cov.len() as int) && quotient16(
            cov@[i] * sa,
            ca,
        ) && quotient16(spread(sr, sg, sb, 255, k) * ca, s) ==> colour(final(dst)@[i], k)
            == composed16(colour(old(dst)@[i], k), s, ca),
        !(fits(i, 4, old(dst).len() as int) && fits(i, 4, cov.len() as int)) ==> final(dst)@[i]
            == old(dst)@[i],
{
    lemma_fits2(i, 4, old(dst).len() as int, cov.len() as int);
    if fits(i, 4, old(dst).len() as int) && fits(i, 4, cov.len() as int) && quotient16(
        cov@[i] * sa,
        ca,
    ) && quotient16(spread(sr, sg, sb, 255, k) * ca, s) {
        lemma_lane_solid(old(dst)@[i], cov@[i], sr, sg, sb, sa, k, ca, s);
    }
}

/// Every pixel in a whole chunk is composed with the one colour.
pub proof fn fill_span_uniform_lsx_call(
    dst: &mut [u32],
    ca: u32,
    s_r: u32,
    s_g: u32,
    s_b: u32,
    i: int,
)
    requires
        call_ensures(lsx::fill_span_uniform_lsx, (dst, ca, s_r, s_g, s_b), ()),
        ca <= 255 && s_r <= 255 && s_g <= 255 && s_b <= 255,
        0 <= i < old(dst).len(),
        fits(i, 4, old(dst).len() as int),
    ensures
        composed(colour(old(dst)@[i], 0), s_r as int, ca as int, colour(final(dst)@[i], 0)),
        composed(colour(old(dst)@[i], 1), s_g as int, ca as int, colour(final(dst)@[i], 1)),
        composed(colour(old(dst)@[i], 2), s_b as int, ca as int, colour(final(dst)@[i], 2)),
        composed(colour(old(dst)@[i], 3), ca as int, ca as int, colour(final(dst)@[i], 3)),
{
    lemma_fits(i, 4, old(dst).len() as int);
    let (r, g, b, a) = (s_r as u8, s_g as u8, s_b as u8, ca as u8);
    assert(final(dst)@[i] == pixel::over_pixel(old(dst)@[i], pixel::rgba(r, g, b, a)));
    lemma_rgba(r, g, b, a, 0);
    lemma_rgba(r, g, b, a, 1);
    lemma_rgba(r, g, b, a, 2);
    lemma_rgba(r, g, b, a, 3);
    lemma_over_pixel(old(dst)@[i], pixel::rgba(r, g, b, a), 0);
    lemma_over_pixel(old(dst)@[i], pixel::rgba(r, g, b, a), 1);
    lemma_over_pixel(old(dst)@[i], pixel::rgba(r, g, b, a), 2);
    lemma_over_pixel(old(dst)@[i], pixel::rgba(r, g, b, a), 3);
}

/// For colours of any width a uniform fill goes by sixteen-bit lanes, and every
/// pixel outside the whole chunks stays.
pub proof fn fill_span_uniform_lsx_lanes(
    dst: &mut [u32],
    ca: u32,
    s_r: u32,
    s_g: u32,
    s_b: u32,
    i: int,
    k: int,
)
    requires
        call_ensures(lsx::fill_span_uniform_lsx, (dst, ca, s_r, s_g, s_b), ()),
        0 <= i < old(dst).len(),
        0 <= k < 4,
    ensures
        final(dst).len() == old(dst).len(),
        fits(i, 4, old(dst).len() as int) ==> colour(final(dst)@[i], k) == composed16(
            colour(old(dst)@[i], k),
            spread(s_r, s_g, s_b, ca, k),
            ca as int,
        ),
        !fits(i, 4, old(dst).len() as int) ==> final(dst)@[i] == old(dst)@[i],
{
    lemma_fits(i, 4, old(dst).len() as int);
    lemma_lane_uniform(old(dst)@[i], ca, s_r, s_g, s_b, k);
}

/// Every pixel whose chunk both rows fill is composed with the source pixel, of
/// which `q` is the channel and `a` the alpha at opacity `m`.
pub proof fn composite_over_lsx_call(
    dst: &mut [u32],
    src: &[u32],
    m: u32,
    i: int,
    k: int,
    a: int,
    q: int,
)
    requires
        call_ensures(lsx::composite_over_lsx, (dst, src, m), ()),
        m <= 255,
        0 <= i < old(dst).len(),
        0 <= k < 4,
        fits(i, 4, old(dst).len() as int),
        fits(i, 4, src.len() as int),
        nearest(colour(src@[i], 3), m as int, a),
        nearest(colour(src@[i], k), m as int, q),
    ensures
        composed(colour(old(dst)@[i], k), q, a, colour(final(dst)@[i], k)),
{
    lemma_fits2(i, 4, old(dst).len() as int, src.len() as int);
    lemma_composite(old(dst)@[i], src@[i], m as u8, k, a, q);
}

/// At an opacity of any width a composition goes by sixteen-bit lanes, and
/// every pixel outside the whole chunks stays.
pub proof fn composite_over_lsx_lanes(
    dst: &mut [u32],
    src: &[u32],
    m: u32,
    i: int,
    k: int,
    a: int,
    q: int,
)
    requires
        call_ensures(lsx::composite_over_lsx, (dst, src, m), ()),
        0 <= i < old(dst).len(),
        0 <= k < 4,
    ensures
        final(dst).len() == old(dst).len(),
        fits(i, 4, old(dst).len() as int) && fits(i, 4, src.len() as int) && quotient16(
            colour(src@[i], 3) * m,
            a,
        ) && quotient16(colour(src@[i], k) * m, q) ==> colour(final(dst)@[i], k) == composed16(
            colour(old(dst)@[i], k),
            q,
            a,
        ),
        !(fits(i, 4, old(dst).len() as int) && fits(i, 4, src.len() as int)) ==> final(dst)@[i]
            == old(dst)@[i],
{
    lemma_fits2(i, 4, old(dst).len() as int, src.len() as int);
    if fits(i, 4, old(dst).len() as int) && fits(i, 4, src.len() as int) && quotient16(
        colour(src@[i], 3) * m,
        a,
    ) && quotient16(colour(src@[i], k) * m, q) {
        lemma_lane_composite(old(dst)@[i], src@[i], m, k, a, q);
    }
}

/// Every channel of a pixel whose chunk both rows fill becomes its product with
/// the alpha of the matte at `source_opacity`, or with what that leaves of 255,
/// and every other pixel stays.
pub proof fn apply_matte_alpha_lasx_call(
    dst: &mut [u32],
    src: &[u32],
    source_opacity: u8,
    inverted: bool,
    i: int,
    k: int,
    f: int,
)
    requires
        call_ensures(lasx::apply_matte_alpha_lasx, (dst, src, source_opacity, inverted), ()),
        0 <= i < old(dst).len(),
        0 <= k < 4,
    ensures
        final(dst).len() == old(dst).len(),
        fits(i, 8, old(dst).len() as int) && fits(i, 8, src.len() as int) && nearest(
            colour(src@[i], 3),
            source_opacity as int,
            f,
        ) ==> nearest(
            colour(old(dst)@[i], k),
            if inverted { 255 - f } else { f },
            colour(final(dst)@[i], k),
        ),
        !(fits(i, 8, old(dst).len() as int) && fits(i, 8, src.len() as int)) ==> final(dst)@[i]
            == old(dst)@[i],
{
    lemma_fits2(i, 8, old(dst).len() as int, src.len() as int);
    if fits(i, 8, old(dst).len() as int) && fits(i, 8, src.len() as int) {
        lemma_matte_pixel(old(dst)@[i], src@[i], source_opacity, inverted, k, f);
    }
}

/// Every pixel whose chunk both rows fill is composed with the colour at the
/// coverage there: its alpha `ca` is the coverage of `sa`, and a channel `s` is
/// the colour's at that alpha. Every other pixel stays.
pub proof fn fill_span_solid_lasx_call(
    dst: &mut [u32],
    cov: &[u8],
    sr: u32,
    sg: u32,
    sb: u32,
    sa: u32,
    i: int,
    k: int,
    ca: int,
    s: int,
)
    requires
        call_ensures(lasx::fill_span_solid_lasx, (dst, cov, sr, sg, sb, sa), ()),
        sr <= 255 && sg <= 255 && sb <= 255 && sa <= 255,
        0 <= i < old(dst).len(),
        0 <= k < 4,
        fits(i, 8, old(dst).len() as int),
        fits(i, 8, cov.len() as int),
        nearest(cov@[i] as int, sa as int, ca),
        k == 0 ==> nearest(sr as int, ca, s),
        k == 1 ==> nearest(sg as int, ca, s),
        k == 2 ==> nearest(sb as int, ca, s),
        k == 3 ==> s == ca,
    ensures
        composed(colour(old(dst)@[i], k), s, ca, colour(final(dst)@[i], k)),
{
    lemma_fits2(i, 8, old(dst).len() as int, cov.len() as int);
    lemma_solid(
        old(dst)@[i],
        cov@[i],
        sr as u8,
        sg as u8,
        sb as u8,
        sa as u8,
        k,
        ca,
        s,
    );
}

/// For colours of any width a solid fill goes by sixteen-bit lanes, and every
/// pixel outside the whole chunks stays.
pub proof fn fill_span_solid_lasx_lanes(
    dst: &mut [u32],
    cov: &[u8],
    sr: u32,
    sg: u32,
    sb: u32,
    sa: u32,
    i: int,
    k: int,
    ca: int,
    s: int,
)
    requires
        call_ensures(lasx::fill_span_solid_lasx, (dst, cov, sr, sg, sb, sa), ()),
        0 <= i < old(dst).len(),
        0 <= k < 4,
    ensures
        final(dst).len() == old(dst).len(),
        fits(i, 8, old(dst).len() as int) && fits(i, 8, cov.len() as int) && quotient16(
            cov@[i] * sa,
            ca,
        ) && quotient16(spread(sr, sg, sb, 255, k) * ca, s) ==> colour(final(dst)@[i], k)
            == composed16(colour(old(dst)@[i], k), s, ca),
        !(fits(i, 8, old(dst).len() as int) && fits(i, 8, cov.len() as int)) ==> final(dst)@[i]
            == old(dst)@[i],
{
    lemma_fits2(i, 8, old(dst).len() as int, cov.len() as int);
    if fits(i, 8, old(dst).len() as int) && fits(i, 8, cov.len() as int) && quotient16(
        cov@[i] * sa,
        ca,
    ) && quotient16(spread(sr, sg, sb, 255, k) * ca, s) {
        lemma_lane_solid(old(dst)@[i], cov@[i], sr, sg, sb, sa, k, ca, s);
    }
}

/// Every pixel in a whole chunk is composed with the one colour.
pub proof fn fill_span_uniform_lasx_call(
    dst: &mut [u32],
    ca: u32,
    s_r: u32,
    s_g: u32,
    s_b: u32,
    i: int,
)
    requires
        call_ensures(lasx::fill_span_uniform_lasx, (dst, ca, s_r, s_g, s_b), ()),
        ca <= 255 && s_r <= 255 && s_g <= 255 && s_b <= 255,
        0 <= i < old(dst).len(),
        fits(i, 8, old(dst).len() as int),
    ensures
        composed(colour(old(dst)@[i], 0), s_r as int, ca as int, colour(final(dst)@[i], 0)),
        composed(colour(old(dst)@[i], 1), s_g as int, ca as int, colour(final(dst)@[i], 1)),
        composed(colour(old(dst)@[i], 2), s_b as int, ca as int, colour(final(dst)@[i], 2)),
        composed(colour(old(dst)@[i], 3), ca as int, ca as int, colour(final(dst)@[i], 3)),
{
    lemma_fits(i, 8, old(dst).len() as int);
    let (r, g, b, a) = (s_r as u8, s_g as u8, s_b as u8, ca as u8);
    assert(final(dst)@[i] == pixel::over_pixel(old(dst)@[i], pixel::rgba(r, g, b, a)));
    lemma_rgba(r, g, b, a, 0);
    lemma_rgba(r, g, b, a, 1);
    lemma_rgba(r, g, b, a, 2);
    lemma_rgba(r, g, b, a, 3);
    lemma_over_pixel(old(dst)@[i], pixel::rgba(r, g, b, a), 0);
    lemma_over_pixel(old(dst)@[i], pixel::rgba(r, g, b, a), 1);
    lemma_over_pixel(old(dst)@[i], pixel::rgba(r, g, b, a), 2);
    lemma_over_pixel(old(dst)@[i], pixel::rgba(r, g, b, a), 3);
}

/// For colours of any width a uniform fill goes by sixteen-bit lanes, and every
/// pixel outside the whole chunks stays.
pub proof fn fill_span_uniform_lasx_lanes(
    dst: &mut [u32],
    ca: u32,
    s_r: u32,
    s_g: u32,
    s_b: u32,
    i: int,
    k: int,
)
    requires
        call_ensures(lasx::fill_span_uniform_lasx, (dst, ca, s_r, s_g, s_b), ()),
        0 <= i < old(dst).len(),
        0 <= k < 4,
    ensures
        final(dst).len() == old(dst).len(),
        fits(i, 8, old(dst).len() as int) ==> colour(final(dst)@[i], k) == composed16(
            colour(old(dst)@[i], k),
            spread(s_r, s_g, s_b, ca, k),
            ca as int,
        ),
        !fits(i, 8, old(dst).len() as int) ==> final(dst)@[i] == old(dst)@[i],
{
    lemma_fits(i, 8, old(dst).len() as int);
    lemma_lane_uniform(old(dst)@[i], ca, s_r, s_g, s_b, k);
}

/// Every pixel whose chunk both rows fill is composed with the source pixel, of
/// which `q` is the channel and `a` the alpha at opacity `m`.
pub proof fn composite_over_lasx_call(
    dst: &mut [u32],
    src: &[u32],
    m: u32,
    i: int,
    k: int,
    a: int,
    q: int,
)
    requires
        call_ensures(lasx::composite_over_lasx, (dst, src, m), ()),
        m <= 255,
        0 <= i < old(dst).len(),
        0 <= k < 4,
        fits(i, 8, old(dst).len() as int),
        fits(i, 8, src.len() as int),
        nearest(colour(src@[i], 3), m as int, a),
        nearest(colour(src@[i], k), m as int, q),
    ensures
        composed(colour(old(dst)@[i], k), q, a, colour(final(dst)@[i], k)),
{
    lemma_fits2(i, 8, old(dst).len() as int, src.len() as int);
    lemma_composite(old(dst)@[i], src@[i], m as u8, k, a, q);
}

/// At an opacity of any width a composition goes by sixteen-bit lanes, and
/// every pixel outside the whole chunks stays.
pub proof fn composite_over_lasx_lanes(
    dst: &mut [u32],
    src: &[u32],
    m: u32,
    i: int,
    k: int,
    a: int,
    q: int,
)
    requires
        call_ensures(lasx::composite_over_lasx, (dst, src, m), ()),
        0 <= i < old(dst).len(),
        0 <= k < 4,
    ensures
        final(dst).len() == old(dst).len(),
        fits(i, 8, old(dst).len() as int) && fits(i, 8, src.len() as int) && quotient16(
            colour(src@[i], 3) * m,
            a,
        ) && quotient16(colour(src@[i], k) * m, q) ==> colour(final(dst)@[i], k) == composed16(
            colour(old(dst)@[i], k),
            q,
            a,
        ),
        !(fits(i, 8, old(dst).len() as int) && fits(i, 8, src.len() as int)) ==> final(dst)@[i]
            == old(dst)@[i],
{
    lemma_fits2(i, 8, old(dst).len() as int, src.len() as int);
    if fits(i, 8, old(dst).len() as int) && fits(i, 8, src.len() as int) && quotient16(
        colour(src@[i], 3) * m,
        a,
    ) && quotient16(colour(src@[i], k) * m, q) {
        lemma_lane_composite(old(dst)@[i], src@[i], m, k, a, q);
    }
}

/// A colour table gives its own element at every index it has, and 0 at every
/// other.
pub proof fn lut_entry_call(lut: &[u32], i: u32, r: u32)
    requires
        call_ensures(pixel::lut_entry, (lut, i), r),
    ensures
        i < lut.len() ==> r == lut@[i as int],
        i >= lut.len() ==> r == 0,
{
}

/// Four bytes of a row make a word, low byte first.
pub proof fn le_word_call(bytes: &[u8], at: usize, r: u32, k: int)
    requires
        call_ensures(m128::le_word, (bytes, at), r),
        0 <= k < 4,
    ensures
        colour(r, k) == bytes@[at + k],
{
    let t = (bytes, at);
    assert(pixel::channel(r, k) == t.0[t.1 + k]);
}

/// What a lane holds after source-over of `s` onto `d`, where `e` is 256 less
/// the alpha: the sum modulo 2^16, and its signed minimum with 255.
pub open spec fn composed_lane(d: int, s: int, e: int) -> int {
    let sum = (s + (d * e) % 65536 / 256) % 65536;
    if 255 < sum < 32768 {
        255
    } else {
        sum
    }
}

proof fn lemma_byte_of(v: Seq<u16>, j: int)
    ensures
        byte_of(v, j) == vector::byte(v, j),
{
    reveal(vector::byte);
}

proof fn lemma_composed_lane(d: u16, s: u16, inv: u16)
    ensures
        lane::lane_over(d, s, inv) == composed_lane(d as int, s as int, inv + 1),
{
    let e = lane::wrap16(inv + 1);
    let m = lane::wrap16(d * e);
    assert(m == (d * (inv + 1)) % 65536) by {
        div_mod::lemma_mul_mod_noop_right(d as int, inv + 1, 65536);
    }
    reveal(lane::lane_over);
}

proof fn lemma_alpha_lane(d: u16, s: u16)
    ensures
        lane::lane_over(d, s, lane::wrap16(255 - s)) == composed_lane(d as int, s as int, 256 - s),
{
    let inv = lane::wrap16(255 - s);
    lemma_composed_lane(d, s, inv);
    assert((inv + 1) % 65536 == (256 - s) % 65536) by {
        div_mod::lemma_add_mod_noop(255 - s, 1, 65536);
        assert(1int % 65536 == 1);
    }
    div_mod::lemma_mul_mod_noop_right(d as int, inv + 1, 65536);
    div_mod::lemma_mul_mod_noop_right(d as int, 256 - s, 65536);
}

proof fn lemma_xor_byte(a: Seq<u16>, b: Seq<u16>, j: int)
    requires
        0 <= j / 2 < a.len(),
        b.len() == a.len(),
    ensures
        vector::byte(vector::xor_v(a, b), j) == vector::byte(a, j) ^ vector::byte(b, j),
{
    let (x, y) = (a[j / 2], b[j / 2]);
    assert(((x ^ y) % 256) as u8 == ((x % 256) as u8) ^ ((y % 256) as u8)) by (bit_vector);
    assert(((x ^ y) / 256) as u8 == ((x / 256) as u8) ^ ((y / 256) as u8)) by (bit_vector);
    reveal(vector::byte);
}

/// The place of lane `l` of the low (`h` 0) or high (`h` 1) half among the
/// bytes of a register.
pub open spec fn place(l: int, h: int) -> int {
    16 * (l / 8) + l % 8 + 8 * h
}

proof fn lemma_low_bits(x: u32)
    ensures
        x & 0x7fff_ffff == x % 0x8000_0000,
{
    assert(x & 0x7fff_ffff == x % 0x8000_0000) by (bit_vector);
}

proof fn lemma_place(l: int, h: int)
    requires
        0 <= l < 16,
        h == 0 || h == 1,
    ensures
        place(l, h) / 16 == l / 8,
        place(l, h) % 16 == l % 8 + 8 * h,
        place(l, h) % 8 == l % 8,
        chunk::lane_of(place(l, h)) == l,
        0 <= place(l, h) < 16 * (l / 8) + 16,
{
}

proof fn lemma_packed(a: Seq<u16>, b: Seq<u16>, l: int)
    requires
        chunk::is_register(a),
        b.len() == a.len(),
        0 <= l < a.len(),
    ensures
        byte_of(vector::pack(a, b), place(l, 0)) == a[l] as int % 256,
        byte_of(vector::pack(a, b), place(l, 1)) == b[l] as int % 256,
{
    let r = vector::pack(a, b);
    lemma_place(l, 0);
    lemma_place(l, 1);
    lemma_byte_of(r, place(l, 0));
    lemma_byte_of(r, place(l, 1));
    chunk::lemma_pack(a, b, place(l, 0));
    chunk::lemma_pack(a, b, place(l, 1));
    reveal(chunk::select);
}

/// The low half of every group of bytes, one byte to a lane.
pub proof fn lo_lsx_call(v: M128i, r: M128i, i: int)
    requires
        call_ensures(lsx::lo, (v,), r),
        0 <= i < 8,
    ensures
        lanes128(r)[i] == byte_of(lanes128(v), place(i, 0)),
{
    lemma_byte_of(v@, place(i, 0));
    assert(r@[i] == lanes128(r)[i]);
    assert(v@ =~= lanes128(v));
}

/// The high half of every group of bytes, one byte to a lane.
pub proof fn hi_lsx_call(v: M128i, r: M128i, i: int)
    requires
        call_ensures(lsx::hi, (v,), r),
        0 <= i < 8,
    ensures
        lanes128(r)[i] == byte_of(lanes128(v), place(i, 1)),
{
    lemma_byte_of(v@, place(i, 1));
    assert(r@[i] == lanes128(r)[i]);
    assert(v@ =~= lanes128(v));
}

/// The low byte of every lane, back in the places that `lo` and `hi` take them
/// from.
pub proof fn pack_lsx_call(a: M128i, b: M128i, r: M128i, i: int)
    requires
        call_ensures(lsx::pack, (a, b), r),
        0 <= i < 8,
    ensures
        byte_of(lanes128(r), place(i, 0)) == lanes128(a)[i] as int % 256,
        byte_of(lanes128(r), place(i, 1)) == lanes128(b)[i] as int % 256,
{
    assert(r@ =~= lanes128(r) && a@ =~= lanes128(a) && b@ =~= lanes128(b));
    lemma_packed(a@, b@, i);
}

/// The last lane of every four, four times.
pub proof fn splat_alpha_lsx_call(half: M128i, r: M128i, i: int)
    requires
        call_ensures(lsx::splat_alpha, (half,), r),
        0 <= i < 8,
    ensures
        lanes128(r)[i] == lanes128(half)[i - i % 4 + 3],
{
    assert(r@ =~= lanes128(r) && half@ =~= lanes128(half));
    assert(i - i % 4 + 3 == 4 * (i / 4) + 3);
}

/// Every lane is 127 more, cut to sixteen bits, divided by 255.
pub proof fn div255_round_lsx_call(n: M128i, r: M128i, i: int)
    requires
        call_ensures(lsx::div255_round, (n,), r),
        0 <= i < 8,
    ensures
        quotient16(lanes128(n)[i] as int, lanes128(r)[i] as int),
        lanes128(n)[i] <= 65025 ==> -127 <= lanes128(n)[i] - 255 * lanes128(r)[i] <= 127,
{
    assert(r@ =~= lanes128(r) && n@ =~= lanes128(n));
    lemma_quotient16(n@[i] as int, r@[i] as int);
}

/// Source-over in every lane.
pub proof fn over_lsx_call(d: M128i, s: M128i, inv: M128i, r: M128i, i: int)
    requires
        call_ensures(lsx::over, (d, s, inv), r),
        0 <= i < 8,
    ensures
        lanes128(r)[i] == composed_lane(lanes128(d)[i] as int, lanes128(s)[i] as int, lanes128(inv)[i] + 1),
{
    assert(r@ =~= lanes128(r) && d@ =~= lanes128(d) && s@ =~= lanes128(s) && inv@ =~= lanes128(inv));
    lemma_composed_lane(d@[i], s@[i], inv@[i]);
}

/// Source-over in every lane, of a source that is its own alpha.
pub proof fn alpha_over8_lsx_call(dst: M128i, source: M128i, r: M128i, i: int)
    requires
        call_ensures(lsx::alpha_over8, (dst, source), r),
        0 <= i < 8,
    ensures
        lanes128(r)[i] == composed_lane(lanes128(dst)[i] as int, lanes128(source)[i] as int, 256 - lanes128(source)[i]),
{
    assert(r@ =~= lanes128(r) && dst@ =~= lanes128(dst) && source@ =~= lanes128(source));
    lemma_alpha_lane(dst@[i], source@[i]);
}

/// A load puts the bytes of a row into the register in their order.
pub proof fn load_lsx_call(bytes: &[u8], at: usize, r: M128i, j: int)
    requires
        call_ensures(lsx::load, (bytes, at), r),
        0 <= j < 16,
    ensures
        byte_of(lanes128(r), j) == bytes@[at + j],
{
    assert(r@ =~= lanes128(r));
    lemma_byte_of(r@, j);
}

/// A store puts the bytes of the register into the row in their order, and
/// leaves the rest of the row.
pub proof fn store_lsx_call(bytes: &mut [u8], at: usize, value: M128i, k: int)
    requires
        call_ensures(lsx::store, (bytes, at, value), ()),
        0 <= k < old(bytes).len(),
    ensures
        final(bytes).len() == old(bytes).len(),
        at <= k < at + 16 ==> final(bytes)@[k] == byte_of(lanes128(value), k - at),
        !(at <= k < at + 16) ==> final(bytes)@[k] == old(bytes)@[k],
{
    assert(value@ =~= lanes128(value));
    lemma_byte_of(value@, k - at);
}

/// A load puts the pixels of a row into the register in their order.
pub proof fn load_pixels_lsx_call(pixels: &[u32], at: usize, r: M128i, p: int)
    requires
        call_ensures(lsx::load_pixels, (pixels, at), r),
        0 <= p < 4,
    ensures
        word_of(lanes128(r), p) == pixels@[at + p],
{
    assert(r@ =~= lanes128(r));
    assert(vector::word(r@, p) == pixels[at + p]);
}

/// A store puts the pixels of the register into the row in their order, and
/// leaves the rest of the row.
pub proof fn store_pixels_lsx_call(pixels: &mut [u32], at: usize, value: M128i, i: int)
    requires
        call_ensures(lsx::store_pixels, (pixels, at, value), ()),
        0 <= i < old(pixels).len(),
    ensures
        final(pixels).len() == old(pixels).len(),
        at <= i < at + 4 ==> final(pixels)@[i] == word_of(lanes128(value), i - at),
        !(at <= i < at + 4) ==> final(pixels)@[i] == old(pixels)@[i],
{
    assert(value@ =~= lanes128(value));
}

/// One bit pattern in every word.
pub proof fn splat_float_lsx_call(bits: u32, r: M128i, p: int)
    requires
        call_ensures(lsx::splat_float, (bits,), r),
        0 <= p < 4,
    ensures
        word_of(lanes128(r), p) == bits,
{
    assert(r@ =~= lanes128(r));
    assert(vector::word(r@, p) == bits);
}

/// Every word without its top bit.
pub proof fn abs_float_lsx_call(v: M128i, r: M128i, p: int)
    requires
        call_ensures(lsx::abs_float, (v,), r),
        0 <= p < 4,
    ensures
        word_of(lanes128(r), p) == word_of(lanes128(v), p) % 0x8000_0000,
{
    assert(r@ =~= lanes128(r) && v@ =~= lanes128(v));
    let x = vector::word(v@, p);
    assert(vector::word(r@, p) == x & 0x7fff_ffff);
    lemma_low_bits(x);
}

/// An index where the lane is valid, and the largest word where it is not.
pub proof fn lut_indices_lsx_call(idx: M128i, valid: M128i, r: M128i, p: int)
    requires
        call_ensures(lsx::lut_indices, (idx, valid), r),
        0 <= p < 4,
    ensures
        word_of(lanes128(valid), p) == u32::MAX ==> word_of(lanes128(r), p) == word_of(lanes128(idx), p),
        word_of(lanes128(valid), p) == 0 ==> word_of(lanes128(r), p) == u32::MAX,
        word_of(lanes128(r), p) == (word_of(lanes128(idx), p) as u32 | !(word_of(lanes128(valid), p) as u32)),
{
    assert(r@ =~= lanes128(r) && idx@ =~= lanes128(idx) && valid@ =~= lanes128(valid));
    assert(vector::word(r@, p) == vector::word(idx@, p) | !vector::word(valid@, p));
}

/// Every word is the table's own element at the index there, or 0 where the
/// table has none.
pub proof fn lut_gather_lsx_call(lut: &[u32], idx: M128i, r: M128i, p: int)
    requires
        call_ensures(lsx::lut_gather, (lut, idx), r),
        0 <= p < 4,
    ensures
        word_of(lanes128(idx), p) < lut.len() ==> word_of(lanes128(r), p) == lut@[word_of(lanes128(idx), p)],
        word_of(lanes128(idx), p) >= lut.len() ==> word_of(lanes128(r), p) == 0,
{
    assert(r@ =~= lanes128(r) && idx@ =~= lanes128(idx));
    assert(vector::word(r@, p) == pixel::lut_at(lut@, vector::word(idx@, p)));
}

/// The pixels of one chunk are the table's own elements at the indices, or 0
/// where the table has none, and every other pixel stays.
pub proof fn lut_store_lsx_call(pixels: &mut [u32], at: usize, lut: &[u32], idx: M128i, i: int)
    requires
        call_ensures(lsx::lut_store, (pixels, at, lut, idx), ()),
        0 <= i < old(pixels).len(),
    ensures
        final(pixels).len() == old(pixels).len(),
        at <= i < at + 4 && word_of(lanes128(idx), i - at) < lut.len() ==> final(pixels)@[i]
            == lut@[word_of(lanes128(idx), i - at)],
        at <= i < at + 4 && word_of(lanes128(idx), i - at) >= lut.len() ==> final(pixels)@[i] == 0,
        !(at <= i < at + 4) ==> final(pixels)@[i] == old(pixels)@[i],
{
    assert(idx@ =~= lanes128(idx));
}

/// The pixels of one chunk are composed with the table's own elements at the
/// indices. They stay where the table has none, and so does every other pixel.
pub proof fn lut_blend_over_k255_lsx_call(
    pixels: &mut [u32],
    at: usize,
    lut: &[u32],
    idx: M128i,
    i: int,
    k: int,
)
    requires
        call_ensures(lsx::lut_blend_over_k255, (pixels, at, lut, idx), ()),
        0 <= i < old(pixels).len(),
        0 <= k < 4,
    ensures
        final(pixels).len() == old(pixels).len(),
        at <= i < at + 4 && word_of(lanes128(idx), i - at) < lut.len() ==> composed(
            colour(old(pixels)@[i], k),
            colour(lut@[word_of(lanes128(idx), i - at)], k),
            colour(lut@[word_of(lanes128(idx), i - at)], 3),
            colour(final(pixels)@[i], k),
        ),
        at <= i < at + 4 && word_of(lanes128(idx), i - at) >= lut.len() ==> final(pixels)@[i] == old(
            pixels,
        )@[i],
        !(at <= i < at + 4) ==> final(pixels)@[i] == old(pixels)@[i],
{
    assert(idx@ =~= lanes128(idx));
    if at <= i < at + 4 {
        let e = pixel::lut_at(lut@, vector::word(idx@, i - at));
        lemma_over_pixel(old(pixels)@[i], e, k);
        crate::laws::zero_source_keeps(0, old(pixels)@[i]);
    }
}

/// Pixel `p` of chunk `c` is the table's own element at word `p` of register
/// `c`, or 0 where the table has none.
pub proof fn lut_fill_lsx_call(out: &mut [u32], lut: &[u32], indices: &[M128i], c: int, p: int)
    requires
        call_ensures(lsx::lut_fill_lsx, (out, lut, indices), ()),
        0 <= c < indices.len(),
        4 * c + 4 <= old(out).len(),
        0 <= p < 4,
    ensures
        word_of(lanes128(indices@[c]), p) < lut.len() ==> final(out)@[4 * c + p] == lut@[word_of(
            lanes128(indices@[c]),
            p,
        )],
        word_of(lanes128(indices@[c]), p) >= lut.len() ==> final(out)@[4 * c + p] == 0,
{
    lemma_row_lsx(old(out).len() as int, indices@, c, p);
    assert(indices@[c]@ =~= lanes128(indices@[c]));
}

/// A pixel outside the whole chunks that have a register stays.
pub proof fn lut_fill_lsx_rest(out: &mut [u32], lut: &[u32], indices: &[M128i], i: int)
    requires
        call_ensures(lsx::lut_fill_lsx, (out, lut, indices), ()),
        0 <= i < old(out).len(),
    ensures
        final(out).len() == old(out).len(),
        !fits(i, 4, old(out).len() as int) || i >= 4 * indices.len() ==> final(out)@[i] == old(
            out,
        )@[i],
{
    lemma_rest_lsx(old(out).len() as int, indices@, i);
}

/// Pixel `p` of chunk `c` is composed with the table's own element at word `p`
/// of register `c`, and stays where the table has none.
pub proof fn lut_over_lsx_call(
    dst: &mut [u32],
    lut: &[u32],
    indices: &[M128i],
    c: int,
    p: int,
    k: int,
)
    requires
        call_ensures(lsx::lut_over_lsx, (dst, lut, indices), ()),
        0 <= c < indices.len(),
        4 * c + 4 <= old(dst).len(),
        0 <= p < 4,
        0 <= k < 4,
    ensures
        word_of(lanes128(indices@[c]), p) < lut.len() ==> composed(
            colour(old(dst)@[4 * c + p], k),
            colour(lut@[word_of(lanes128(indices@[c]), p)], k),
            colour(lut@[word_of(lanes128(indices@[c]), p)], 3),
            colour(final(dst)@[4 * c + p], k),
        ),
        word_of(lanes128(indices@[c]), p) >= lut.len() ==> final(dst)@[4 * c + p] == old(dst)@[4 * c
            + p],
{
    lemma_row_lsx(old(dst).len() as int, indices@, c, p);
    assert(indices@[c]@ =~= lanes128(indices@[c]));
    let i = 4 * c + p;
    let e = pixel::lut_at(lut@, vector::word(indices@[c]@, p));
    assert(final(dst)@[i] == pixel::over_pixel(old(dst)@[i], e));
    lemma_over_pixel(old(dst)@[i], e, k);
    crate::laws::zero_source_keeps(0, old(dst)@[i]);
}

/// A pixel outside the whole chunks that have a register stays.
pub proof fn lut_over_lsx_rest(dst: &mut [u32], lut: &[u32], indices: &[M128i], i: int)
    requires
        call_ensures(lsx::lut_over_lsx, (dst, lut, indices), ()),
        0 <= i < old(dst).len(),
    ensures
        final(dst).len() == old(dst).len(),
        !fits(i, 4, old(dst).len() as int) || i >= 4 * indices.len() ==> final(dst)@[i] == old(
            dst,
        )@[i],
{
    lemma_rest_lsx(old(dst).len() as int, indices@, i);
}

proof fn lemma_row_lsx(len: int, indices: Seq<M128i>, c: int, p: int)
    requires
        0 <= c < indices.len(),
        4 * c + 4 <= len,
        0 <= p < 4,
    ensures
        0 <= 4 * c + p < lsx::lut_row_len(len, indices),
        (4 * c + p) / 4 == c,
        (4 * c + p) % 4 == p,
{
    lemma_fits(4 * c + p, 4, len);
}

proof fn lemma_rest_lsx(len: int, indices: Seq<M128i>, i: int)
    requires
        0 <= i < len,
    ensures
        !fits(i, 4, len) || i >= 4 * indices.len() ==> i >= lsx::lut_row_len(len, indices),
{
    lemma_fits(i, 4, len);
}

/// Whether `combine` gave `c` for the half `h` of the chunk of `old` from index
/// `at` on and the same half of `src`, flipped by `invert` and scaled by
/// `opacity`.
pub open spec fn half_combined_lsx<F: Fn(M128i, M128i) -> M128i>(
    combine: F,
    old: Seq<u8>,
    src: Seq<u8>,
    invert: M128i,
    opacity: M128i,
    at: int,
    h: int,
    a: M128i,
    b: M128i,
    c: M128i,
) -> bool {
    &&& call_ensures(combine, (a, b), c)
    &&& forall|l: int|
        0 <= l < 8 ==> #[trigger] lanes128(a)[l] == old[at + place(l, h)]
    &&& forall|l: int|
        0 <= l < 8 ==> quotient16(
            (src[at + place(l, h)] ^ byte_of(lanes128(invert), place(l, h)) as u8) * lanes128(opacity)[l],
            #[trigger] lanes128(b)[l] as int,
        )
}

/// Every byte of a chunk that both rows fill is the low byte of a lane that
/// `combine` gave: lane `l` of half `h` for the byte in that place. Every other
/// byte stays.
pub proof fn mask_combine_loop_lsx_call<F: Fn(M128i, M128i) -> M128i>(
    dst: &mut [u8],
    src: &[u8],
    invert: M128i,
    opacity: M128i,
    combine: F,
    at: int,
    h: int,
)
    requires
        call_ensures(lsx::mask_combine_loop::<F>, (dst, src, invert, opacity, combine), ()),
        0 <= at,
        at % 16 == 0,
        at + 16 <= old(dst).len(),
        at + 16 <= src.len(),
        h == 0 || h == 1,
    ensures
        final(dst).len() == old(dst).len(),
        exists|a: M128i, b: M128i, c: M128i|
            #[trigger] half_combined_lsx(
                combine,
                old(dst)@,
                src@,
                invert,
                opacity,
                at,
                h,
                a,
                b,
                c,
            ) && (forall|l: int|
                0 <= l < 8 ==> final(dst)@[at + place(l, h)] == #[trigger] lanes128(c)[l] as int % 256),
{
    let t = (dst, src, invert, opacity, combine);
    assert(lsx::chunk_combined(t.4, (*t.0)@, t.1@, t.2@, t.3@, final(t.0)@, at));
    reveal(lsx::combines);
    reveal(lsx::chunk_combined);
    let d = vector::of_bytes(old(dst)@, at, 8);
    let u = vector::of_bytes(src@, at, 8);
    let s = vector::xor_v(u, invert@);
    let out = vector::of_bytes(final(dst)@, at, 8);
    let (x, y) = choose|x: Seq<u16>, y: Seq<u16>|
        {
            &&& #[trigger] lsx::combines(
                combine,
                vector::lo(d),
                vector::div255_round(vector::mul_h(vector::lo(s), opacity@)),
                x,
            )
            &&& #[trigger] lsx::combines(
                combine,
                vector::hi(d),
                vector::div255_round(vector::mul_h(vector::hi(s), opacity@)),
                y,
            )
            &&& out == vector::pack(x, y)
        };
    let half = if h == 0 {
        vector::lo(d)
    } else {
        vector::hi(d)
    };
    let scaled = vector::div255_round(
        vector::mul_h(
            if h == 0 {
                vector::lo(s)
            } else {
                vector::hi(s)
            },
            opacity@,
        ),
    );
    let z = if h == 0 {
        x
    } else {
        y
    };
    assert(lsx::combines(combine, half, scaled, z));
    let (a, b, c) = choose|a: M128i, b: M128i, c: M128i| #[trigger]
        call_ensures(combine, (a, b), c) && a@ == half && b@ == scaled && c@ == z;
    assert(a@ =~= lanes128(a) && b@ =~= lanes128(b) && c@ =~= lanes128(c));
    assert(invert@ =~= lanes128(invert) && opacity@ =~= lanes128(opacity));
    assert forall|l: int| 0 <= l < 8 implies #[trigger] lanes128(a)[l] == old(dst)@[at + place(l, h)] by {
        chunk::lemma_byte_of_bytes(old(dst)@, at, 8, place(l, h));
    }
    assert forall|l: int| 0 <= l < 8 implies quotient16(
        (src@[at + place(l, h)] ^ byte_of(lanes128(invert), place(l, h)) as u8) * lanes128(opacity)[l],
        #[trigger] lanes128(b)[l] as int,
    ) by {
        let j = place(l, h);
        chunk::lemma_byte_of_bytes(src@, at, 8, j);
        lemma_xor_byte(u, invert@, j);
        lemma_byte_of(invert@, j);
        let v = src@[at + j] ^ byte_of(lanes128(invert), j) as u8;
        assert(vector::byte(s, j) == v);
        lemma_quotient16(v * opacity@[l], b@[l] as int);
    }
    assert forall|l: int| 0 <= l < 8 implies final(dst)@[at + place(l, h)] == #[trigger] lanes128(c)[l]
        as int % 256 by {
        let j = place(l, h);
        chunk::lemma_byte_of_bytes(final(dst)@, at, 8, j);
        lemma_place(l, h);
        chunk::lemma_pack(x, y, j);
        reveal(chunk::select);
    }
    assert(half_combined_lsx(combine, old(dst)@, src@, invert, opacity, at, h, a, b, c));
}

/// A byte outside the chunks that both rows fill stays.
pub proof fn mask_combine_loop_lsx_rest<F: Fn(M128i, M128i) -> M128i>(
    dst: &mut [u8],
    src: &[u8],
    invert: M128i,
    opacity: M128i,
    combine: F,
    i: int,
)
    requires
        call_ensures(lsx::mask_combine_loop::<F>, (dst, src, invert, opacity, combine), ()),
        0 <= i < old(dst).len(),
        !(fits(i, 16, old(dst).len() as int) && fits(i, 16, src.len() as int)),
    ensures
        final(dst)@[i] == old(dst)@[i],
{
    lemma_fits2(i, 16, old(dst).len() as int, src.len() as int);
}

/// The low half of every group of bytes, one byte to a lane.
pub proof fn lo_lasx_call(v: M256i, r: M256i, i: int)
    requires
        call_ensures(lasx::lo, (v,), r),
        0 <= i < 16,
    ensures
        lanes256(r)[i] == byte_of(lanes256(v), place(i, 0)),
{
    lemma_byte_of(v@, place(i, 0));
    assert(r@[i] == lanes256(r)[i]);
    assert(v@ =~= lanes256(v));
}

/// The high half of every group of bytes, one byte to a lane.
pub proof fn hi_lasx_call(v: M256i, r: M256i, i: int)
    requires
        call_ensures(lasx::hi, (v,), r),
        0 <= i < 16,
    ensures
        lanes256(r)[i] == byte_of(lanes256(v), place(i, 1)),
{
    lemma_byte_of(v@, place(i, 1));
    assert(r@[i] == lanes256(r)[i]);
    assert(v@ =~= lanes256(v));
}

/// The low byte of every lane, back in the places that `lo` and `hi` take them
/// from.
pub proof fn pack_lasx_call(a: M256i, b: M256i, r: M256i, i: int)
    requires
        call_ensures(lasx::pack, (a, b), r),
        0 <= i < 16,
    ensures
        byte_of(lanes256(r), place(i, 0)) == lanes256(a)[i] as int % 256,
        byte_of(lanes256(r), place(i, 1)) == lanes256(b)[i] as int % 256,
{
    assert(r@ =~= lanes256(r) && a@ =~= lanes256(a) && b@ =~= lanes256(b));
    lemma_packed(a@, b@, i);
}

/// The last lane of every four, four times.
pub proof fn splat_alpha_lasx_call(half: M256i, r: M256i, i: int)
    requires
        call_ensures(lasx::splat_alpha, (half,), r),
        0 <= i < 16,
    ensures
        lanes256(r)[i] == lanes256(half)[i - i % 4 + 3],
{
    assert(r@ =~= lanes256(r) && half@ =~= lanes256(half));
    assert(i - i % 4 + 3 == 4 * (i / 4) + 3);
}

/// Every lane is 127 more, cut to sixteen bits, divided by 255.
pub proof fn div255_round_lasx_call(n: M256i, r: M256i, i: int)
    requires
        call_ensures(lasx::div255_round, (n,), r),
        0 <= i < 16,
    ensures
        quotient16(lanes256(n)[i] as int, lanes256(r)[i] as int),
        lanes256(n)[i] <= 65025 ==> -127 <= lanes256(n)[i] - 255 * lanes256(r)[i] <= 127,
{
    assert(r@ =~= lanes256(r) && n@ =~= lanes256(n));
    lemma_quotient16(n@[i] as int, r@[i] as int);
}

/// Source-over in every lane.
pub proof fn over_lasx_call(d: M256i, s: M256i, inv: M256i, r: M256i, i: int)
    requires
        call_ensures(lasx::over, (d, s, inv), r),
        0 <= i < 16,
    ensures
        lanes256(r)[i] == composed_lane(lanes256(d)[i] as int, lanes256(s)[i] as int, lanes256(inv)[i] + 1),
{
    assert(r@ =~= lanes256(r) && d@ =~= lanes256(d) && s@ =~= lanes256(s) && inv@ =~= lanes256(inv));
    lemma_composed_lane(d@[i], s@[i], inv@[i]);
}

/// Source-over in every lane, of a source that is its own alpha.
pub proof fn alpha_over8_lasx_call(dst: M256i, source: M256i, r: M256i, i: int)
    requires
        call_ensures(lasx::alpha_over8, (dst, source), r),
        0 <= i < 16,
    ensures
        lanes256(r)[i] == composed_lane(lanes256(dst)[i] as int, lanes256(source)[i] as int, 256 - lanes256(source)[i]),
{
    assert(r@ =~= lanes256(r) && dst@ =~= lanes256(dst) && source@ =~= lanes256(source));
    lemma_alpha_lane(dst@[i], source@[i]);
}

/// A load puts the bytes of a row into the register in their order.
pub proof fn load_lasx_call(bytes: &[u8], at: usize, r: M256i, j: int)
    requires
        call_ensures(lasx::load, (bytes, at), r),
        0 <= j < 32,
    ensures
        byte_of(lanes256(r), j) == bytes@[at + j],
{
    assert(r@ =~= lanes256(r));
    lemma_byte_of(r@, j);
}

/// A store puts the bytes of the register into the row in their order, and
/// leaves the rest of the row.
pub proof fn store_lasx_call(bytes: &mut [u8], at: usize, value: M256i, k: int)
    requires
        call_ensures(lasx::store, (bytes, at, value), ()),
        0 <= k < old(bytes).len(),
    ensures
        final(bytes).len() == old(bytes).len(),
        at <= k < at + 32 ==> final(bytes)@[k] == byte_of(lanes256(value), k - at),
        !(at <= k < at + 32) ==> final(bytes)@[k] == old(bytes)@[k],
{
    assert(value@ =~= lanes256(value));
    lemma_byte_of(value@, k - at);
}

/// A load puts the pixels of a row into the register in their order.
pub proof fn load_pixels_lasx_call(pixels: &[u32], at: usize, r: M256i, p: int)
    requires
        call_ensures(lasx::load_pixels, (pixels, at), r),
        0 <= p < 8,
    ensures
        word_of(lanes256(r), p) == pixels@[at + p],
{
    assert(r@ =~= lanes256(r));
    assert(vector::word(r@, p) == pixels[at + p]);
}

/// A store puts the pixels of the register into the row in their order, and
/// leaves the rest of the row.
pub proof fn store_pixels_lasx_call(pixels: &mut [u32], at: usize, value: M256i, i: int)
    requires
        call_ensures(lasx::store_pixels, (pixels, at, value), ()),
        0 <= i < old(pixels).len(),
    ensures
        final(pixels).len() == old(pixels).len(),
        at <= i < at + 8 ==> final(pixels)@[i] == word_of(lanes256(value), i - at),
        !(at <= i < at + 8) ==> final(pixels)@[i] == old(pixels)@[i],
{
    assert(value@ =~= lanes256(value));
}

/// One bit pattern in every word.
pub proof fn splat_float_lasx_call(bits: u32, r: M256i, p: int)
    requires
        call_ensures(lasx::splat_float, (bits,), r),
        0 <= p < 8,
    ensures
        word_of(lanes256(r), p) == bits,
{
    assert(r@ =~= lanes256(r));
    assert(vector::word(r@, p) == bits);
}

/// Every word without its top bit.
pub proof fn abs_float_lasx_call(v: M256i, r: M256i, p: int)
    requires
        call_ensures(lasx::abs_float, (v,), r),
        0 <= p < 8,
    ensures
        word_of(lanes256(r), p) == word_of(lanes256(v), p) % 0x8000_0000,
{
    assert(r@ =~= lanes256(r) && v@ =~= lanes256(v));
    let x = vector::word(v@, p);
    assert(vector::word(r@, p) == x & 0x7fff_ffff);
    lemma_low_bits(x);
}

/// An index where the lane is valid, and the largest word where it is not.
pub proof fn lut_indices_lasx_call(idx: M256i, valid: M256i, r: M256i, p: int)
    requires
        call_ensures(lasx::lut_indices, (idx, valid), r),
        0 <= p < 8,
    ensures
        word_of(lanes256(valid), p) == u32::MAX ==> word_of(lanes256(r), p) == word_of(lanes256(idx), p),
        word_of(lanes256(valid), p) == 0 ==> word_of(lanes256(r), p) == u32::MAX,
        word_of(lanes256(r), p) == (word_of(lanes256(idx), p) as u32 | !(word_of(lanes256(valid), p) as u32)),
{
    assert(r@ =~= lanes256(r) && idx@ =~= lanes256(idx) && valid@ =~= lanes256(valid));
    assert(vector::word(r@, p) == vector::word(idx@, p) | !vector::word(valid@, p));
}

/// Every word is the table's own element at the index there, or 0 where the
/// table has none.
pub proof fn lut_gather_lasx_call(lut: &[u32], idx: M256i, r: M256i, p: int)
    requires
        call_ensures(lasx::lut_gather, (lut, idx), r),
        0 <= p < 8,
    ensures
        word_of(lanes256(idx), p) < lut.len() ==> word_of(lanes256(r), p) == lut@[word_of(lanes256(idx), p)],
        word_of(lanes256(idx), p) >= lut.len() ==> word_of(lanes256(r), p) == 0,
{
    assert(r@ =~= lanes256(r) && idx@ =~= lanes256(idx));
    assert(vector::word(r@, p) == pixel::lut_at(lut@, vector::word(idx@, p)));
}

/// The pixels of one chunk are the table's own elements at the indices, or 0
/// where the table has none, and every other pixel stays.
pub proof fn lut_store_lasx_call(pixels: &mut [u32], at: usize, lut: &[u32], idx: M256i, i: int)
    requires
        call_ensures(lasx::lut_store, (pixels, at, lut, idx), ()),
        0 <= i < old(pixels).len(),
    ensures
        final(pixels).len() == old(pixels).len(),
        at <= i < at + 8 && word_of(lanes256(idx), i - at) < lut.len() ==> final(pixels)@[i]
            == lut@[word_of(lanes256(idx), i - at)],
        at <= i < at + 8 && word_of(lanes256(idx), i - at) >= lut.len() ==> final(pixels)@[i] == 0,
        !(at <= i < at + 8) ==> final(pixels)@[i] == old(pixels)@[i],
{
    assert(idx@ =~= lanes256(idx));
}

/// The pixels of one chunk are composed with the table's own elements at the
/// indices. They stay where the table has none, and so does every other pixel.
pub proof fn lut_blend_over_k255_lasx_call(
    pixels: &mut [u32],
    at: usize,
    lut: &[u32],
    idx: M256i,
    i: int,
    k: int,
)
    requires
        call_ensures(lasx::lut_blend_over_k255, (pixels, at, lut, idx), ()),
        0 <= i < old(pixels).len(),
        0 <= k < 4,
    ensures
        final(pixels).len() == old(pixels).len(),
        at <= i < at + 8 && word_of(lanes256(idx), i - at) < lut.len() ==> composed(
            colour(old(pixels)@[i], k),
            colour(lut@[word_of(lanes256(idx), i - at)], k),
            colour(lut@[word_of(lanes256(idx), i - at)], 3),
            colour(final(pixels)@[i], k),
        ),
        at <= i < at + 8 && word_of(lanes256(idx), i - at) >= lut.len() ==> final(pixels)@[i] == old(
            pixels,
        )@[i],
        !(at <= i < at + 8) ==> final(pixels)@[i] == old(pixels)@[i],
{
    assert(idx@ =~= lanes256(idx));
    if at <= i < at + 8 {
        let e = pixel::lut_at(lut@, vector::word(idx@, i - at));
        lemma_over_pixel(old(pixels)@[i], e, k);
        crate::laws::zero_source_keeps(0, old(pixels)@[i]);
    }
}

/// Pixel `p` of chunk `c` is the table's own element at word `p` of register
/// `c`, or 0 where the table has none.
pub proof fn lut_fill_lasx_call(out: &mut [u32], lut: &[u32], indices: &[M256i], c: int, p: int)
    requires
        call_ensures(lasx::lut_fill_lasx, (out, lut, indices), ()),
        0 <= c < indices.len(),
        8 * c + 8 <= old(out).len(),
        0 <= p < 8,
    ensures
        word_of(lanes256(indices@[c]), p) < lut.len() ==> final(out)@[8 * c + p] == lut@[word_of(
            lanes256(indices@[c]),
            p,
        )],
        word_of(lanes256(indices@[c]), p) >= lut.len() ==> final(out)@[8 * c + p] == 0,
{
    lemma_row_lasx(old(out).len() as int, indices@, c, p);
    assert(indices@[c]@ =~= lanes256(indices@[c]));
}

/// A pixel outside the whole chunks that have a register stays.
pub proof fn lut_fill_lasx_rest(out: &mut [u32], lut: &[u32], indices: &[M256i], i: int)
    requires
        call_ensures(lasx::lut_fill_lasx, (out, lut, indices), ()),
        0 <= i < old(out).len(),
    ensures
        final(out).len() == old(out).len(),
        !fits(i, 8, old(out).len() as int) || i >= 8 * indices.len() ==> final(out)@[i] == old(
            out,
        )@[i],
{
    lemma_rest_lasx(old(out).len() as int, indices@, i);
}

/// Pixel `p` of chunk `c` is composed with the table's own element at word `p`
/// of register `c`, and stays where the table has none.
pub proof fn lut_over_lasx_call(
    dst: &mut [u32],
    lut: &[u32],
    indices: &[M256i],
    c: int,
    p: int,
    k: int,
)
    requires
        call_ensures(lasx::lut_over_lasx, (dst, lut, indices), ()),
        0 <= c < indices.len(),
        8 * c + 8 <= old(dst).len(),
        0 <= p < 8,
        0 <= k < 4,
    ensures
        word_of(lanes256(indices@[c]), p) < lut.len() ==> composed(
            colour(old(dst)@[8 * c + p], k),
            colour(lut@[word_of(lanes256(indices@[c]), p)], k),
            colour(lut@[word_of(lanes256(indices@[c]), p)], 3),
            colour(final(dst)@[8 * c + p], k),
        ),
        word_of(lanes256(indices@[c]), p) >= lut.len() ==> final(dst)@[8 * c + p] == old(dst)@[8 * c
            + p],
{
    lemma_row_lasx(old(dst).len() as int, indices@, c, p);
    assert(indices@[c]@ =~= lanes256(indices@[c]));
    let i = 8 * c + p;
    let e = pixel::lut_at(lut@, vector::word(indices@[c]@, p));
    assert(final(dst)@[i] == pixel::over_pixel(old(dst)@[i], e));
    lemma_over_pixel(old(dst)@[i], e, k);
    crate::laws::zero_source_keeps(0, old(dst)@[i]);
}

/// A pixel outside the whole chunks that have a register stays.
pub proof fn lut_over_lasx_rest(dst: &mut [u32], lut: &[u32], indices: &[M256i], i: int)
    requires
        call_ensures(lasx::lut_over_lasx, (dst, lut, indices), ()),
        0 <= i < old(dst).len(),
    ensures
        final(dst).len() == old(dst).len(),
        !fits(i, 8, old(dst).len() as int) || i >= 8 * indices.len() ==> final(dst)@[i] == old(
            dst,
        )@[i],
{
    lemma_rest_lasx(old(dst).len() as int, indices@, i);
}

proof fn lemma_row_lasx(len: int, indices: Seq<M256i>, c: int, p: int)
    requires
        0 <= c < indices.len(),
        8 * c + 8 <= len,
        0 <= p < 8,
    ensures
        0 <= 8 * c + p < lasx::lut_row_len(len, indices),
        (8 * c + p) / 8 == c,
        (8 * c + p) % 8 == p,
{
    lemma_fits(8 * c + p, 8, len);
}

proof fn lemma_rest_lasx(len: int, indices: Seq<M256i>, i: int)
    requires
        0 <= i < len,
    ensures
        !fits(i, 8, len) || i >= 8 * indices.len() ==> i >= lasx::lut_row_len(len, indices),
{
    lemma_fits(i, 8, len);
}

/// Whether `combine` gave `c` for the half `h` of the chunk of `old` from index
/// `at` on and the same half of `src`, flipped by `invert` and scaled by
/// `opacity`.
pub open spec fn half_combined_lasx<F: Fn(M256i, M256i) -> M256i>(
    combine: F,
    old: Seq<u8>,
    src: Seq<u8>,
    invert: M256i,
    opacity: M256i,
    at: int,
    h: int,
    a: M256i,
    b: M256i,
    c: M256i,
) -> bool {
    &&& call_ensures(combine, (a, b), c)
    &&& forall|l: int|
        0 <= l < 16 ==> #[trigger] lanes256(a)[l] == old[at + place(l, h)]
    &&& forall|l: int|
        0 <= l < 16 ==> quotient16(
            (src[at + place(l, h)] ^ byte_of(lanes256(invert), place(l, h)) as u8) * lanes256(opacity)[l],
            #[trigger] lanes256(b)[l] as int,
        )
}

/// Every byte of a chunk that both rows fill is the low byte of a lane that
/// `combine` gave: lane `l` of half `h` for the byte in that place. Every other
/// byte stays.
pub proof fn mask_combine_loop_lasx_call<F: Fn(M256i, M256i) -> M256i>(
    dst: &mut [u8],
    src: &[u8],
    invert: M256i,
    opacity: M256i,
    combine: F,
    at: int,
    h: int,
)
    requires
        call_ensures(lasx::mask_combine_loop::<F>, (dst, src, invert, opacity, combine), ()),
        0 <= at,
        at % 32 == 0,
        at + 32 <= old(dst).len(),
        at + 32 <= src.len(),
        h == 0 || h == 1,
    ensures
        final(dst).len() == old(dst).len(),
        exists|a: M256i, b: M256i, c: M256i|
            #[trigger] half_combined_lasx(
                combine,
                old(dst)@,
                src@,
                invert,
                opacity,
                at,
                h,
                a,
                b,
                c,
            ) && (forall|l: int|
                0 <= l < 16 ==> final(dst)@[at + place(l, h)] == #[trigger] lanes256(c)[l] as int % 256),
{
    let t = (dst, src, invert, opacity, combine);
    assert(lasx::chunk_combined(t.4, (*t.0)@, t.1@, t.2@, t.3@, final(t.0)@, at));
    reveal(lasx::combines);
    reveal(lasx::chunk_combined);
    let d = vector::of_bytes(old(dst)@, at, 16);
    let u = vector::of_bytes(src@, at, 16);
    let s = vector::xor_v(u, invert@);
    let out = vector::of_bytes(final(dst)@, at, 16);
    let (x, y) = choose|x: Seq<u16>, y: Seq<u16>|
        {
            &&& #[trigger] lasx::combines(
                combine,
                vector::lo(d),
                vector::div255_round(vector::mul_h(vector::lo(s), opacity@)),
                x,
            )
            &&& #[trigger] lasx::combines(
                combine,
                vector::hi(d),
                vector::div255_round(vector::mul_h(vector::hi(s), opacity@)),
                y,
            )
            &&& out == vector::pack(x, y)
        };
    let half = if h == 0 {
        vector::lo(d)
    } else {
        vector::hi(d)
    };
    let scaled = vector::div255_round(
        vector::mul_h(
            if h == 0 {
                vector::lo(s)
            } else {
                vector::hi(s)
            },
            opacity@,
        ),
    );
    let z = if h == 0 {
        x
    } else {
        y
    };
    assert(lasx::combines(combine, half, scaled, z));
    let (a, b, c) = choose|a: M256i, b: M256i, c: M256i| #[trigger]
        call_ensures(combine, (a, b), c) && a@ == half && b@ == scaled && c@ == z;
    assert(a@ =~= lanes256(a) && b@ =~= lanes256(b) && c@ =~= lanes256(c));
    assert(invert@ =~= lanes256(invert) && opacity@ =~= lanes256(opacity));
    assert forall|l: int| 0 <= l < 16 implies #[trigger] lanes256(a)[l] == old(dst)@[at + place(l, h)] by {
        chunk::lemma_byte_of_bytes(old(dst)@, at, 16, place(l, h));
    }
    assert forall|l: int| 0 <= l < 16 implies quotient16(
        (src@[at + place(l, h)] ^ byte_of(lanes256(invert), place(l, h)) as u8) * lanes256(opacity)[l],
        #[trigger] lanes256(b)[l] as int,
    ) by {
        let j = place(l, h);
        chunk::lemma_byte_of_bytes(src@, at, 16, j);
        lemma_xor_byte(u, invert@, j);
        lemma_byte_of(invert@, j);
        let v = src@[at + j] ^ byte_of(lanes256(invert), j) as u8;
        assert(vector::byte(s, j) == v);
        lemma_quotient16(v * opacity@[l], b@[l] as int);
    }
    assert forall|l: int| 0 <= l < 16 implies final(dst)@[at + place(l, h)] == #[trigger] lanes256(c)[l]
        as int % 256 by {
        let j = place(l, h);
        chunk::lemma_byte_of_bytes(final(dst)@, at, 16, j);
        lemma_place(l, h);
        chunk::lemma_pack(x, y, j);
        reveal(chunk::select);
    }
    assert(half_combined_lasx(combine, old(dst)@, src@, invert, opacity, at, h, a, b, c));
}

/// A byte outside the chunks that both rows fill stays.
pub proof fn mask_combine_loop_lasx_rest<F: Fn(M256i, M256i) -> M256i>(
    dst: &mut [u8],
    src: &[u8],
    invert: M256i,
    opacity: M256i,
    combine: F,
    i: int,
)
    requires
        call_ensures(lasx::mask_combine_loop::<F>, (dst, src, invert, opacity, combine), ()),
        0 <= i < old(dst).len(),
        !(fits(i, 32, old(dst).len() as int) && fits(i, 32, src.len() as int)),
    ensures
        final(dst)@[i] == old(dst)@[i],
{
    lemma_fits2(i, 32, old(dst).len() as int, src.len() as int);
}

/// Sums and differences in every lane modulo 2^16, and both halves of the
/// product.
pub proof fn arithmetic_lsx_call(a: M128i, b: M128i, sum: M128i, difference: M128i, product: M128i, high: M128i, i: int)
    requires
        call_ensures(m128::lsx_vadd_h, (a, b), sum),
        call_ensures(m128::lsx_vsub_h, (a, b), difference),
        call_ensures(m128::lsx_vmul_h, (a, b), product),
        call_ensures(m128::lsx_vmuh_hu, (a, b), high),
        0 <= i < 8,
    ensures
        (lanes128(a)[i] + lanes128(b)[i] - lanes128(sum)[i]) % 65536 == 0,
        (lanes128(a)[i] - lanes128(b)[i] - lanes128(difference)[i]) % 65536 == 0,
        lanes128(a)[i] * lanes128(b)[i] == 65536 * lanes128(high)[i] + lanes128(product)[i],
{
    assert(a@ =~= lanes128(a) && b@ =~= lanes128(b) && sum@ =~= lanes128(sum));
    assert(difference@ =~= lanes128(difference) && product@ =~= lanes128(product) && high@ =~= lanes128(high));
    let (x, y) = (a@[i] as int, b@[i] as int);
    assert(0 <= x * y < 65536 * 65536) by (nonlinear_arith)
        requires
            0 <= x < 65536,
            0 <= y < 65536,
    ;
}

/// The smaller and the larger of two lanes as signed numbers.
pub proof fn extremes_lsx_call(a: M128i, b: M128i, least: M128i, most: M128i, i: int)
    requires
        call_ensures(m128::lsx_vmin_h, (a, b), least),
        call_ensures(m128::lsx_vmax_h, (a, b), most),
        0 <= i < 8,
    ensures
        (lanes128(least)[i] + 32768) % 65536 <= (lanes128(most)[i] + 32768) % 65536,
        lanes128(least)[i] == lanes128(a)[i] && lanes128(most)[i] == lanes128(b)[i] || lanes128(least)[i] == lanes128(b)[i] && lanes128(
            most,
        )[i] == lanes128(a)[i],
{
    assert(a@ =~= lanes128(a) && b@ =~= lanes128(b) && least@ =~= lanes128(least) && most@ =~= lanes128(most));
}

/// Equal lanes give all bits and others none. Exclusive or, or with a
/// complement and shifts go bit by bit.
pub proof fn bits_lsx_call(a: M128i, b: M128i, n: u32, equal: M128i, flipped: M128i, joined: M128i, shifted: M128i, i: int)
    requires
        call_ensures(m128::lsx_vseq_h, (a, b), equal),
        call_ensures(m128::lsx_vxor_v, (a, b), flipped),
        call_ensures(m128::lsx_vorn_v, (a, b), joined),
        call_ensures(m128::lsx_vsrli_h, (a, n), shifted),
        0 <= i < 8,
    ensures
        lanes128(a)[i] == lanes128(b)[i] ==> lanes128(equal)[i] == 0xffff,
        lanes128(a)[i] != lanes128(b)[i] ==> lanes128(equal)[i] == 0,
        lanes128(flipped)[i] == lanes128(a)[i] ^ lanes128(b)[i],
        lanes128(joined)[i] == lanes128(a)[i] | !lanes128(b)[i],
        lanes128(shifted)[i] == lanes128(a)[i] >> n,
{
    assert(a@ =~= lanes128(a) && b@ =~= lanes128(b) && equal@ =~= lanes128(equal));
    assert(flipped@ =~= lanes128(flipped) && joined@ =~= lanes128(joined) && shifted@ =~= lanes128(shifted));
}

/// Interleaving takes the bytes of `b` and `a` in turn, from the low half of
/// every group or from the high one.
pub proof fn interleave_lsx_call(a: M128i, b: M128i, low: M128i, high: M128i, i: int)
    requires
        call_ensures(m128::lsx_vilvl_b, (a, b), low),
        call_ensures(m128::lsx_vilvh_b, (a, b), high),
        0 <= i < 8,
    ensures
        lanes128(low)[i] == byte_of(lanes128(b), place(i, 0)) + 256 * byte_of(lanes128(a), place(i, 0)),
        lanes128(high)[i] == byte_of(lanes128(b), place(i, 1)) + 256 * byte_of(lanes128(a), place(i, 1)),
{
    assert(a@ =~= lanes128(a) && b@ =~= lanes128(b) && low@ =~= lanes128(low) && high@ =~= lanes128(high));
    lemma_byte_of(a@, place(i, 0));
    lemma_byte_of(a@, place(i, 1));
    lemma_byte_of(b@, place(i, 0));
    lemma_byte_of(b@, place(i, 1));
}

/// Interleaving lanes takes those of `b` and `a` in turn, from the low half of
/// group `g`.
pub proof fn interleave_lanes_lsx_call(a: M128i, b: M128i, r: M128i, g: int, m: int)
    requires
        call_ensures(m128::lsx_vilvl_h, (a, b), r),
        0 <= g && 8 * g < 8,
        0 <= m < 4,
    ensures
        lanes128(r)[8 * g + 2 * m] == lanes128(b)[8 * g + m],
        lanes128(r)[8 * g + 2 * m + 1] == lanes128(a)[8 * g + m],
{
    assert(a@ =~= lanes128(a) && b@ =~= lanes128(b) && r@ =~= lanes128(r));
}

/// Picking takes the low byte of every lane, in each group those of `b` first.
pub proof fn pick_lsx_call(a: M128i, b: M128i, r: M128i, i: int)
    requires
        call_ensures(m128::lsx_vpickev_b, (a, b), r),
        0 <= i < 8,
    ensures
        byte_of(lanes128(r), place(i, 0)) == lanes128(b)[i] as int % 256,
        byte_of(lanes128(r), place(i, 1)) == lanes128(a)[i] as int % 256,
{
    assert(r@ =~= lanes128(r) && a@ =~= lanes128(a) && b@ =~= lanes128(b));
    lemma_packed(b@, a@, i);
}

/// A shuffle takes, for every lane, the one of its four that two bits of the
/// pattern name.
pub proof fn shuffle_lsx_call(a: M128i, pattern: u8, r: M128i, i: int)
    requires
        call_ensures(m128::lsx_vshuf4i_h, (a, pattern), r),
        0 <= i < 8,
    ensures
        i % 4 == 0 ==> lanes128(r)[i] == lanes128(a)[i + pattern as int % 4],
        i % 4 == 1 ==> lanes128(r)[i] == lanes128(a)[i - 1 + pattern as int / 4 % 4],
        i % 4 == 2 ==> lanes128(r)[i] == lanes128(a)[i - 2 + pattern as int / 16 % 4],
        i % 4 == 3 ==> lanes128(r)[i] == lanes128(a)[i - 3 + pattern as int / 64],
{
    assert(r@ =~= lanes128(r) && a@ =~= lanes128(a));
    assert(4 * (i / 4) == i - i % 4);
    assert(pattern as int / 64 % 4 == pattern as int / 64);
}

/// A value in every lane, byte, word or pair of words.
pub proof fn repeat_lsx_call(
    x: u16,
    b: u8,
    w: u32,
    q: u64,
    lanes: M128i,
    bytes: M128i,
    words: M128i,
    pairs: M128i,
    zero: M128i,
    i: int,
)
    requires
        call_ensures(m128::lsx_vreplgr2vr_h, (x,), lanes),
        call_ensures(m128::lsx_vreplgr2vr_b, (b,), bytes),
        call_ensures(m128::lsx_vreplgr2vr_w, (w,), words),
        call_ensures(m128::lsx_vreplgr2vr_d, (q,), pairs),
        call_ensures(m128::lsx_vldi_zero, (), zero),
        0 <= i < 8,
    ensures
        lanes128(lanes)[i] == x,
        lanes128(bytes)[i] == b + 256 * b,
        i % 2 == 0 ==> lanes128(words)[i] == w as int % 65536,
        i % 2 == 1 ==> lanes128(words)[i] == w as int / 65536,
        i % 4 == 0 ==> lanes128(pairs)[i] == q as int % 65536,
        i % 4 == 1 ==> lanes128(pairs)[i] == q as int / 0x1_0000 % 65536,
        i % 4 == 2 ==> lanes128(pairs)[i] == q as int / 0x1_0000_0000 % 65536,
        i % 4 == 3 ==> lanes128(pairs)[i] == q as int / 0x1_0000_0000_0000,
        lanes128(zero)[i] == 0,
{
    assert(lanes@ =~= lanes128(lanes) && bytes@ =~= lanes128(bytes) && words@ =~= lanes128(words));
    assert(pairs@ =~= lanes128(pairs) && zero@ =~= lanes128(zero));
}

/// A register holds the words that it is made of, and gives them back.
pub proof fn words_lsx_call(w: [u32; 4], r: M128i, v: M128i, p: usize, x: u32)
    requires
        call_ensures(M128i::from_words, (w,), r),
        call_ensures(M128i::word, (&v, p), x),
        p < 4,
    ensures
        word_of(lanes128(r), p as int) == w@[p as int],
        word_of(lanes128(v), p as int) == x,
{
    assert(r@ =~= lanes128(r) && v@ =~= lanes128(v));
    assert(vector::word(r@, p as int) == w[p as int]);
}

/// Sums and differences in every lane modulo 2^16, and both halves of the
/// product.
pub proof fn arithmetic_lasx_call(a: M256i, b: M256i, sum: M256i, difference: M256i, product: M256i, high: M256i, i: int)
    requires
        call_ensures(m256::lasx_xvadd_h, (a, b), sum),
        call_ensures(m256::lasx_xvsub_h, (a, b), difference),
        call_ensures(m256::lasx_xvmul_h, (a, b), product),
        call_ensures(m256::lasx_xvmuh_hu, (a, b), high),
        0 <= i < 16,
    ensures
        (lanes256(a)[i] + lanes256(b)[i] - lanes256(sum)[i]) % 65536 == 0,
        (lanes256(a)[i] - lanes256(b)[i] - lanes256(difference)[i]) % 65536 == 0,
        lanes256(a)[i] * lanes256(b)[i] == 65536 * lanes256(high)[i] + lanes256(product)[i],
{
    assert(a@ =~= lanes256(a) && b@ =~= lanes256(b) && sum@ =~= lanes256(sum));
    assert(difference@ =~= lanes256(difference) && product@ =~= lanes256(product) && high@ =~= lanes256(high));
    let (x, y) = (a@[i] as int, b@[i] as int);
    assert(0 <= x * y < 65536 * 65536) by (nonlinear_arith)
        requires
            0 <= x < 65536,
            0 <= y < 65536,
    ;
}

/// The smaller and the larger of two lanes as signed numbers.
pub proof fn extremes_lasx_call(a: M256i, b: M256i, least: M256i, most: M256i, i: int)
    requires
        call_ensures(m256::lasx_xvmin_h, (a, b), least),
        call_ensures(m256::lasx_xvmax_h, (a, b), most),
        0 <= i < 16,
    ensures
        (lanes256(least)[i] + 32768) % 65536 <= (lanes256(most)[i] + 32768) % 65536,
        lanes256(least)[i] == lanes256(a)[i] && lanes256(most)[i] == lanes256(b)[i] || lanes256(least)[i] == lanes256(b)[i] && lanes256(
            most,
        )[i] == lanes256(a)[i],
{
    assert(a@ =~= lanes256(a) && b@ =~= lanes256(b) && least@ =~= lanes256(least) && most@ =~= lanes256(most));
}

/// Equal lanes give all bits and others none. Exclusive or, or with a
/// complement and shifts go bit by bit.
pub proof fn bits_lasx_call(a: M256i, b: M256i, n: u32, equal: M256i, flipped: M256i, joined: M256i, shifted: M256i, i: int)
    requires
        call_ensures(m256::lasx_xvseq_h, (a, b), equal),
        call_ensures(m256::lasx_xvxor_v, (a, b), flipped),
        call_ensures(m256::lasx_xvorn_v, (a, b), joined),
        call_ensures(m256::lasx_xvsrli_h, (a, n), shifted),
        0 <= i < 16,
    ensures
        lanes256(a)[i] == lanes256(b)[i] ==> lanes256(equal)[i] == 0xffff,
        lanes256(a)[i] != lanes256(b)[i] ==> lanes256(equal)[i] == 0,
        lanes256(flipped)[i] == lanes256(a)[i] ^ lanes256(b)[i],
        lanes256(joined)[i] == lanes256(a)[i] | !lanes256(b)[i],
        lanes256(shifted)[i] == lanes256(a)[i] >> n,
{
    assert(a@ =~= lanes256(a) && b@ =~= lanes256(b) && equal@ =~= lanes256(equal));
    assert(flipped@ =~= lanes256(flipped) && joined@ =~= lanes256(joined) && shifted@ =~= lanes256(shifted));
}

/// Interleaving takes the bytes of `b` and `a` in turn, from the low half of
/// every group or from the high one.
pub proof fn interleave_lasx_call(a: M256i, b: M256i, low: M256i, high: M256i, i: int)
    requires
        call_ensures(m256::lasx_xvilvl_b, (a, b), low),
        call_ensures(m256::lasx_xvilvh_b, (a, b), high),
        0 <= i < 16,
    ensures
        lanes256(low)[i] == byte_of(lanes256(b), place(i, 0)) + 256 * byte_of(lanes256(a), place(i, 0)),
        lanes256(high)[i] == byte_of(lanes256(b), place(i, 1)) + 256 * byte_of(lanes256(a), place(i, 1)),
{
    assert(a@ =~= lanes256(a) && b@ =~= lanes256(b) && low@ =~= lanes256(low) && high@ =~= lanes256(high));
    lemma_byte_of(a@, place(i, 0));
    lemma_byte_of(a@, place(i, 1));
    lemma_byte_of(b@, place(i, 0));
    lemma_byte_of(b@, place(i, 1));
}

/// Interleaving lanes takes those of `b` and `a` in turn, from the low half of
/// group `g`.
pub proof fn interleave_lanes_lasx_call(a: M256i, b: M256i, r: M256i, g: int, m: int)
    requires
        call_ensures(m256::lasx_xvilvl_h, (a, b), r),
        0 <= g && 8 * g < 16,
        0 <= m < 4,
    ensures
        lanes256(r)[8 * g + 2 * m] == lanes256(b)[8 * g + m],
        lanes256(r)[8 * g + 2 * m + 1] == lanes256(a)[8 * g + m],
{
    assert(a@ =~= lanes256(a) && b@ =~= lanes256(b) && r@ =~= lanes256(r));
}

/// Picking takes the low byte of every lane, in each group those of `b` first.
pub proof fn pick_lasx_call(a: M256i, b: M256i, r: M256i, i: int)
    requires
        call_ensures(m256::lasx_xvpickev_b, (a, b), r),
        0 <= i < 16,
    ensures
        byte_of(lanes256(r), place(i, 0)) == lanes256(b)[i] as int % 256,
        byte_of(lanes256(r), place(i, 1)) == lanes256(a)[i] as int % 256,
{
    assert(r@ =~= lanes256(r) && a@ =~= lanes256(a) && b@ =~= lanes256(b));
    lemma_packed(b@, a@, i);
}

/// A shuffle takes, for every lane, the one of its four that two bits of the
/// pattern name.
pub proof fn shuffle_lasx_call(a: M256i, pattern: u8, r: M256i, i: int)
    requires
        call_ensures(m256::lasx_xvshuf4i_h, (a, pattern), r),
        0 <= i < 16,
    ensures
        i % 4 == 0 ==> lanes256(r)[i] == lanes256(a)[i + pattern as int % 4],
        i % 4 == 1 ==> lanes256(r)[i] == lanes256(a)[i - 1 + pattern as int / 4 % 4],
        i % 4 == 2 ==> lanes256(r)[i] == lanes256(a)[i - 2 + pattern as int / 16 % 4],
        i % 4 == 3 ==> lanes256(r)[i] == lanes256(a)[i - 3 + pattern as int / 64],
{
    assert(r@ =~= lanes256(r) && a@ =~= lanes256(a));
    assert(4 * (i / 4) == i - i % 4);
    assert(pattern as int / 64 % 4 == pattern as int / 64);
}

/// A value in every lane, byte, word or pair of words.
pub proof fn repeat_lasx_call(
    x: u16,
    b: u8,
    w: u32,
    q: u64,
    lanes: M256i,
    bytes: M256i,
    words: M256i,
    pairs: M256i,
    zero: M256i,
    i: int,
)
    requires
        call_ensures(m256::lasx_xvreplgr2vr_h, (x,), lanes),
        call_ensures(m256::lasx_xvreplgr2vr_b, (b,), bytes),
        call_ensures(m256::lasx_xvreplgr2vr_w, (w,), words),
        call_ensures(m256::lasx_xvreplgr2vr_d, (q,), pairs),
        call_ensures(m256::lasx_xvldi_zero, (), zero),
        0 <= i < 16,
    ensures
        lanes256(lanes)[i] == x,
        lanes256(bytes)[i] == b + 256 * b,
        i % 2 == 0 ==> lanes256(words)[i] == w as int % 65536,
        i % 2 == 1 ==> lanes256(words)[i] == w as int / 65536,
        i % 4 == 0 ==> lanes256(pairs)[i] == q as int % 65536,
        i % 4 == 1 ==> lanes256(pairs)[i] == q as int / 0x1_0000 % 65536,
        i % 4 == 2 ==> lanes256(pairs)[i] == q as int / 0x1_0000_0000 % 65536,
        i % 4 == 3 ==> lanes256(pairs)[i] == q as int / 0x1_0000_0000_0000,
        lanes256(zero)[i] == 0,
{
    assert(lanes@ =~= lanes256(lanes) && bytes@ =~= lanes256(bytes) && words@ =~= lanes256(words));
    assert(pairs@ =~= lanes256(pairs) && zero@ =~= lanes256(zero));
}

/// A register holds the words that it is made of, and gives them back.
pub proof fn words_lasx_call(w: [u32; 8], r: M256i, v: M256i, p: usize, x: u32)
    requires
        call_ensures(M256i::from_words, (w,), r),
        call_ensures(M256i::word, (&v, p), x),
        p < 8,
    ensures
        word_of(lanes256(r), p as int) == w@[p as int],
        word_of(lanes256(v), p as int) == x,
{
    assert(r@ =~= lanes256(r) && v@ =~= lanes256(v));
    assert(vector::word(r@, p as int) == w[p as int]);
}

} // verus!
