//! One 16-bit lane: the arithmetic of a single vector lane, and what it comes
//! to on lanes that hold channel values.

use vstd::prelude::*;

verus! {

/// The mask mode `s`: what is held, less the contribution.
pub const MODE_SUBTRACT: u8 = 0x73;

/// The mask mode `i`: what is held and contributed.
pub const MODE_INTERSECT: u8 = 0x69;

/// The mask mode `f`: what is either held or contributed.
pub const MODE_DIFFERENCE: u8 = 0x66;

/// The low sixteen bits of `x`.
pub open spec fn wrap16(x: int) -> u16 {
    (x % 65536) as u16
}

/// The lane read as a two's complement number.
pub open spec fn signed(a: u16) -> int {
    if a < 0x8000 {
        a as int
    } else {
        a - 0x1_0000
    }
}

/// The smaller of two lanes as signed numbers.
pub open spec fn min16(a: u16, b: u16) -> u16 {
    if signed(a) <= signed(b) {
        a
    } else {
        b
    }
}

/// The larger of two lanes as signed numbers.
pub open spec fn max16(a: u16, b: u16) -> u16 {
    if signed(a) <= signed(b) {
        b
    } else {
        a
    }
}

/// `n / 255`, rounded to the nearest integer.
pub open spec fn div255(n: int) -> int {
    (n + 127) / 255
}

/// What a lane holds after the multiply-high division by 255: the low sixteen
/// bits of `n + 127`, times 0x8081, without its low 23 bits.
#[verifier::opaque]
pub open spec fn lane_div255(n: u16) -> u16 {
    (wrap16(n + 127) * 0x8081 / 0x80_0000) as u16
}

/// Premultiplied source-over of one channel.
pub open spec fn over(d: int, s: int, inv: int) -> int {
    if s + d * (inv + 1) / 256 <= 255 {
        s + d * (inv + 1) / 256
    } else {
        255
    }
}

/// What a lane holds after source-over: the same sum modulo 2^16, and its
/// signed minimum with 255.
#[verifier::opaque]
pub open spec fn lane_over(d: u16, s: u16, inv: u16) -> u16 {
    min16(wrap16(s + wrap16(d * wrap16(inv + 1)) / 256), 255)
}

/// What a lane holds after the combination of a mask with a contribution:
/// subtraction for mode `s`, intersection for `i`, difference for `f`, and
/// addition for every other mode.
#[verifier::opaque]
pub open spec fn lane_combined(mode: u8, held: u16, contribution: u16) -> u16 {
    if mode == MODE_SUBTRACT {
        lane_div255(wrap16(held * wrap16(255 - contribution)))
    } else if mode == MODE_INTERSECT {
        lane_div255(wrap16(held * contribution))
    } else if mode == MODE_DIFFERENCE {
        wrap16(max16(held, contribution) - min16(held, contribution))
    } else {
        wrap16(contribution + lane_div255(wrap16(wrap16(255 - contribution) * held)))
    }
}

/// The sum of two lanes modulo 2^16.
pub fn add_lane(a: u16, b: u16) -> (r: u16)
    ensures
        r == wrap16(a + b),
{
    ((a as u32 + b as u32) % 0x1_0000) as u16
}

/// The difference of two lanes modulo 2^16.
pub fn sub_lane(a: u16, b: u16) -> (r: u16)
    ensures
        r == wrap16(a - b),
{
    ((0x1_0000 + a as u32 - b as u32) % 0x1_0000) as u16
}

/// The low half of the product of two lanes.
pub fn mul_lane(a: u16, b: u16) -> (r: u16)
    ensures
        r == wrap16(a * b),
{
    proof {
        lemma_product_fits(a, b);
    }
    ((a as u32 * b as u32) % 0x1_0000) as u16
}

/// The high half of the unsigned product of two lanes.
pub fn muh_lane(a: u16, b: u16) -> (r: u16)
    ensures
        r == a * b / 0x1_0000,
{
    proof {
        lemma_product_fits(a, b);
    }
    ((a as u32 * b as u32) / 0x1_0000) as u16
}

/// The smaller of two lanes as signed numbers.
pub fn min_lane(a: u16, b: u16) -> (r: u16)
    ensures
        r == min16(a, b),
{
    if biased(a) <= biased(b) {
        a
    } else {
        b
    }
}

/// The larger of two lanes as signed numbers.
pub fn max_lane(a: u16, b: u16) -> (r: u16)
    ensures
        r == max16(a, b),
{
    if biased(a) <= biased(b) {
        b
    } else {
        a
    }
}

/// The signed value of a lane, moved up by 2^15 so that it is never negative.
fn biased(a: u16) -> (r: u16)
    ensures
        r == signed(a) + 0x8000,
{
    if a < 0x8000 {
        a + 0x8000
    } else {
        a - 0x8000
    }
}

proof fn lemma_product_fits(a: u16, b: u16)
    ensures
        0 <= a * b <= 0xfffe_0001,
{
    assert(0 <= a * b <= 0xffff * 0xffff) by (nonlinear_arith)
        requires
            0 <= a <= 0xffff,
            0 <= b <= 0xffff,
    ;
}

/// The product of two bytes.
pub proof fn lemma_byte_product(a: int, b: int)
    requires
        0 <= a <= 255,
        0 <= b <= 255,
    ensures
        0 <= a * b <= 65025,
        a * b <= 255 * a,
        a * b <= 255 * b,
{
    assert(0 <= a * b <= 65025 && a * b <= 255 * a && a * b <= 255 * b) by (nonlinear_arith)
        requires
            0 <= a <= 255,
            0 <= b <= 255,
    ;
}

/// On the product of two bytes the lane division is the rounded division by
/// 255, and the quotient is no larger than either byte.
pub proof fn lemma_div255_of_product(a: int, b: int)
    requires
        0 <= a <= 255,
        0 <= b <= 255,
    ensures
        lane_div255(wrap16(a * b)) == div255(a * b),
        0 <= div255(a * b) <= a,
        div255(a * b) <= b,
{
    lemma_byte_product(a, b);
    let n = a * b;
    assert(wrap16(n) == n && wrap16(n + 127) == n + 127);
    assert(lane_div255(wrap16(n)) == (n + 127) / 255) by {
        reveal(lane_div255);
        crate::laws::reciprocal_is_exact(n + 127);
    }
    assert(0 <= (n + 127) / 255 <= a && (n + 127) / 255 <= b);
}

/// On channel values the lane source-over is the exact one.
pub proof fn lemma_over_of_channels(d: int, s: int, inv: int)
    requires
        0 <= d <= 255,
        0 <= s <= 255,
        0 <= inv <= 255,
    ensures
        lane_over(d as u16, s as u16, inv as u16) == over(d, s, inv),
        0 <= over(d, s, inv) <= 255,
{
    let m = d * (inv + 1);
    assert(0 <= m <= 65280) by (nonlinear_arith)
        requires
            0 <= d <= 255,
            0 <= inv <= 255,
            m == d * (inv + 1),
    ;
    let t = m / 256;
    assert(0 <= t <= 255);
    assert(wrap16(inv + 1) == inv + 1 && wrap16(m) == m && wrap16(s + t) == s + t);
    assert(lane_over(d as u16, s as u16, inv as u16) == min16((s + t) as u16, 255)) by {
        reveal(lane_over);
        assert((d as u16) * wrap16((inv as u16) + 1) == m);
    }
}

/// On coverage the lanes of a scaled source-over hold the exact result.
pub proof fn lemma_scaled_over_lane(d: u8, c: u8, alpha: u8)
    ensures
        lane_over(
            d as u16,
            lane_div255(wrap16(c * alpha)),
            wrap16(255 - lane_div255(wrap16(c * alpha))),
        ) == crate::pixel::alpha_scaled_over(d, c, alpha),
{
    lemma_div255_of_product(c as int, alpha as int);
    let s = div255(c * alpha);
    lemma_over_of_channels(d as int, s, 255 - s);
}

/// On coverage the lanes of a source-over hold the exact result.
pub proof fn lemma_alpha_over_of_bytes(d: u8, s: u8)
    ensures
        lane_over(d as u16, s as u16, wrap16(255 - s as u16)) == crate::pixel::alpha_over(
            d,
            s as int,
        ),
{
    lemma_over_of_channels(d as int, s as int, 255 - s);
}

/// Subtracting the low half of a word from 255 in a lane is subtracting the
/// word.
pub proof fn lemma_inverse(ca: u32)
    ensures
        wrap16(255 - wrap16(ca as int)) == wrap16(255 - ca),
{
    vstd::arithmetic::div_mod::lemma_sub_mod_noop_right(255, ca as int, 0x1_0000);
}

/// On channel values the lane source-over, cut back to a byte, is exact.
pub proof fn lemma_over_byte_of_channels(d: u8, s: u8, alpha: u8)
    ensures
        crate::pixel::lane_over_byte(d, s as u16, wrap16(255 - alpha as u16)) == over(
            d as int,
            s as int,
            255 - alpha,
        ),
{
    lemma_over_of_channels(d as int, s as int, 255 - alpha);
}

/// What a mask contributes fits its lane.
pub proof fn lemma_contribution(s: u8, opacity: u8)
    ensures
        lane_div255(wrap16(s as u16 * opacity as u16)) == div255(s * opacity),
        0 <= div255(s * opacity) <= 255,
{
    lemma_div255_of_product(s as int, opacity as int);
}

/// Flipping the low eight bits of a channel value complements it, and flipping
/// none keeps it.
pub proof fn lemma_flip(f: u16)
    ensures
        f <= 255 ==> f ^ 255 == 255 - f,
        f ^ 0 == f,
{
    assert(f <= 255 ==> f ^ 255 == 255 - f) by (bit_vector);
    assert(f ^ 0 == f) by (bit_vector);
}

/// Flipping all bits of a lane complements both of its bytes.
pub proof fn lemma_flip_bytes(f: u16)
    ensures
        f ^ 0xffff == 0xffff - f,
        f ^ 0 == f,
{
    assert(f ^ 0xffff == 0xffff - f) by (bit_vector);
    assert(f ^ 0 == f) by (bit_vector);
}

/// On coverage the lane combination is the exact one.
pub proof fn lemma_combined_of_bytes(mode: u8, held: u8, contribution: u8)
    ensures
        lane_combined(mode, held as u16, contribution as u16) == crate::pixel::mask_combined(
            mode,
            held,
            contribution,
        ),
{
    reveal(lane_combined);
    let (o, c) = (held as int, contribution as int);
    assert(wrap16(255 - c) == 255 - c);
    if mode == MODE_SUBTRACT {
        lemma_div255_of_product(o, 255 - c);
    } else if mode == MODE_INTERSECT {
        lemma_div255_of_product(o, c);
    } else if mode == MODE_DIFFERENCE {
        assert(signed(held as u16) == o && signed(contribution as u16) == c);
    } else {
        lemma_div255_of_product(255 - c, o);
        let q = div255((255 - c) * o);
        assert(0 <= c + q <= 255);
        assert(wrap16(c + q) == c + q);
    }
}

/// Nothing over a channel keeps it, and a full source leaves nothing of it.
pub proof fn lemma_over_extremes(d: int, s: int)
    requires
        0 <= d <= 255,
        0 <= s <= 255,
    ensures
        over(d, 0, 255) == d,
        over(d, s, 0) == s,
{
    assert(d * (255 + 1) == 256 * d) by (nonlinear_arith);
    assert(d * (0 + 1) == d) by (nonlinear_arith);
}

/// Dropping seven bits of a lane divides it by 128.
pub proof fn lemma_shift_7(a: u16)
    ensures
        a >> 7 == a / 128,
{
    assert(a >> 7 == a / 128) by (bit_vector);
}

/// Dropping eight bits of a lane divides it by 256.
pub proof fn lemma_shift_8(a: u16)
    ensures
        a >> 8 == a / 256,
{
    assert(a >> 8 == a / 256) by (bit_vector);
}

} // verus!
