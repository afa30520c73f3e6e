//! What the kernels compute, pixel by pixel.
//!
//! A coverage pixel is one byte. A colour pixel is a 32-bit word that holds
//! premultiplied red, green, blue and alpha, red in the low byte.

use vstd::prelude::*;

use crate::lane;
use crate::vector;

verus! {

/// The number of elements in the whole chunks of `width` that fit into `len`.
pub open spec fn whole(width: int, len: int) -> int {
    len - len % width
}

/// The number of elements in the chunks of `width` that both rows fill.
pub open spec fn whole2(width: int, a: int, b: int) -> int {
    whole(width, if a <= b { a } else { b })
}

/// The number of elements in the chunks of `width` that all three rows fill.
pub open spec fn whole3(width: int, a: int, b: int, c: int) -> int {
    whole2(width, if a <= b { a } else { b }, c)
}

/// `old` with the first `n` elements replaced by `f` of their index.
pub open spec fn written<T>(old: Seq<T>, n: int, f: spec_fn(int) -> T) -> Seq<T> {
    Seq::new(old.len(), |i: int| if i < n { f(i) } else { old[i] })
}

/// `old` with the elements from `from` up to `to` replaced by `f` of their
/// index.
pub open spec fn rewritten<T>(old: Seq<T>, from: int, to: int, f: spec_fn(int) -> T) -> Seq<T> {
    Seq::new(old.len(), |i: int| if from <= i < to { f(i) } else { old[i] })
}

// Coverage pixels.

/// Source-over of coverage `s` onto coverage `d`.
pub open spec fn alpha_over(d: u8, s: int) -> u8 {
    lane::over(d as int, s, 255 - s) as u8
}

/// Coverage `c` at `alpha`, composited onto `d`.
pub open spec fn alpha_scaled_over(d: u8, c: u8, alpha: u8) -> u8 {
    alpha_over(d, lane::div255(c * alpha))
}

/// The product of two coverages.
pub open spec fn alpha_product(d: u8, f: u8) -> u8 {
    lane::div255(d * f) as u8
}

/// The factor by which a matte keeps what it covers: the matte's coverage at
/// `opacity`, or what is left of full coverage.
pub open spec fn matte_factor(s: u8, opacity: u8, inverted: bool) -> u8 {
    if inverted {
        (255 - lane::div255(s * opacity)) as u8
    } else {
        lane::div255(s * opacity) as u8
    }
}

/// What a mask contributes: its coverage or the complement, at `opacity`.
pub open spec fn mask_contribution(s: u8, inverted: bool, opacity: u8) -> u8 {
    if inverted {
        lane::div255((255 - s) * opacity) as u8
    } else {
        lane::div255(s * opacity) as u8
    }
}

/// The combination of a mask with the contribution of another: subtraction
/// for mode `s`, intersection for `i`, difference for `f`, and addition for
/// every other mode.
pub open spec fn mask_combined(mode: u8, old: u8, contribution: u8) -> u8 {
    if mode == lane::MODE_SUBTRACT {
        lane::div255(old * (255 - contribution)) as u8
    } else if mode == lane::MODE_INTERSECT {
        lane::div255(old * contribution) as u8
    } else if mode == lane::MODE_DIFFERENCE {
        if old >= contribution {
            (old - contribution) as u8
        } else {
            (contribution - old) as u8
        }
    } else {
        (contribution + lane::div255((255 - contribution) * old)) as u8
    }
}

// Colour pixels.

/// Channel `k` of a pixel: 0 for red, 1 for green, 2 for blue, 3 for alpha.
pub open spec fn channel(p: u32, k: int) -> u8 {
    if k == 0 {
        (p % 256) as u8
    } else if k == 1 {
        (p / 256 % 256) as u8
    } else if k == 2 {
        (p / 0x1_0000 % 256) as u8
    } else {
        (p / 0x100_0000) as u8
    }
}

/// The pixel whose channel `k` is `f(k)`.
pub open spec fn pixel_of(f: spec_fn(int) -> u8) -> u32 {
    (f(0) + 256 * f(1) + 0x1_0000 * f(2) + 0x100_0000 * f(3)) as u32
}

/// `d` under a matte whose coverage is the alpha of `s`.
pub open spec fn matte_pixel(d: u32, s: u32, opacity: u8, inverted: bool) -> u32 {
    pixel_of(|k: int| alpha_product(channel(d, k), matte_factor(channel(s, 3), opacity, inverted)))
}

/// Source-over of pixel `s` onto pixel `d`.
pub open spec fn over_pixel(d: u32, s: u32) -> u32 {
    pixel_of(|k: int| lane::over(channel(d, k) as int, channel(s, k) as int, 255 - channel(s, 3)) as u8)
}

/// Pixel `s` with every channel scaled by `k`.
pub open spec fn scaled_pixel(s: u32, k: u8) -> u32 {
    pixel_of(|c: int| lane::div255(channel(s, c) * k) as u8)
}

/// The premultiplied pixel of the colour `r`, `g`, `b` at alpha `a`.
pub open spec fn premultiplied(r: u8, g: u8, b: u8, a: u8) -> u32 {
    pixel_of(
        |k: int|
            if k == 0 {
                lane::div255(r * a) as u8
            } else if k == 1 {
                lane::div255(g * a) as u8
            } else if k == 2 {
                lane::div255(b * a) as u8
            } else {
                a
            },
    )
}

/// The pixel with these channels.
pub open spec fn rgba(r: u8, g: u8, b: u8, a: u8) -> u32 {
    pixel_of(
        |k: int|
            if k == 0 {
                r
            } else if k == 1 {
                g
            } else if k == 2 {
                b
            } else {
                a
            },
    )
}

/// The colour `r`, `g`, `b`, `a` at coverage `c`, composited onto `d`.
pub open spec fn solid_pixel(d: u32, c: u8, r: u8, g: u8, b: u8, a: u8) -> u32 {
    over_pixel(d, premultiplied(r, g, b, lane::div255(c * a) as u8))
}

/// Pixel `s` at opacity `k`, composited onto `d`.
pub open spec fn composite_pixel(d: u32, s: u32, k: u8) -> u32 {
    over_pixel(d, scaled_pixel(s, k))
}

/// Entry `i` of a colour table, transparent where the table has none.
pub open spec fn lut_at(lut: Seq<u32>, i: u32) -> u32 {
    if i < lut.len() {
        lut[i as int]
    } else {
        0
    }
}

/// Entry `i` of a colour table, transparent where the table has none.
pub fn lut_entry(lut: &[u32], i: u32) -> (r: u32)
    ensures
        r == lut_at(lut@, i),
        i < lut.len() ==> r == lut@[i as int],
        i >= lut.len() ==> r == 0,
{
    if (i as usize) < lut.len() {
        lut[i as usize]
    } else {
        0
    }
}

// Colour pixels from arguments wider than a channel: what the sixteen-bit
// lanes hold.

/// Four sixteen-bit lanes side by side. A value of more than sixteen bits
/// reaches into the lanes above its own.
pub open spec fn lane_pattern(a: u32, b: u32, c: u32, d: u32) -> u64 {
    a as u64 | (b as u64) << 16 | (c as u64) << 32 | (d as u64) << 48
}

/// Lane source-over of one channel, cut back to a byte.
pub open spec fn lane_over_byte(d: u8, s: u16, inv: u16) -> u8 {
    (lane::lane_over(d as u16, s, inv) % 256) as u8
}

/// The lanes of a colour at coverage `c`, composited onto `d`.
pub open spec fn lane_solid_pixel(d: u32, c: u8, sr: u32, sg: u32, sb: u32, sa: u32) -> u32 {
    let ca = lane::lane_div255(lane::wrap16(c * lane::wrap16(sa as int)));
    pixel_of(
        |k: int|
            lane_over_byte(
                channel(d, k),
                lane::lane_div255(
                    lane::wrap16(vector::pattern_lane(lane_pattern(sr, sg, sb, 255), k) * ca),
                ),
                lane::wrap16(255 - ca),
            ),
    )
}

/// The lanes of a premultiplied colour, composited onto `d`.
pub open spec fn lane_uniform_pixel(d: u32, ca: u32, s_r: u32, s_g: u32, s_b: u32) -> u32 {
    pixel_of(
        |k: int|
            lane_over_byte(
                channel(d, k),
                vector::pattern_lane(lane_pattern(s_r, s_g, s_b, ca), k),
                lane::wrap16(255 - ca),
            ),
    )
}

/// The lanes of pixel `s` at opacity `k`, composited onto `d`.
pub open spec fn lane_composite_pixel(d: u32, s: u32, k: u32) -> u32 {
    let kq = lane::wrap16(k as int);
    pixel_of(
        |c: int|
            lane_over_byte(
                channel(d, c),
                lane::lane_div255(lane::wrap16(channel(s, c) * kq)),
                lane::wrap16(255 - lane::lane_div255(lane::wrap16(channel(s, 3) * kq))),
            ),
    )
}

} // verus!
