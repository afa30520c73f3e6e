use simd_kernels::lasx;
use simd_kernels::lsx;

/// Lengths around the chunk widths.
const LENGTHS: [usize; 8] = [0, 3, 4, 5, 7, 8, 9, 21];

fn div255(n: u32) -> u32 {
    (n + 127) / 255
}

fn over(d: u32, s: u32, inv: u32) -> u32 {
    (s + (d * (inv + 1) >> 8)).min(255)
}

fn channels(p: u32) -> [u32; 4] {
    p.to_le_bytes().map(u32::from)
}

fn pixel(c: [u32; 4]) -> u32 {
    u32::from_le_bytes(c.map(|x| x as u8))
}

fn over_pixel(d: u32, s: [u32; 4]) -> u32 {
    let d = channels(d);
    let inv = 255 - s[3];
    pixel([
        over(d[0], s[0], inv),
        over(d[1], s[1], inv),
        over(d[2], s[2], inv),
        over(d[3], s[3], inv),
    ])
}

fn composite(d: u32, s: u32, k: u32) -> u32 {
    over_pixel(d, channels(s).map(|c| div255(c * k)))
}

fn solid(d: u32, c: u8, r: u32, g: u32, b: u32, a: u32) -> u32 {
    let ca = div255(c as u32 * a);
    over_pixel(d, [div255(r * ca), div255(g * ca), div255(b * ca), ca])
}

fn row(len: usize, seed: u32) -> Vec<u32> {
    (0..len as u32).map(|i| (i + 1).wrapping_mul(0x9e37_79b9).wrapping_add(seed * 0x85eb_ca6b)).collect()
}

fn cover(len: usize) -> Vec<u8> {
    (0..len).map(|i| (i * 53 % 256) as u8).collect()
}

/// Runs a kernel on `dst` and holds it to `f` on the first `n` pixels.
fn check(dst: &[u32], n: usize, kernel: impl Fn(&mut [u32]), f: impl Fn(usize, u32) -> u32) {
    let mut got = dst.to_vec();
    kernel(&mut got);
    let expected: Vec<u32> = dst
        .iter()
        .enumerate()
        .map(|(i, d)| if i < n { f(i, *d) } else { *d })
        .collect();
    assert_eq!(got, expected);
}

#[test]
fn mattes_scale_every_channel() {
    for len in LENGTHS {
        for opacity in [0u8, 1, 100, 255] {
            for inverted in [false, true] {
                let (dst, src) = (row(len, 1), row(len, 2));
                let f = |i: usize, d: u32| {
                    let f = div255(channels(src[i])[3] * opacity as u32);
                    let f = if inverted { 255 - f } else { f };
                    pixel(channels(d).map(|c| div255(c * f)))
                };
                check(
                    &dst,
                    len / 4 * 4,
                    |d| lsx::apply_matte_alpha_lsx(d, &src, opacity, inverted),
                    f,
                );
                check(
                    &dst,
                    len / 8 * 8,
                    |d| lasx::apply_matte_alpha_lasx(d, &src, opacity, inverted),
                    f,
                );
            }
        }
    }
}

#[test]
fn a_full_matte_changes_nothing() {
    let dst = row(16, 3);
    let opaque = vec![0xff00_0000u32; 16];
    let clear = vec![0x00ff_ffffu32; 16];
    for (src, inverted) in [(&opaque, false), (&clear, true)] {
        let mut got = dst.clone();
        lsx::apply_matte_alpha_lsx(&mut got, src, 255, inverted);
        assert_eq!(got, dst);
        lasx::apply_matte_alpha_lasx(&mut got, src, 255, inverted);
        assert_eq!(got, dst);
    }
}

#[test]
fn one_partial_factor_is_not_skipped() {
    for at in 0..8 {
        let dst = row(8, 4);
        let mut src = vec![0xff00_0000u32; 8];
        src[at] = 0x8000_0000;
        let f = |i: usize, d: u32| pixel(channels(d).map(|c| div255(c * channels(src[i])[3])));
        check(&dst, 8, |d| lsx::apply_matte_alpha_lsx(d, &src, 255, false), f);
        check(&dst, 8, |d| lasx::apply_matte_alpha_lasx(d, &src, 255, false), f);
    }
}

#[test]
fn solid_fills_follow_the_coverage() {
    for len in LENGTHS {
        for (r, g, b, a) in [(255, 128, 3, 255), (10, 20, 30, 77), (0, 0, 0, 0), (255, 255, 255, 255)] {
            let (dst, cov) = (row(len, 5), cover(len));
            let f = |i: usize, d: u32| solid(d, cov[i], r, g, b, a);
            check(&dst, len / 4 * 4, |d| lsx::fill_span_solid_lsx(d, &cov, r, g, b, a), f);
            check(&dst, len / 8 * 8, |d| lasx::fill_span_solid_lasx(d, &cov, r, g, b, a), f);
        }
    }
}

#[test]
fn solid_fill_has_an_exact_value() {
    // ca = 100, source 100, 50, 0, 100, and 156/256 of the destination.
    let mut dst = [0x6464_6464u32; 4];
    lsx::fill_span_solid_lsx(&mut dst, &[200; 4], 255, 128, 0, 128);
    assert_eq!(dst, [pixel([160, 110, 60, 160]); 4]);
    let mut dst = [0x6464_6464u32; 8];
    lasx::fill_span_solid_lasx(&mut dst, &[200; 8], 255, 128, 0, 128);
    assert_eq!(dst, [pixel([160, 110, 60, 160]); 8]);
}

#[test]
fn wide_colours_reach_into_the_next_lane() {
    // A green of 0x1_0000 is bit 0 of the blue lane.
    let mut a = [0u32; 8];
    let mut b = [0u32; 8];
    lsx::fill_span_solid_lsx(&mut a, &[255; 8], 7, 0x1_0000, 0, 255);
    lsx::fill_span_solid_lsx(&mut b, &[255; 8], 7, 0, 1, 255);
    assert_eq!(a, b);
    lasx::fill_span_solid_lasx(&mut a, &[255; 8], 7, 0x1_0000, 0, 255);
    lasx::fill_span_solid_lasx(&mut b, &[255; 8], 7, 0, 1, 255);
    assert_eq!(a, b);
    lsx::fill_span_uniform_lsx(&mut a, 0, 0x2_0003, 0, 0);
    lsx::fill_span_uniform_lsx(&mut b, 0, 3, 2, 0);
    assert_eq!(a, b);
    // Only the low sixteen bits of an opacity count.
    let src = row(8, 6);
    lsx::composite_over_lsx(&mut a, &src, 0x5_0080);
    lsx::composite_over_lsx(&mut b, &src, 0x80);
    assert_eq!(a, b);
}

#[test]
fn uniform_fills_composite_one_colour() {
    for len in LENGTHS {
        for s in [[0, 0, 0, 0], [255, 255, 255, 255], [20, 40, 60, 80], [255, 0, 9, 1]] {
            let dst = row(len, 7);
            check(
                &dst,
                len / 4 * 4,
                |d| lsx::fill_span_uniform_lsx(d, s[3], s[0], s[1], s[2]),
                |_, d| over_pixel(d, s),
            );
            check(
                &dst,
                len / 8 * 8,
                |d| lasx::fill_span_uniform_lasx(d, s[3], s[0], s[1], s[2]),
                |_, d| over_pixel(d, s),
            );
        }
    }
}

#[test]
fn a_solid_fill_is_a_uniform_fill_of_its_coverage() {
    for c in [0u8, 1, 100, 254, 255] {
        let (r, g, b, a) = (200, 100, 50, 220);
        let ca = div255(c as u32 * a);
        let mut one = row(8, 8);
        let mut two = one.clone();
        lsx::fill_span_solid_lsx(&mut one, &[c; 8], r, g, b, a);
        lsx::fill_span_uniform_lsx(&mut two, ca, div255(r * ca), div255(g * ca), div255(b * ca));
        assert_eq!(one, two);
    }
}

#[test]
fn compositing_scales_the_source_pixels() {
    for len in LENGTHS {
        for k in [0u32, 1, 128, 255] {
            let (dst, src) = (row(len, 9), row(len + 1, 10));
            let f = |i: usize, d: u32| composite(d, src[i], k);
            check(&dst, len / 4 * 4, |d| lsx::composite_over_lsx(d, &src, k), f);
            check(&dst, len / 8 * 8, |d| lasx::composite_over_lasx(d, &src, k), f);
        }
    }
}

#[test]
fn transparent_pixels_leave_the_destination() {
    let dst = row(16, 11);
    for k in [0u32, 200, 255] {
        let mut got = dst.clone();
        lsx::composite_over_lsx(&mut got, &[0; 16], k);
        assert_eq!(got, dst);
        lasx::composite_over_lasx(&mut got, &[0; 16], k);
        assert_eq!(got, dst);
    }
    // One pixel that is not transparent is not skipped.
    for at in 0..8 {
        let mut src = [0u32; 8];
        src[at] = 0xff01_0203;
        let f = |i: usize, d: u32| composite(d, src[i], 255);
        check(&dst[..8], 8, |d| lsx::composite_over_lsx(d, &src, 255), f);
        check(&dst[..8], 8, |d| lasx::composite_over_lasx(d, &src, 255), f);
    }
}

#[test]
fn opaque_pixels_replace_the_destination() {
    let src: Vec<u32> = row(8, 12).iter().map(|p| p | 0xff00_0000).collect();
    let mut got = row(8, 13);
    lsx::composite_over_lsx(&mut got, &src, 255);
    assert_eq!(got, src);
    let mut got = row(8, 13);
    lasx::composite_over_lasx(&mut got, &src, 255);
    assert_eq!(got, src);
}

#[test]
fn premultiplied_pixels_stay_premultiplied() {
    let premultiply = |p: &u32| {
        let c = channels(*p);
        pixel([div255(c[0] * c[3]), div255(c[1] * c[3]), div255(c[2] * c[3]), c[3]])
    };
    let src: Vec<u32> = row(64, 14).iter().map(premultiply).collect();
    let mut dst: Vec<u32> = row(64, 15).iter().map(premultiply).collect();
    lsx::composite_over_lsx(&mut dst, &src, 190);
    lasx::apply_matte_alpha_lasx(&mut dst, &src, 240, true);
    lsx::fill_span_solid_lsx(&mut dst, &cover(64), 255, 200, 3, 130);
    for p in dst {
        let c = channels(p);
        assert!(c[0] <= c[3] && c[1] <= c[3] && c[2] <= c[3]);
    }
}

#[test]
fn both_widths_agree_on_whole_pixel_rows() {
    let (dst, src, cov) = (row(64, 16), row(64, 17), cover(64));
    let (mut narrow, mut wide) = (dst.clone(), dst);
    lsx::composite_over_lsx(&mut narrow, &src, 99);
    lasx::composite_over_lasx(&mut wide, &src, 99);
    assert_eq!(narrow, wide);
    lsx::fill_span_solid_lsx(&mut narrow, &cov, 1, 2, 3, 255);
    lasx::fill_span_solid_lasx(&mut wide, &cov, 1, 2, 3, 255);
    assert_eq!(narrow, wide);
    lsx::apply_matte_alpha_lsx(&mut narrow, &src, 12, true);
    lasx::apply_matte_alpha_lasx(&mut wide, &src, 12, true);
    assert_eq!(narrow, wide);
}
