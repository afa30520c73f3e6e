use simd_kernels::lasx;
use simd_kernels::lsx;

/// Lengths around the chunk widths.
const LENGTHS: [usize; 9] = [0, 1, 15, 16, 17, 31, 32, 33, 70];

fn div255(n: u32) -> u32 {
    (n + 127) / 255
}

fn over(d: u8, s: u32, inv: u32) -> u8 {
    (s + (d as u32 * (inv + 1) >> 8)).min(255) as u8
}

fn blend(d: u8, s: u32) -> u8 {
    over(d, s, 255 - s)
}

fn scaled(d: u8, c: u8, a: u8) -> u8 {
    blend(d, div255(c as u32 * a as u32))
}

fn product(d: u8, f: u8) -> u8 {
    div255(d as u32 * f as u32) as u8
}

/// A row that runs through every byte value and ends on no pattern.
fn row(len: usize, seed: usize) -> Vec<u8> {
    (0..len).map(|i| ((i * 37 + seed * 101) % 256) as u8).collect()
}

/// Runs a kernel on `dst` and holds it to `pixel` on the first `n` pixels.
fn check(
    dst: &[u8],
    n: usize,
    kernel: impl Fn(&mut [u8]),
    pixel: impl Fn(usize, u8) -> u8,
) {
    let mut got = dst.to_vec();
    kernel(&mut got);
    let expected: Vec<u8> = dst
        .iter()
        .enumerate()
        .map(|(i, d)| if i < n { pixel(i, *d) } else { *d })
        .collect();
    assert_eq!(got, expected);
}

fn chunks(width: usize, a: usize, b: usize) -> usize {
    a.min(b) / width * width
}

#[test]
fn solid_blends_scale_the_coverage() {
    for len in LENGTHS {
        for alpha in [0u8, 1, 77, 128, 254, 255] {
            let (dst, cov) = (row(len, 1), row(len, 2));
            check(
                &dst,
                chunks(16, len, len),
                |d| lsx::alpha_blend_solid_lsx(d, &cov, alpha),
                |i, d| scaled(d, cov[i], alpha),
            );
            check(
                &dst,
                chunks(32, len, len),
                |d| lasx::alpha_blend_solid_lasx(d, &cov, alpha),
                |i, d| scaled(d, cov[i], alpha),
            );
        }
    }
}

#[test]
fn solid_blend_has_an_exact_value() {
    let mut dst = [100u8; 16];
    lsx::alpha_blend_solid_lsx(&mut dst, &[200; 16], 128);
    assert_eq!(dst, [160; 16]);
    let mut dst = [100u8; 32];
    lasx::alpha_blend_solid_lasx(&mut dst, &[200; 32], 128);
    assert_eq!(dst, [160; 32]);
}

#[test]
fn every_product_of_two_bytes_divides_exactly() {
    // All 65536 pairs, through the product and through the blend.
    for f in 0..=255u8 {
        let all: Vec<u8> = (0..=255).collect();
        let factors = vec![f; 256];
        check(
            &all,
            256,
            |d| lsx::alpha_multiply_lsx(d, &factors),
            |_, d| product(d, f),
        );
        check(
            &all,
            256,
            |d| lasx::alpha_multiply_lasx(d, &factors),
            |_, d| product(d, f),
        );
        check(
            &all,
            256,
            |d| lsx::alpha_blend_uniform_lsx(d, f),
            |_, d| blend(d, f as u32),
        );
        check(
            &all,
            256,
            |d| lasx::alpha_blend_uniform_lasx(d, f),
            |_, d| blend(d, f as u32),
        );
    }
}

#[test]
fn product_blends_multiply_the_rows() {
    for len in LENGTHS {
        let (dst, l, r) = (row(len, 3), row(len + 5, 4), row(len, 5));
        check(
            &dst,
            chunks(16, len, len),
            |d| lsx::alpha_blend_product_lsx(d, &l, &r),
            |i, d| scaled(d, l[i], r[i]),
        );
        check(
            &dst,
            chunks(32, len, len),
            |d| lasx::alpha_blend_product_lasx(d, &l, &r),
            |i, d| scaled(d, l[i], r[i]),
        );
    }
}

#[test]
fn the_shortest_row_decides() {
    let (dst, l, r) = (row(96, 3), row(48, 4), row(33, 5));
    check(
        &dst,
        32,
        |d| lsx::alpha_blend_product_lsx(d, &l, &r),
        |i, d| scaled(d, l[i], r[i]),
    );
    check(
        &dst,
        32,
        |d| lasx::alpha_blend_product_lasx(d, &l, &r),
        |i, d| scaled(d, l[i], r[i]),
    );
    let short = row(20, 6);
    check(
        &short,
        16,
        |d| lsx::alpha_multiply_lsx(d, &l),
        |i, d| product(d, l[i]),
    );
    check(
        &short,
        0,
        |d| lasx::alpha_multiply_lasx(d, &l),
        |_, d| d,
    );
}

#[test]
fn compositing_scales_the_source() {
    for len in LENGTHS {
        for opacity in [0u8, 3, 128, 255] {
            let (dst, src) = (row(len, 7), row(len, 8));
            check(
                &dst,
                chunks(16, len, len),
                |d| lsx::alpha_composite_over_lsx(d, &src, opacity),
                |i, d| scaled(d, src[i], opacity),
            );
            check(
                &dst,
                chunks(32, len, len),
                |d| lasx::alpha_composite_over_lasx(d, &src, opacity),
                |i, d| scaled(d, src[i], opacity),
            );
        }
    }
}

#[test]
fn mattes_keep_what_they_cover() {
    for len in LENGTHS {
        for opacity in [0u8, 90, 255] {
            for inverted in [false, true] {
                let (dst, src) = (row(len, 9), row(len, 10));
                let factor = |i: usize| {
                    let f = div255(src[i] as u32 * opacity as u32) as u8;
                    if inverted {
                        255 - f
                    } else {
                        f
                    }
                };
                check(
                    &dst,
                    chunks(16, len, len),
                    |d| lsx::alpha_matte_lsx(d, &src, opacity, inverted),
                    |i, d| product(d, factor(i)),
                );
                check(
                    &dst,
                    chunks(32, len, len),
                    |d| lasx::alpha_matte_lasx(d, &src, opacity, inverted),
                    |i, d| product(d, factor(i)),
                );
            }
        }
    }
}

#[test]
fn masks_combine_by_mode() {
    let combined = |mode: u8, old: u8, c: u8| -> u8 {
        let (o, c) = (old as u32, c as u32);
        match mode {
            b's' => div255(o * (255 - c)) as u8,
            b'i' => div255(o * c) as u8,
            b'f' => o.abs_diff(c) as u8,
            _ => (c + div255((255 - c) * o)) as u8,
        }
    };
    for mode in [b's', b'i', b'f', b'a', 0, 255] {
        for inverted in [false, true] {
            for opacity in [0u8, 100, 255] {
                for len in LENGTHS {
                    let (dst, src) = (row(len, 11), row(len, 12));
                    let contribution = |i: usize| {
                        let s = if inverted { 255 - src[i] } else { src[i] };
                        div255(s as u32 * opacity as u32) as u8
                    };
                    check(
                        &dst,
                        chunks(16, len, len),
                        |d| lsx::alpha_mask_combine_lsx(d, &src, mode, inverted, opacity),
                        |i, d| combined(mode, d, contribution(i)),
                    );
                    check(
                        &dst,
                        chunks(32, len, len),
                        |d| lasx::alpha_mask_combine_lasx(d, &src, mode, inverted, opacity),
                        |i, d| combined(mode, d, contribution(i)),
                    );
                }
            }
        }
    }
}

#[test]
fn mask_modes_have_exact_values() {
    for (mode, expected) in [(b's', 122u8), (b'i', 78), (b'f', 100), (b'a', 222)] {
        let mut dst = [200u8; 16];
        lsx::alpha_mask_combine_lsx(&mut dst, &[100; 16], mode, false, 255);
        assert_eq!(dst, [expected; 16]);
        let mut dst = [200u8; 32];
        lasx::alpha_mask_combine_lasx(&mut dst, &[155; 32], mode, true, 255);
        assert_eq!(dst, [expected; 32]);
    }
}

#[test]
fn both_widths_agree_on_whole_rows() {
    let (dst, src) = (row(256, 13), row(256, 14));
    let mut narrow = dst.clone();
    let mut wide = dst.clone();
    lsx::alpha_composite_over_lsx(&mut narrow, &src, 200);
    lasx::alpha_composite_over_lasx(&mut wide, &src, 200);
    assert_eq!(narrow, wide);
    lsx::alpha_matte_lsx(&mut narrow, &src, 90, true);
    lasx::alpha_matte_lasx(&mut wide, &src, 90, true);
    assert_eq!(narrow, wide);
    lsx::alpha_mask_combine_lsx(&mut narrow, &src, b'f', false, 31);
    lasx::alpha_mask_combine_lasx(&mut wide, &src, b'f', false, 31);
    assert_eq!(narrow, wide);
}

#[test]
fn full_and_empty_coverage_are_the_extremes() {
    let dst = row(32, 15);
    for (source, expected) in [(0u8, dst.clone()), (255, vec![255; 32])] {
        let mut got = dst.clone();
        lsx::alpha_blend_uniform_lsx(&mut got, source);
        assert_eq!(got, expected);
        let mut got = dst.clone();
        lasx::alpha_blend_uniform_lasx(&mut got, source);
        assert_eq!(got, expected);
    }
}

#[test]
fn opposite_mattes_share_out_full_coverage() {
    let src: Vec<u8> = (0..=255).collect();
    for opacity in [0u8, 1, 127, 254, 255] {
        let mut kept = vec![255u8; 256];
        let mut cut = vec![255u8; 256];
        lsx::alpha_matte_lsx(&mut kept, &src, opacity, false);
        lsx::alpha_matte_lsx(&mut cut, &src, opacity, true);
        for i in 0..256 {
            assert_eq!(kept[i] as u32 + cut[i] as u32, 255);
        }
    }
}
