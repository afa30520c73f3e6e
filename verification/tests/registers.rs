use simd_kernels::lasx;
use simd_kernels::lsx;
use simd_kernels::m128::{
    le_word, lsx_bnz_h, lsx_bz_v, lsx_vadd_h, lsx_vbitclri_w, lsx_vilvh_b, lsx_vilvl_b,
    lsx_vilvl_h, lsx_vmax_h, lsx_vmin_h, lsx_vmuh_hu, lsx_vmul_h, lsx_vorn_v, lsx_vpickev_b,
    lsx_vreplgr2vr_d, lsx_vreplgr2vr_h, lsx_vreplgr2vr_w, lsx_vseq_h, lsx_vshuf4i_h, lsx_vsrli_h,
    lsx_vsub_h, lsx_vxor_v, M128i,
};
use simd_kernels::m256::{
    lasx_xbnz_h, lasx_xbz_v, lasx_xvilvl_b, lasx_xvinsgr2vr_w, lasx_xvpickev_b,
    lasx_xvreplgr2vr_h, M256i,
};

fn counting() -> M128i {
    M128i { h: [0x0100, 0x0302, 0x0504, 0x0706, 0x0908, 0x0b0a, 0x0d0c, 0x0f0e] }
}

fn wide() -> M256i {
    let high = M128i { h: [0x1110, 0x1312, 0x1514, 0x1716, 0x1918, 0x1b1a, 0x1d1c, 0x1f1e] };
    M256i { low: counting(), high }
}

#[test]
fn halves_widen_in_place() {
    assert_eq!(lsx::lo(counting()).h, [0, 1, 2, 3, 4, 5, 6, 7]);
    assert_eq!(lsx::hi(counting()).h, [8, 9, 10, 11, 12, 13, 14, 15]);
    let l = lasx::lo(wide());
    assert_eq!(l.low.h, [0, 1, 2, 3, 4, 5, 6, 7]);
    assert_eq!(l.high.h, [16, 17, 18, 19, 20, 21, 22, 23]);
    let h = lasx::hi(wide());
    assert_eq!(h.low.h, [8, 9, 10, 11, 12, 13, 14, 15]);
    assert_eq!(h.high.h, [24, 25, 26, 27, 28, 29, 30, 31]);
}

#[test]
fn packing_restores_what_widening_took_apart() {
    let v = counting();
    assert_eq!(lsx::pack(lsx::lo(v), lsx::hi(v)).h, v.h);
    let v = wide();
    let r = lasx::pack(lasx::lo(v), lasx::hi(v));
    assert_eq!(r.low.h, v.low.h);
    assert_eq!(r.high.h, v.high.h);
}

#[test]
fn packing_drops_high_bytes() {
    let a = lsx_vreplgr2vr_h(0x12ab);
    let b = lsx_vreplgr2vr_h(0x34cd);
    assert_eq!(lsx::pack(a, b).h, [0xabab, 0xabab, 0xabab, 0xabab, 0xcdcd, 0xcdcd, 0xcdcd, 0xcdcd]);
}

#[test]
fn alpha_spreads_over_its_pixel() {
    let v = M128i { h: [1, 2, 3, 4, 5, 6, 7, 8] };
    assert_eq!(lsx::splat_alpha(v).h, [4, 4, 4, 4, 8, 8, 8, 8]);
    let r = lasx::splat_alpha(M256i { low: v, high: M128i { h: [9; 8] } });
    assert_eq!(r.low.h, [4, 4, 4, 4, 8, 8, 8, 8]);
    assert_eq!(r.high.h, [9; 8]);
}

#[test]
fn division_is_exact_up_to_the_largest_product() {
    for n in 0..=65025u32 {
        let expected = ((n + 127) / 255) as u16;
        assert_eq!(lsx::div255_round(lsx_vreplgr2vr_h(n as u16)).h[0], expected);
        assert_eq!(lasx::div255_round(lasx_xvreplgr2vr_h(n as u16)).high.h[7], expected);
    }
}

#[test]
fn the_reciprocal_is_exact_below_its_bound() {
    for x in 0..66299u64 {
        assert_eq!((x * 0x8081) >> 23, x / 255);
    }
    assert_ne!((66299u64 * 0x8081) >> 23, 66299 / 255);
}

#[test]
fn division_wraps_above_sixteen_bits() {
    // 65500 + 127 wraps to 91.
    assert_eq!(lsx::div255_round(lsx_vreplgr2vr_h(65500)).h[3], 0);
    assert_eq!(lsx::div255_round(lsx_vreplgr2vr_h(65408)).h[3], 257);
}

#[test]
fn source_over_clamps() {
    let lanes = |x: u16| lsx_vreplgr2vr_h(x);
    assert_eq!(lsx::over(lanes(100), lanes(50), lanes(255)).h[0], 150);
    assert_eq!(lsx::over(lanes(255), lanes(200), lanes(200)).h[5], 255);
    assert_eq!(lsx::over(lanes(255), lanes(10), lanes(0)).h[5], 10);
    assert_eq!(lsx::alpha_over8(lanes(100), lanes(100)).h[1], 160);
    // The minimum is signed: a sum of 0x8000 or more is smaller than 255.
    assert_eq!(lsx::over(lanes(0), lanes(0x9000), lanes(0)).h[0], 0x9000);
    assert_eq!(lsx::over(lanes(0), lanes(0x7000), lanes(0)).h[0], 255);
    let wide = |x: u16| lasx_xvreplgr2vr_h(x);
    assert_eq!(lasx::over(wide(100), wide(50), wide(255)).high.h[0], 150);
    assert_eq!(lasx::alpha_over8(wide(100), wide(100)).low.h[1], 160);
}

#[test]
fn lane_arithmetic_wraps() {
    let lanes = |x: u16| lsx_vreplgr2vr_h(x);
    assert_eq!(lsx_vadd_h(lanes(0xffff), lanes(2)).h, [1; 8]);
    assert_eq!(lsx_vsub_h(lanes(1), lanes(2)).h, [0xffff; 8]);
    assert_eq!(lsx_vmul_h(lanes(0x1234), lanes(0x100)).h, [0x3400; 8]);
    assert_eq!(lsx_vmuh_hu(lanes(0xffff), lanes(0xffff)).h, [0xfffe; 8]);
    assert_eq!(lsx_vsrli_h(lanes(0x8100), 8).h, [0x81; 8]);
    assert_eq!(lsx_vmin_h(lanes(0xffff), lanes(1)).h, [0xffff; 8]);
    assert_eq!(lsx_vmax_h(lanes(0xffff), lanes(1)).h, [1; 8]);
    assert_eq!(lsx_vseq_h(lanes(5), lanes(5)).h, [0xffff; 8]);
    assert_eq!(lsx_vseq_h(lanes(5), lanes(6)).h, [0; 8]);
    assert_eq!(lsx_vxor_v(lanes(0x0ff0), lanes(0x00ff)).h, [0x0f0f; 8]);
    assert_eq!(lsx_vorn_v(lanes(0x00f0), lanes(0x0fff)).h, [0xf0f0; 8]);
}

#[test]
fn lanes_move_within_their_group() {
    let v = counting();
    let zero = lsx_vreplgr2vr_h(0);
    assert_eq!(lsx_vilvl_b(zero, v).h[3], 3);
    assert_eq!(lsx_vilvl_b(v, zero).h[3], 0x0300);
    assert_eq!(lsx_vilvh_b(v, v).h[0], 0x0808);
    assert_eq!(lsx_vilvl_h(zero, v).h, [0x0100, 0, 0x0302, 0, 0x0504, 0, 0x0706, 0]);
    assert_eq!(lsx_vpickev_b(zero, v).h, [0x0200, 0x0604, 0x0a08, 0x0e0c, 0, 0, 0, 0]);
    assert_eq!(
        lsx_vshuf4i_h(v, 0b00_01_10_11).h,
        [0x0706, 0x0504, 0x0302, 0x0100, 0x0f0e, 0x0d0c, 0x0b0a, 0x0908]
    );
    let w = lasx_xvilvl_b(wide(), wide());
    assert_eq!(w.low.h[1], 0x0101);
    assert_eq!(w.high.h[1], 0x1111);
    let w = lasx_xvpickev_b(wide(), wide());
    assert_eq!(w.high.h[0], 0x1210);
    assert_eq!(w.high.h[4], 0x1210);
}

#[test]
fn scalars_replicate() {
    assert_eq!(lsx_vreplgr2vr_w(0x1234_5678).h, [0x5678, 0x1234, 0x5678, 0x1234, 0x5678, 0x1234, 0x5678, 0x1234]);
    assert_eq!(lsx_vreplgr2vr_d(0x0004_0003_0002_0001).h, [1, 2, 3, 4, 1, 2, 3, 4]);
    let r = lasx_xvinsgr2vr_w(lasx_xvreplgr2vr_h(7), 0xaaaa_bbbb, 4);
    assert_eq!(r.low.h, [7; 8]);
    assert_eq!(r.high.h, [0xbbbb, 0xaaaa, 7, 7, 7, 7, 7, 7]);
    let r = lasx_xvinsgr2vr_w(lasx_xvreplgr2vr_h(7), 0xaaaa_bbbb, 3);
    assert_eq!(r.low.h, [7, 7, 7, 7, 7, 7, 0xbbbb, 0xaaaa]);
    assert_eq!(le_word(&[9, 1, 2, 3, 4], 1), 0x0403_0201);
}

#[test]
fn branches_look_at_every_lane() {
    let mut v = lsx_vreplgr2vr_h(3);
    assert_eq!(lsx_bnz_h(v), 1);
    assert_eq!(lsx_bz_v(v), 0);
    v.h[7] = 0;
    assert_eq!(lsx_bnz_h(v), 0);
    let zero = lsx_vreplgr2vr_h(0);
    assert_eq!(lsx_bz_v(zero), 1);
    assert_eq!(lasx_xbnz_h(M256i { low: lsx_vreplgr2vr_h(1), high: v }), 0);
    assert_eq!(lasx_xbz_v(M256i { low: zero, high: zero }), 1);
    assert_eq!(lasx_xbz_v(M256i { low: zero, high: v }), 0);
}

#[test]
fn bits_clear_in_words() {
    let v = lsx_vreplgr2vr_w(0xffff_ffff);
    assert_eq!(lsx_vbitclri_w(v, 31).word(2), 0x7fff_ffff);
    assert_eq!(lsx_vbitclri_w(v, 0).word(1), 0xffff_fffe);
}

#[test]
fn loads_and_stores_keep_byte_order() {
    let bytes: Vec<u8> = (0..40).collect();
    let v = lsx::load(&bytes, 3);
    assert_eq!(v.byte(0), 3);
    assert_eq!(v.byte(15), 18);
    let mut out = vec![0u8; 20];
    lsx::store(&mut out, 2, v);
    assert_eq!(out[..2], [0, 0]);
    assert_eq!(out[2..18], bytes[3..19]);
    assert_eq!(out[18..], [0, 0]);
    let w = lasx::load(&bytes, 8);
    let mut out = vec![0u8; 33];
    lasx::store(&mut out, 1, w);
    assert_eq!(out[1..], bytes[8..]);
    let pixels: Vec<u32> = (0..9).map(|i| i * 0x0101_0102).collect();
    let v = lsx::load_pixels(&pixels, 1);
    assert_eq!(v.word(0), 0x0101_0102);
    let mut out = vec![7u32; 5];
    lsx::store_pixels(&mut out, 1, v);
    assert_eq!(out, [7, pixels[1], pixels[2], pixels[3], pixels[4]]);
    let w = lasx::load_pixels(&pixels, 1);
    assert_eq!(w.word(7), pixels[8]);
    let mut out = vec![7u32; 8];
    lasx::store_pixels(&mut out, 0, w);
    assert_eq!(out[..], pixels[1..]);
}
