use simd_kernels::lasx;
use simd_kernels::lsx;
use simd_kernels::m128::M128i;
use simd_kernels::m256::M256i;

const LUT: [u32; 3] = [0xff00_0001, 0x8010_2030, 0xffff_ffff];

fn over(d: u32, s: u32) -> u32 {
    let (d, s) = (d.to_le_bytes().map(u32::from), s.to_le_bytes().map(u32::from));
    let mut r = [0u8; 4];
    for k in 0..4 {
        r[k] = (s[k] + (d[k] * (255 - s[3] + 1) >> 8)).min(255) as u8;
    }
    u32::from_le_bytes(r)
}

fn words128(v: M128i) -> [u32; 4] {
    [v.word(0), v.word(1), v.word(2), v.word(3)]
}

fn words256(v: M256i) -> [u32; 8] {
    [v.word(0), v.word(1), v.word(2), v.word(3), v.word(4), v.word(5), v.word(6), v.word(7)]
}

#[test]
fn gathering_misses_to_transparent() {
    let idx = M128i::from_words([2, 0, 3, u32::MAX]);
    assert_eq!(words128(lsx::lut_gather(&LUT, idx)), [LUT[2], LUT[0], 0, 0]);
    let idx = M256i::from_words([0, 1, 2, 3, 2, 1, 0, u32::MAX]);
    assert_eq!(
        words256(lasx::lut_gather(&LUT, idx)),
        [LUT[0], LUT[1], LUT[2], 0, LUT[2], LUT[1], LUT[0], 0]
    );
    assert_eq!(words128(lsx::lut_gather(&[], M128i::from_words([0; 4]))), [0; 4]);
}

#[test]
fn lanes_that_are_not_valid_miss_the_table() {
    let idx = M128i::from_words([1, 2, 0, 1]);
    let valid = M128i::from_words([u32::MAX, 0, u32::MAX, 0]);
    assert_eq!(words128(lsx::lut_indices(idx, valid)), [1, u32::MAX, 0, u32::MAX]);
    let mut out = [9u32; 4];
    lsx::lut_store(&mut out, 0, &LUT, lsx::lut_indices(idx, valid));
    assert_eq!(out, [LUT[1], 0, LUT[0], 0]);
    let mut dst = [0x1234_5678u32; 4];
    lsx::lut_blend_over_k255(&mut dst, 0, &LUT, lsx::lut_indices(idx, valid));
    assert_eq!(dst, [over(0x1234_5678, LUT[1]), 0x1234_5678, LUT[0], 0x1234_5678]);
    let idx = M256i::from_words([1; 8]);
    let valid = M256i::from_words([u32::MAX, 0, 0, 0, 0, 0, 0, u32::MAX]);
    let masked = words256(lasx::lut_indices(idx, valid));
    assert_eq!(masked[0], 1);
    assert_eq!(masked[3], u32::MAX);
    assert_eq!(masked[7], 1);
}

#[test]
fn stores_stay_within_their_chunk() {
    let mut out = [7u32; 12];
    lsx::lut_store(&mut out, 3, &LUT, M128i::from_words([0, 1, 2, 3]));
    assert_eq!(out, [7, 7, 7, LUT[0], LUT[1], LUT[2], 0, 7, 7, 7, 7, 7]);
    let mut out = [7u32; 12];
    lasx::lut_store(&mut out, 1, &LUT, M256i::from_words([0, 1, 2, 3, 0, 1, 2, 3]));
    assert_eq!(out, [7, LUT[0], LUT[1], LUT[2], 0, LUT[0], LUT[1], LUT[2], 0, 7, 7, 7]);
    let mut dst = [0x4040_4040u32; 10];
    lasx::lut_blend_over_k255(&mut dst, 2, &LUT, M256i::from_words([1; 8]));
    assert_eq!(dst[..2], [0x4040_4040; 2]);
    assert_eq!(dst[2..], [over(0x4040_4040, LUT[1]); 8]);
}

#[test]
fn rows_take_one_register_per_chunk() {
    let idx = [M128i::from_words([0, 1, 2, 0]), M128i::from_words([2, 2, 1, 9])];
    let flat = [0usize, 1, 2, 0, 2, 2, 1, 9];
    for len in [0usize, 3, 4, 7, 8, 11, 20] {
        let n = (len / 4 * 4).min(8);
        let entry = |i: usize| LUT.get(flat[i]).copied().unwrap_or(0);
        let mut out = vec![5u32; len];
        lsx::lut_fill_lsx(&mut out, &LUT, &idx);
        for i in 0..len {
            assert_eq!(out[i], if i < n { entry(i) } else { 5 });
        }
        let mut dst = vec![0x8877_6655u32; len];
        lsx::lut_over_lsx(&mut dst, &LUT, &idx);
        for i in 0..len {
            assert_eq!(dst[i], if i < n { over(0x8877_6655, entry(i)) } else { 0x8877_6655 });
        }
    }
    let idx = [M256i::from_words([0, 1, 2, 0, 2, 2, 1, 9])];
    for len in [0usize, 7, 8, 11, 20] {
        let n = (len / 8 * 8).min(8);
        let entry = |i: usize| LUT.get(flat[i]).copied().unwrap_or(0);
        let mut out = vec![5u32; len];
        lasx::lut_fill_lasx(&mut out, &LUT, &idx);
        let mut dst = vec![0x8877_6655u32; len];
        lasx::lut_over_lasx(&mut dst, &LUT, &idx);
        for i in 0..len {
            assert_eq!(out[i], if i < n { entry(i) } else { 5 });
            assert_eq!(dst[i], if i < n { over(0x8877_6655, entry(i)) } else { 0x8877_6655 });
        }
    }
}

#[test]
fn float_patterns_lose_only_their_sign() {
    for x in [0.0f32, -0.0, 1.5, -1.5, f32::INFINITY, f32::NEG_INFINITY, -f32::MIN_POSITIVE] {
        let v = lsx::splat_float(x.to_bits());
        assert_eq!(words128(v), [x.to_bits(); 4]);
        assert_eq!(words128(lsx::abs_float(v)), [x.abs().to_bits(); 4]);
        let v = lasx::splat_float(x.to_bits());
        assert_eq!(words256(v), [x.to_bits(); 8]);
        assert_eq!(words256(lasx::abs_float(v)), [x.abs().to_bits(); 8]);
    }
}
