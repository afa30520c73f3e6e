//! LASX kernels, 8 pixels (u32) / 32 pixels (Alpha8) per iteration.
//!
//! A kernel works on the whole chunks that all its rows fill and leaves the
//! rest of the destination alone.

use vstd::prelude::*;

use crate::chunk;
use crate::lane;
use crate::lane::{sub_lane, MODE_DIFFERENCE, MODE_INTERSECT, MODE_SUBTRACT};
use crate::m128::le_word;
use crate::m256::{
    lasx_xbnz_h, lasx_xbz_v, lasx_xvadd_h, lasx_xvbitclri_w, lasx_xvilvh_b, lasx_xvilvl_b,
    lasx_xvilvl_h, lasx_xvinsgr2vr_w, lasx_xvld_bytes, lasx_xvld_words, lasx_xvldi_zero,
    lasx_xvmax_h, lasx_xvmin_h, lasx_xvmuh_hu, lasx_xvmul_h, lasx_xvorn_v, lasx_xvpickev_b,
    lasx_xvreplgr2vr_b, lasx_xvreplgr2vr_d, lasx_xvreplgr2vr_h, lasx_xvreplgr2vr_w, lasx_xvseq_h,
    lasx_xvshuf4i_h, lasx_xvsrli_h, lasx_xvst_bytes, lasx_xvst_words, lasx_xvsub_h, lasx_xvxor_v,
    M256i,
};
use crate::pixel;
use crate::pixel::lut_entry;
use crate::vector;

verus! {

/// Widens the low 8 bytes of each 128-bit lane (pixels 0-1 and 4-5) to 16
/// lanes. Staying lane-local lets [`pack`] restore byte order without
/// cross-lane permutes.
pub fn lo(v: M256i) -> (r: M256i)
    ensures
        r@ == vector::lo(v@),
{
    proof {
        reveal(vector::byte);
    }
    lasx_xvilvl_b(lasx_xvldi_zero(), v)
}

/// Widens the high 8 bytes of each 128-bit lane (pixels 2-3 and 6-7) to 16
/// lanes.
pub fn hi(v: M256i) -> (r: M256i)
    ensures
        r@ == vector::hi(v@),
{
    proof {
        reveal(vector::byte);
    }
    lasx_xvilvh_b(lasx_xvldi_zero(), v)
}

/// Exact `(n + 127) / 255` on lanes of at most 65025: `(x * 0x8081) >> 23`
/// with `x = n + 127`.
pub fn div255_round(n: M256i) -> (r: M256i)
    ensures
        r@ == vector::div255_round(n@),
        forall|i: int|
            0 <= i < 16 && n@[i] <= 65025 ==> #[trigger] r@[i] == lane::div255(n@[i] as int),
{
    let x = lasx_xvadd_h(n, lasx_xvreplgr2vr_h(127));
    let m = lasx_xvmuh_hu(x, lasx_xvreplgr2vr_h(0x8081));
    let r = lasx_xvsrli_h(m, 7);
    proof {
        chunk::lemma_div255_lanes(n@, x@, m@, r@);
    }
    r
}

/// Premultiplied source-over on channel lanes.
pub fn over(d: M256i, s: M256i, inv: M256i) -> (r: M256i)
    ensures
        r@ == vector::over(d@, s@, inv@),
        forall|i: int|
            0 <= i < 16 && d@[i] <= 255 && s@[i] <= 255 && inv@[i] <= 255 ==> #[trigger] r@[i]
                == lane::over(d@[i] as int, s@[i] as int, inv@[i] as int),
{
    let m = lasx_xvmul_h(d, lasx_xvadd_h(inv, lasx_xvreplgr2vr_h(1)));
    let t = lasx_xvsrli_h(m, 8);
    let r = lasx_xvmin_h(lasx_xvadd_h(s, t), lasx_xvreplgr2vr_h(255));
    proof {
        chunk::lemma_over_lanes(d@, s@, inv@, m@, t@, r@);
    }
    r
}

/// Source-over on lanes of coverage, each its own alpha.
pub fn alpha_over8(dst: M256i, source: M256i) -> (r: M256i)
    ensures
        r@ == vector::alpha_over8(dst@, source@),
        forall|i: int|
            0 <= i < 16 && dst@[i] <= 255 && source@[i] <= 255 ==> #[trigger] r@[i] == lane::over(
                dst@[i] as int,
                source@[i] as int,
                255 - source@[i],
            ),
{
    let inv = lasx_xvsub_h(lasx_xvreplgr2vr_h(255), source);
    let r = over(dst, source, inv);
    assert(r@ =~= vector::alpha_over8(dst@, source@));
    r
}

/// Replicates each half's alpha (channels 3/7 of every 128-bit lane) across
/// its pixel's four channel lanes.
pub fn splat_alpha(half: M256i) -> (r: M256i)
    ensures
        r@ == vector::splat_alpha(half@),
{
    lasx_xvshuf4i_h(half, 0xff)
}

/// Packs two 16-lane halves into 32 bytes by keeping each lane's low byte, in
/// each 128-bit lane the bytes of `a` first. [`lo`] and [`hi`] are lane-local,
/// so every byte lands back in place.
pub fn pack(a: M256i, b: M256i) -> (r: M256i)
    ensures
        r@ == vector::pack(a@, b@),
{
    lasx_xvpickev_b(b, a)
}

/// Loads the 32 bytes from index `at` on.
pub fn load(bytes: &[u8], at: usize) -> (r: M256i)
    requires
        at + 32 <= bytes.len(),
    ensures
        forall|j: int| 0 <= j < 32 ==> #[trigger] vector::byte(r@, j) == bytes[at + j],
{
    lasx_xvld_bytes(bytes, at)
}

/// Stores the 32 bytes of `value` from index `at` on.
pub fn store(bytes: &mut [u8], at: usize, value: M256i)
    requires
        at + 32 <= old(bytes).len(),
    ensures
        final(bytes)@ == vector::stored_bytes(old(bytes)@, at as int, value@),
{
    lasx_xvst_bytes(value, bytes, at)
}

/// Loads the 8 pixels from index `at` on.
pub fn load_pixels(pixels: &[u32], at: usize) -> (r: M256i)
    requires
        at + 8 <= pixels.len(),
    ensures
        forall|p: int| 0 <= p < 8 ==> #[trigger] vector::word(r@, p) == pixels[at + p],
{
    lasx_xvld_words(pixels, at)
}

/// Stores the 8 pixels of `value` from index `at` on.
pub fn store_pixels(pixels: &mut [u32], at: usize, value: M256i)
    requires
        at + 8 <= old(pixels).len(),
    ensures
        final(pixels)@ == vector::stored_words(old(pixels)@, at as int, value@),
{
    lasx_xvst_words(value, pixels, at)
}

// Alpha8 kernels: 32 pixels per iteration.

/// Composites `coverage` at `alpha` onto `dst`.
pub fn alpha_blend_solid_lasx(dst: &mut [u8], coverage: &[u8], alpha: u8)
    ensures
        final(dst)@ == pixel::written(
            old(dst)@,
            pixel::whole2(32, old(dst).len() as int, coverage.len() as int),
            |i: int| pixel::alpha_scaled_over(old(dst)@[i], coverage@[i], alpha),
        ),
{
    let av = lasx_xvreplgr2vr_h(alpha as u16);
    let ghost f = |i: int| pixel::alpha_scaled_over(old(dst)@[i], coverage@[i], alpha);
    let mut at: usize = 0;
    while dst.len() - at >= 32 && coverage.len() - at >= 32
        invariant
            at <= dst.len(),
            at <= coverage.len(),
            at % 32 == 0,
            av@ == vector::splat(16, alpha as u16),
            f == (|i: int| pixel::alpha_scaled_over(old(dst)@[i], coverage@[i], alpha)),
            dst@ == pixel::written(old(dst)@, at as int, f),
        decreases dst.len() - at,
    {
        let d = load(dst, at);
        let c = load(coverage, at);
        let sl = div255_round(lasx_xvmul_h(lo(c), av));
        let sh = div255_round(lasx_xvmul_h(hi(c), av));
        let out = pack(alpha_over8(lo(d), sl), alpha_over8(hi(d), sh));
        assert forall|j: int| 0 <= j < 32 implies #[trigger] vector::byte(out@, j) == f(at + j) by {
            chunk::lemma_scaled_over(d@, c@, alpha, out@, j);
        }
        store(dst, at, out);
        at += 32;
        assert(dst@ =~= pixel::written(old(dst)@, at as int, f));
    }
    proof {
        chunk::lemma_whole2(32, old(dst).len() as int, coverage.len() as int, at as int);
    }
}

/// Composites the product of `lhs` and `rhs` onto `dst`.
pub fn alpha_blend_product_lasx(dst: &mut [u8], lhs: &[u8], rhs: &[u8])
    ensures
        final(dst)@ == pixel::written(
            old(dst)@,
            pixel::whole3(32, old(dst).len() as int, lhs.len() as int, rhs.len() as int),
            |i: int| pixel::alpha_scaled_over(old(dst)@[i], lhs@[i], rhs@[i]),
        ),
{
    let ghost f = |i: int| pixel::alpha_scaled_over(old(dst)@[i], lhs@[i], rhs@[i]);
    let mut at: usize = 0;
    while dst.len() - at >= 32 && lhs.len() - at >= 32 && rhs.len() - at >= 32
        invariant
            at <= dst.len(),
            at <= lhs.len(),
            at <= rhs.len(),
            at % 32 == 0,
            f == (|i: int| pixel::alpha_scaled_over(old(dst)@[i], lhs@[i], rhs@[i])),
            dst@ == pixel::written(old(dst)@, at as int, f),
        decreases dst.len() - at,
    {
        let d = load(dst, at);
        let l = load(lhs, at);
        let r = load(rhs, at);
        let sl = div255_round(lasx_xvmul_h(lo(l), lo(r)));
        let sh = div255_round(lasx_xvmul_h(hi(l), hi(r)));
        let out = pack(alpha_over8(lo(d), sl), alpha_over8(hi(d), sh));
        assert forall|j: int| 0 <= j < 32 implies #[trigger] vector::byte(out@, j) == f(at + j) by {
            chunk::lemma_product_over(d@, l@, r@, out@, j);
        }
        store(dst, at, out);
        at += 32;
        assert(dst@ =~= pixel::written(old(dst)@, at as int, f));
    }
    proof {
        let shorter = if old(dst).len() <= lhs.len() {
            old(dst).len() as int
        } else {
            lhs.len() as int
        };
        chunk::lemma_whole2(32, shorter, rhs.len() as int, at as int);
    }
}

/// Composites the coverage `source` onto every pixel of `dst`.
pub fn alpha_blend_uniform_lasx(dst: &mut [u8], source: u8)
    ensures
        final(dst)@ == pixel::written(
            old(dst)@,
            pixel::whole(32, old(dst).len() as int),
            |i: int| pixel::alpha_over(old(dst)@[i], source as int),
        ),
{
    let sv = lasx_xvreplgr2vr_h(source as u16);
    let ghost f = |i: int| pixel::alpha_over(old(dst)@[i], source as int);
    let mut at: usize = 0;
    while dst.len() - at >= 32
        invariant
            at <= dst.len(),
            at % 32 == 0,
            sv@ == vector::splat(16, source as u16),
            f == (|i: int| pixel::alpha_over(old(dst)@[i], source as int)),
            dst@ == pixel::written(old(dst)@, at as int, f),
        decreases dst.len() - at,
    {
        let d = load(dst, at);
        let out = pack(alpha_over8(lo(d), sv), alpha_over8(hi(d), sv));
        assert forall|j: int| 0 <= j < 32 implies #[trigger] vector::byte(out@, j) == f(at + j) by {
            chunk::lemma_uniform_over(d@, source, out@, j);
        }
        store(dst, at, out);
        at += 32;
        assert(dst@ =~= pixel::written(old(dst)@, at as int, f));
    }
    proof {
        chunk::lemma_whole(32, old(dst).len() as int, at as int);
    }
}

/// Composites `src` at `opacity` onto `dst`.
pub fn alpha_composite_over_lasx(dst: &mut [u8], src: &[u8], opacity: u8)
    ensures
        final(dst)@ == pixel::written(
            old(dst)@,
            pixel::whole2(32, old(dst).len() as int, src.len() as int),
            |i: int| pixel::alpha_scaled_over(old(dst)@[i], src@[i], opacity),
        ),
{
    let ov = lasx_xvreplgr2vr_h(opacity as u16);
    let ghost f = |i: int| pixel::alpha_scaled_over(old(dst)@[i], src@[i], opacity);
    let mut at: usize = 0;
    while dst.len() - at >= 32 && src.len() - at >= 32
        invariant
            at <= dst.len(),
            at <= src.len(),
            at % 32 == 0,
            ov@ == vector::splat(16, opacity as u16),
            f == (|i: int| pixel::alpha_scaled_over(old(dst)@[i], src@[i], opacity)),
            dst@ == pixel::written(old(dst)@, at as int, f),
        decreases dst.len() - at,
    {
        let d = load(dst, at);
        let s = load(src, at);
        let sl = div255_round(lasx_xvmul_h(lo(s), ov));
        let sh = div255_round(lasx_xvmul_h(hi(s), ov));
        let out = pack(alpha_over8(lo(d), sl), alpha_over8(hi(d), sh));
        assert forall|j: int| 0 <= j < 32 implies #[trigger] vector::byte(out@, j) == f(at + j) by {
            chunk::lemma_scaled_over(d@, s@, opacity, out@, j);
        }
        store(dst, at, out);
        at += 32;
        assert(dst@ =~= pixel::written(old(dst)@, at as int, f));
    }
    proof {
        chunk::lemma_whole2(32, old(dst).len() as int, src.len() as int, at as int);
    }
}

/// Multiplies `dst` by `factors`.
pub fn alpha_multiply_lasx(dst: &mut [u8], factors: &[u8])
    ensures
        final(dst)@ == pixel::written(
            old(dst)@,
            pixel::whole2(32, old(dst).len() as int, factors.len() as int),
            |i: int| pixel::alpha_product(old(dst)@[i], factors@[i]),
        ),
{
    let ghost f = |i: int| pixel::alpha_product(old(dst)@[i], factors@[i]);
    let mut at: usize = 0;
    while dst.len() - at >= 32 && factors.len() - at >= 32
        invariant
            at <= dst.len(),
            at <= factors.len(),
            at % 32 == 0,
            f == (|i: int| pixel::alpha_product(old(dst)@[i], factors@[i])),
            dst@ == pixel::written(old(dst)@, at as int, f),
        decreases dst.len() - at,
    {
        let d = load(dst, at);
        let g = load(factors, at);
        let l = div255_round(lasx_xvmul_h(lo(d), lo(g)));
        let h = div255_round(lasx_xvmul_h(hi(d), hi(g)));
        let out = pack(l, h);
        assert forall|j: int| 0 <= j < 32 implies #[trigger] vector::byte(out@, j) == f(at + j) by {
            chunk::lemma_product(d@, g@, out@, j);
        }
        store(dst, at, out);
        at += 32;
        assert(dst@ =~= pixel::written(old(dst)@, at as int, f));
    }
    proof {
        chunk::lemma_whole2(32, old(dst).len() as int, factors.len() as int, at as int);
    }
}

/// Keeps of `dst` what the matte `src` covers at `opacity`, or what it does
/// not.
pub fn alpha_matte_lasx(dst: &mut [u8], src: &[u8], opacity: u8, inverted: bool)
    ensures
        final(dst)@ == pixel::written(
            old(dst)@,
            pixel::whole2(32, old(dst).len() as int, src.len() as int),
            |i: int|
                pixel::alpha_product(old(dst)@[i], pixel::matte_factor(src@[i], opacity, inverted)),
        ),
{
    let ov = lasx_xvreplgr2vr_h(opacity as u16);
    // `255 - f == f ^ 255` for `f <= 255`: inverting by xor keeps the loop free
    // of a per-chunk select on `inverted`.
    let invert = lasx_xvreplgr2vr_h(if inverted { 255 } else { 0 });
    let ghost f = |i: int|
        pixel::alpha_product(old(dst)@[i], pixel::matte_factor(src@[i], opacity, inverted));
    let mut at: usize = 0;
    while dst.len() - at >= 32 && src.len() - at >= 32
        invariant
            at <= dst.len(),
            at <= src.len(),
            at % 32 == 0,
            ov@ == vector::splat(16, opacity as u16),
            invert@ == vector::splat(16, if inverted { 255u16 } else { 0u16 }),
            f == (|i: int|
                pixel::alpha_product(old(dst)@[i], pixel::matte_factor(src@[i], opacity, inverted))),
            dst@ == pixel::written(old(dst)@, at as int, f),
        decreases dst.len() - at,
    {
        let d = load(dst, at);
        let s = load(src, at);
        let fl = lasx_xvxor_v(div255_round(lasx_xvmul_h(lo(s), ov)), invert);
        let fh = lasx_xvxor_v(div255_round(lasx_xvmul_h(hi(s), ov)), invert);
        let l = div255_round(lasx_xvmul_h(lo(d), fl));
        let h = div255_round(lasx_xvmul_h(hi(d), fh));
        let out = pack(l, h);
        assert forall|j: int| 0 <= j < 32 implies #[trigger] vector::byte(out@, j) == f(at + j) by {
            chunk::lemma_matte(d@, s@, opacity, inverted, fl@, fh@, out@, j);
        }
        store(dst, at, out);
        at += 32;
        assert(dst@ =~= pixel::written(old(dst)@, at as int, f));
    }
    proof {
        chunk::lemma_whole2(32, old(dst).len() as int, src.len() as int, at as int);
    }
}

/// Whether `combine` can give the lanes `r` for the lanes `held` and
/// `contribution`.
#[verifier::opaque]
pub open spec fn combines<F: Fn(M256i, M256i) -> M256i>(
    combine: F,
    held: Seq<u16>,
    contribution: Seq<u16>,
    r: Seq<u16>,
) -> bool {
    exists|a: M256i, b: M256i, c: M256i|
        #[trigger] call_ensures(combine, (a, b), c) && a@ == held && b@ == contribution && c@ == r
}

/// Whether the chunk of `new` from index `at` on is what `combine` gives for
/// both halves of the chunks of `old` and `src` there.
#[verifier::opaque]
pub open spec fn chunk_combined<F: Fn(M256i, M256i) -> M256i>(
    combine: F,
    old: Seq<u8>,
    src: Seq<u8>,
    invert: Seq<u16>,
    opacity: Seq<u16>,
    new: Seq<u8>,
    at: int,
) -> bool {
    let d = vector::of_bytes(old, at, 16);
    let s = vector::xor_v(vector::of_bytes(src, at, 16), invert);
    exists|l: Seq<u16>, h: Seq<u16>|
        {
            &&& #[trigger] combines(
                combine,
                vector::lo(d),
                vector::div255_round(vector::mul_h(vector::lo(s), opacity)),
                l,
            )
            &&& #[trigger] combines(
                combine,
                vector::hi(d),
                vector::div255_round(vector::mul_h(vector::hi(s), opacity)),
                h,
            )
            &&& vector::of_bytes(new, at, 16) == vector::pack(l, h)
        }
}

/// A result of `combine` is one that it can give.
proof fn lemma_combines<F: Fn(M256i, M256i) -> M256i>(combine: F, a: M256i, b: M256i, c: M256i)
    requires
        call_ensures(combine, (a, b), c),
    ensures
        combines(combine, a@, b@, c@),
{
    reveal(combines);
}

/// A chunk that packs what `combine` gave for both halves.
proof fn lemma_chunk_done<F: Fn(M256i, M256i) -> M256i>(
    combine: F,
    old: Seq<u8>,
    src: Seq<u8>,
    invert: Seq<u16>,
    opacity: Seq<u16>,
    new: Seq<u8>,
    at: int,
    l: Seq<u16>,
    h: Seq<u16>,
)
    requires
        ({
            let d = vector::of_bytes(old, at, 16);
            let s = vector::xor_v(vector::of_bytes(src, at, 16), invert);
            &&& combines(
                combine,
                vector::lo(d),
                vector::div255_round(vector::mul_h(vector::lo(s), opacity)),
                l,
            )
            &&& combines(
                combine,
                vector::hi(d),
                vector::div255_round(vector::mul_h(vector::hi(s), opacity)),
                h,
            )
            &&& vector::of_bytes(new, at, 16) == vector::pack(l, h)
        }),
    ensures
        chunk_combined(combine, old, src, invert, opacity, new, at),
{
    reveal(chunk_combined);
}

/// A chunk stays combined while its bytes stay.
proof fn lemma_chunk_kept<F: Fn(M256i, M256i) -> M256i>(
    combine: F,
    old: Seq<u8>,
    src: Seq<u8>,
    invert: Seq<u16>,
    opacity: Seq<u16>,
    before: Seq<u8>,
    new: Seq<u8>,
    at: int,
)
    requires
        chunk_combined(combine, old, src, invert, opacity, before, at),
        forall|i: int| at <= i < at + 32 ==> #[trigger] new[i] == before[i],
    ensures
        chunk_combined(combine, old, src, invert, opacity, new, at),
{
    reveal(chunk_combined);
    assert(vector::of_bytes(new, at, 16) =~= vector::of_bytes(before, at, 16));
}

/// Applies `combine` to the lanes of `dst` and to those of `src`, flipped by
/// `invert` and scaled by `opacity`.
pub fn mask_combine_loop<F: Fn(M256i, M256i) -> M256i>(
    dst: &mut [u8],
    src: &[u8],
    invert: M256i,
    opacity: M256i,
    combine: F,
)
    requires
        forall|a: M256i, b: M256i| call_requires(combine, (a, b)),
    ensures
        final(dst).len() == old(dst).len(),
        forall|at: int|
            0 <= at && at % 32 == 0 && at + 32 <= old(dst).len() && at + 32 <= src.len()
                ==> #[trigger] chunk_combined(
                combine,
                old(dst)@,
                src@,
                invert@,
                opacity@,
                final(dst)@,
                at,
            ),
        forall|i: int|
            pixel::whole2(32, old(dst).len() as int, src.len() as int) <= i < old(dst).len()
                ==> #[trigger] final(dst)@[i] == old(dst)@[i],
{
    let mut at: usize = 0;
    while dst.len() - at >= 32 && src.len() - at >= 32
        invariant
            at <= dst.len(),
            at <= src.len(),
            at % 32 == 0,
            dst.len() == old(dst).len(),
            forall|a: M256i, b: M256i| call_requires(combine, (a, b)),
            forall|k: int|
                0 <= k && k % 32 == 0 && k < at ==> #[trigger] chunk_combined(
                    combine,
                    old(dst)@,
                    src@,
                    invert@,
                    opacity@,
                    dst@,
                    k,
                ),
            forall|i: int| at <= i < dst.len() ==> #[trigger] dst@[i] == old(dst)@[i],
        decreases dst.len() - at,
    {
        let ghost before = dst@;
        let d = load(dst, at);
        let t = load(src, at);
        let s = lasx_xvxor_v(t, invert);
        let cl = div255_round(lasx_xvmul_h(lo(s), opacity));
        let ch = div255_round(lasx_xvmul_h(hi(s), opacity));
        let dl = lo(d);
        let dh = hi(d);
        let l = combine(dl, cl);
        let h = combine(dh, ch);
        let out = pack(l, h);
        store(dst, at, out);
        proof {
            chunk::lemma_of_bytes(d@, old(dst)@, at as int);
            chunk::lemma_of_bytes(t@, src@, at as int);
            assert forall|j: int| 0 <= j < 32 implies #[trigger] vector::byte(out@, j) == dst@[at + j] by {}
            chunk::lemma_of_bytes(out@, dst@, at as int);
            lemma_combines(combine, dl, cl, l);
            lemma_combines(combine, dh, ch, h);
            lemma_chunk_done(combine, old(dst)@, src@, invert@, opacity@, dst@, at as int, l@, h@);
            assert forall|k: int| 0 <= k && k % 32 == 0 && k < at implies #[trigger] chunk_combined(
                combine,
                old(dst)@,
                src@,
                invert@,
                opacity@,
                dst@,
                k,
            ) by {
                lemma_chunk_kept(combine, old(dst)@, src@, invert@, opacity@, before, dst@, k);
            }
        }
        at += 32;
    }
    proof {
        chunk::lemma_whole2(32, old(dst).len() as int, src.len() as int, at as int);
    }
}

/// What the loop leaves behind when `combine` is the combination of `mode`.
proof fn lemma_mask_rows<F: Fn(M256i, M256i) -> M256i>(
    combine: F,
    mode: u8,
    old: Seq<u8>,
    src: Seq<u8>,
    iv: Seq<u16>,
    inverted: bool,
    opacity: u8,
    new: Seq<u8>,
)
    requires
        new.len() == old.len(),
        iv == vector::splat(16, if inverted { 0xffffu16 } else { 0u16 }),
        forall|a: M256i, b: M256i, c: M256i| #[trigger]
            call_ensures(combine, (a, b), c) ==> c@ == vector::mask_combine(mode, a@, b@),
        forall|at: int|
            0 <= at && at % 32 == 0 && at + 32 <= old.len() && at + 32 <= src.len()
                ==> #[trigger] chunk_combined(
                combine,
                old,
                src,
                iv,
                vector::splat(16, opacity as u16),
                new,
                at,
            ),
        forall|i: int|
            pixel::whole2(32, old.len() as int, src.len() as int) <= i < old.len()
                ==> #[trigger] new[i] == old[i],
    ensures
        new == pixel::written(
            old,
            pixel::whole2(32, old.len() as int, src.len() as int),
            |i: int|
                pixel::mask_combined(
                    mode,
                    old[i],
                    pixel::mask_contribution(src[i], inverted, opacity),
                ),
        ),
{
    reveal(combines);
    reveal(chunk_combined);
    let ov = vector::splat(16, opacity as u16);
    let n = pixel::whole2(32, old.len() as int, src.len() as int);
    assert forall|i: int| 0 <= i < n implies #[trigger] new[i] == pixel::mask_combined(
        mode,
        old[i],
        pixel::mask_contribution(src[i], inverted, opacity),
    ) by {
        let at = i - i % 32;
        let j = i % 32;
        assert(chunk_combined(combine, old, src, iv, ov, new, at));
        let d = vector::of_bytes(old, at, 16);
        let t = vector::of_bytes(src, at, 16);
        let out = vector::of_bytes(new, at, 16);
        chunk::lemma_mask(mode, d, t, inverted, opacity, out, j);
        chunk::lemma_byte_of_bytes(old, at, 16, j);
        chunk::lemma_byte_of_bytes(src, at, 16, j);
        chunk::lemma_byte_of_bytes(new, at, 16, j);
    }
}

/// Runs the loop with a `combine` that is the combination of `mode`.
fn mask_combine_rows<F: Fn(M256i, M256i) -> M256i>(
    dst: &mut [u8],
    src: &[u8],
    Ghost(mode): Ghost<u8>,
    inverted: bool,
    opacity: u8,
    combine: F,
)
    requires
        forall|a: M256i, b: M256i| call_requires(combine, (a, b)),
        forall|a: M256i, b: M256i, c: M256i| #[trigger]
            call_ensures(combine, (a, b), c) ==> c@ == vector::mask_combine(mode, a@, b@),
    ensures
        final(dst)@ == pixel::written(
            old(dst)@,
            pixel::whole2(32, old(dst).len() as int, src.len() as int),
            |i: int|
                pixel::mask_combined(
                    mode,
                    old(dst)@[i],
                    pixel::mask_contribution(src@[i], inverted, opacity),
                ),
        ),
{
    let ov = lasx_xvreplgr2vr_h(opacity as u16);
    // `255 - s == s ^ 0xff` on bytes, applied before widening.
    let invert = lasx_xvreplgr2vr_b(if inverted { 0xff } else { 0 });
    let ghost c = combine;
    mask_combine_loop(dst, src, invert, ov, combine);
    proof {
        lemma_mask_rows(c, mode, old(dst)@, src@, invert@, inverted, opacity, dst@);
    }
}

/// Combines the mask `src` at `opacity`, or its complement, with the mask
/// `dst`.
pub fn alpha_mask_combine_lasx(dst: &mut [u8], src: &[u8], mode: u8, inverted: bool, opacity: u8)
    ensures
        final(dst)@ == pixel::written(
            old(dst)@,
            pixel::whole2(32, old(dst).len() as int, src.len() as int),
            |i: int|
                pixel::mask_combined(
                    mode,
                    old(dst)@[i],
                    pixel::mask_contribution(src@[i], inverted, opacity),
                ),
        ),
{
    let full = lasx_xvreplgr2vr_h(255);
    // Dispatch on `mode` once, so each pixel loop has no mode branch.
    if mode == MODE_SUBTRACT {
        let combine = |held: M256i, contribution: M256i| -> (r: M256i)
            ensures
                r@ == vector::mask_combine(mode, held@, contribution@),
            {
                let r = div255_round(lasx_xvmul_h(held, lasx_xvsub_h(full, contribution)));
                proof {
                    reveal(lane::lane_combined);
                    assert(r@ =~= vector::mask_combine(mode, held@, contribution@));
                }
                r
            };
        mask_combine_rows(dst, src, Ghost(mode), inverted, opacity, combine);
    } else if mode == MODE_INTERSECT {
        let combine = |held: M256i, contribution: M256i| -> (r: M256i)
            ensures
                r@ == vector::mask_combine(mode, held@, contribution@),
            {
                let r = div255_round(lasx_xvmul_h(held, contribution));
                proof {
                    reveal(lane::lane_combined);
                    assert(r@ =~= vector::mask_combine(mode, held@, contribution@));
                }
                r
            };
        mask_combine_rows(dst, src, Ghost(mode), inverted, opacity, combine);
    } else if mode == MODE_DIFFERENCE {
        let combine = |held: M256i, contribution: M256i| -> (r: M256i)
            ensures
                r@ == vector::mask_combine(mode, held@, contribution@),
            {
                let r = lasx_xvsub_h(
                    lasx_xvmax_h(held, contribution),
                    lasx_xvmin_h(held, contribution),
                );
                proof {
                    reveal(lane::lane_combined);
                    assert(r@ =~= vector::mask_combine(mode, held@, contribution@));
                }
                r
            };
        mask_combine_rows(dst, src, Ghost(mode), inverted, opacity, combine);
    } else {
        let combine = |held: M256i, contribution: M256i| -> (r: M256i)
            ensures
                r@ == vector::mask_combine(mode, held@, contribution@),
            {
                let r = lasx_xvadd_h(
                    contribution,
                    div255_round(lasx_xvmul_h(lasx_xvsub_h(full, contribution), held)),
                );
                proof {
                    reveal(lane::lane_combined);
                    assert(r@ =~= vector::mask_combine(mode, held@, contribution@));
                }
                r
            };
        mask_combine_rows(dst, src, Ghost(mode), inverted, opacity, combine);
    }
}

// RGBA kernels: 8 pixels per iteration.

/// Keeps of `dst` what the alpha of the matte `src` covers at
/// `source_opacity`, or what it does not.
pub fn apply_matte_alpha_lasx(dst: &mut [u32], src: &[u32], source_opacity: u8, inverted: bool)
    ensures
        final(dst)@ == pixel::written(
            old(dst)@,
            pixel::whole2(8, old(dst).len() as int, src.len() as int),
            |i: int| pixel::matte_pixel(old(dst)@[i], src@[i], source_opacity, inverted),
        ),
{
    let ov = lasx_xvreplgr2vr_h(source_opacity as u16);
    let full = lasx_xvreplgr2vr_h(255);
    // `255 - f == f ^ 255` for `f <= 255`, without a per-chunk select.
    let invert = lasx_xvreplgr2vr_h(if inverted { 255 } else { 0 });
    let ghost f = |i: int| pixel::matte_pixel(old(dst)@[i], src@[i], source_opacity, inverted);
    let mut at: usize = 0;
    while dst.len() - at >= 8 && src.len() - at >= 8
        invariant
            at <= dst.len(),
            at <= src.len(),
            at % 8 == 0,
            ov@ == vector::splat(16, source_opacity as u16),
            full@ == vector::splat(16, 255),
            invert@ == vector::splat(16, if inverted { 255u16 } else { 0u16 }),
            f == (|i: int| pixel::matte_pixel(old(dst)@[i], src@[i], source_opacity, inverted)),
            dst@ == pixel::written(old(dst)@, at as int, f),
        decreases dst.len() - at,
    {
        let ghost before = dst@;
        let s = load_pixels(src, at);
        let fl = lasx_xvxor_v(div255_round(lasx_xvmul_h(splat_alpha(lo(s)), ov)), invert);
        let fh = lasx_xvxor_v(div255_round(lasx_xvmul_h(splat_alpha(hi(s)), ov)), invert);
        let el = lasx_xvseq_h(fl, full);
        let eh = lasx_xvseq_h(fh, full);
        if lasx_xbnz_h(el) == 1 && lasx_xbnz_h(eh) == 1 {
            proof {
                assert forall|i: int| 0 <= i < 16 implies #[trigger] fl@[i] == 255 by {
                    assert(el@[i] != 0);
                }
                assert forall|i: int| 0 <= i < 16 implies #[trigger] fh@[i] == 255 by {
                    assert(eh@[i] != 0);
                }
                assert forall|p: int| 0 <= p < 8 implies dst@[at + p] == #[trigger] f(at + p) by {
                    assert(vector::word(s@, p) == src@[at + p]);
                    chunk::lemma_full_matte_pixel(
                        dst@[at + p],
                        s@,
                        source_opacity,
                        inverted,
                        fl@,
                        fh@,
                        p,
                    );
                }
                chunk::lemma_kept_chunk(dst@, at as int, 8, f);
            }
        } else {
            let d = load_pixels(dst, at);
            let l = div255_round(lasx_xvmul_h(lo(d), fl));
            let h = div255_round(lasx_xvmul_h(hi(d), fh));
            let out = pack(l, h);
            assert forall|p: int| 0 <= p < 8 implies #[trigger] vector::word(out@, p) == f(at + p) by {
                assert(vector::word(s@, p) == src@[at + p]);
                assert(vector::word(d@, p) == dst@[at + p]);
                chunk::lemma_matte_pixel(
                    d@,
                    s@,
                    source_opacity,
                    inverted,
                    fl@,
                    fh@,
                    out@,
                    p,
                );
            }
            store_pixels(dst, at, out);
            proof {
                chunk::lemma_stored_chunk(before, at as int, 8, out@, f);
            }
        }
        proof {
            chunk::lemma_rewritten_step(old(dst)@, before, dst@, at as int, 8, f, f);
        }
        at += 8;
    }
    proof {
        chunk::lemma_whole2(8, old(dst).len() as int, src.len() as int, at as int);
    }
}

/// Loads the coverage of the 8 pixels from index `at` on, four each into the
/// low words of the two 128-bit lanes.
fn load_coverage(cov: &[u8], at: usize) -> (r: M256i)
    requires
        at + 8 <= cov.len(),
    ensures
        forall|p: int|
            0 <= p < 8 ==> pixel::channel(vector::word(r@, 4 * (p / 4)), p % 4) == #[trigger] cov[at + p],
{
    let w0 = le_word(cov, at);
    let w1 = le_word(cov, at + 4);
    let c0 = lasx_xvreplgr2vr_w(w0);
    let r = lasx_xvinsgr2vr_w(c0, w1, 4);
    assert(vector::word(r@, 0) == w0);
    assert(vector::word(r@, 4) == w1);
    assert forall|p: int| 0 <= p < 8 implies pixel::channel(vector::word(r@, 4 * (p / 4)), p % 4)
        == #[trigger] cov[at + p] by {
        if p >= 4 {
            assert(cov[at + 4 + (p - 4)] == pixel::channel(w1, p - 4));
        } else {
            assert(cov[at + p] == pixel::channel(w0, p));
        }
    }
    r
}

/// Composites the colour `sr`, `sg`, `sb` at alpha `sa` and coverage `cov`
/// onto `dst`.
pub fn fill_span_solid_lasx(dst: &mut [u32], cov: &[u8], sr: u32, sg: u32, sb: u32, sa: u32)
    ensures
        final(dst)@ == pixel::written(
            old(dst)@,
            pixel::whole2(8, old(dst).len() as int, cov.len() as int),
            |i: int| pixel::lane_solid_pixel(old(dst)@[i], cov@[i], sr, sg, sb, sa),
        ),
        sr <= 255 && sg <= 255 && sb <= 255 && sa <= 255 ==> final(dst)@ == pixel::written(
            old(dst)@,
            pixel::whole2(8, old(dst).len() as int, cov.len() as int),
            |i: int|
                pixel::solid_pixel(old(dst)@[i], cov@[i], sr as u8, sg as u8, sb as u8, sa as u8),
        ),
{
    // Source pattern per pixel is [R,G,B,255]: the 255 alpha lane makes
    // `div255(255*ca) == ca` hold exactly, so one multiply yields
    // s_r/s_g/s_b AND s_a = ca in their lanes.
    let pat: u64 = sr as u64 | (sg as u64) << 16 | (sb as u64) << 32 | (255u32 as u64) << 48;
    let src = lasx_xvreplgr2vr_d(pat);
    let sa_w = lasx_xvreplgr2vr_h((sa % 0x1_0000) as u16);
    let full = lasx_xvreplgr2vr_h(255);
    let ghost f = |i: int| pixel::lane_solid_pixel(old(dst)@[i], cov@[i], sr, sg, sb, sa);
    let mut at: usize = 0;
    while dst.len() - at >= 8 && cov.len() - at >= 8
        invariant
            at <= dst.len(),
            at <= cov.len(),
            at % 8 == 0,
            src@ == vector::splat_d(16, pixel::lane_pattern(sr, sg, sb, 255)),
            sa_w@ == vector::splat(16, lane::wrap16(sa as int)),
            full@ == vector::splat(16, 255),
            f == (|i: int| pixel::lane_solid_pixel(old(dst)@[i], cov@[i], sr, sg, sb, sa)),
            dst@ == pixel::written(old(dst)@, at as int, f),
        decreases dst.len() - at,
    {
        // rep4: byte-double then word-double turns the four coverage bytes of
        // a 128-bit lane into [c0 x4, c1 x4, c2 x4, c3 x4].
        let c = load_coverage(cov, at);
        let crep = lasx_xvilvl_h(lasx_xvilvl_b(c, c), lasx_xvilvl_b(c, c));
        let ca_lo = div255_round(lasx_xvmul_h(lo(crep), sa_w));
        let ca_hi = div255_round(lasx_xvmul_h(hi(crep), sa_w));
        let s_lo = div255_round(lasx_xvmul_h(src, ca_lo));
        let s_hi = div255_round(lasx_xvmul_h(src, ca_hi));
        let inv_lo = lasx_xvsub_h(full, ca_lo);
        let inv_hi = lasx_xvsub_h(full, ca_hi);
        let d = load_pixels(dst, at);
        let out = pack(over(lo(d), s_lo, inv_lo), over(hi(d), s_hi, inv_hi));
        assert forall|p: int| 0 <= p < 8 implies #[trigger] vector::word(out@, p) == f(at + p) by {
            assert(vector::word(d@, p) == dst@[at + p]);
            chunk::lemma_rep4_pixel(c@, crep@, p);
            assert(pixel::channel(vector::word(c@, 4 * (p / 4)), p % 4) == cov@[at + p]);
            chunk::lemma_solid_pixel(d@, crep@, sr, sg, sb, sa, out@, p, cov@[at + p]);
        }
        store_pixels(dst, at, out);
        at += 8;
        assert(dst@ =~= pixel::written(old(dst)@, at as int, f));
    }
    proof {
        chunk::lemma_whole2(8, old(dst).len() as int, cov.len() as int, at as int);
        assert(dst@ == pixel::written(old(dst)@, at as int, f));
        if sr <= 255 && sg <= 255 && sb <= 255 && sa <= 255 {
            chunk::lemma_solid_row(
                old(dst)@,
                cov@,
                at as int,
                sr,
                sg,
                sb,
                sa,
            );
        }
    }
}

/// Composites one premultiplied colour of alpha `ca` onto every pixel of
/// `dst`.
pub fn fill_span_uniform_lasx(dst: &mut [u32], ca: u32, s_r: u32, s_g: u32, s_b: u32)
    requires
        // 255 less `ca`, read as a signed number, is no signed number.
        !(0x8000_0000 <= ca <= 0x8000_00ff),
    ensures
        final(dst)@ == pixel::written(
            old(dst)@,
            pixel::whole(8, old(dst).len() as int),
            |i: int| pixel::lane_uniform_pixel(old(dst)@[i], ca, s_r, s_g, s_b),
        ),
        ca <= 255 && s_r <= 255 && s_g <= 255 && s_b <= 255 ==> final(dst)@ == pixel::written(
            old(dst)@,
            pixel::whole(8, old(dst).len() as int),
            |i: int|
                pixel::over_pixel(
                    old(dst)@[i],
                    pixel::rgba(s_r as u8, s_g as u8, s_b as u8, ca as u8),
                ),
        ),
{
    let pat: u64 = s_r as u64 | (s_g as u64) << 16 | (s_b as u64) << 32 | (ca as u64) << 48;
    let s = lasx_xvreplgr2vr_d(pat);
    let inv = lasx_xvreplgr2vr_h(sub_lane(255, (ca % 0x1_0000) as u16));
    proof {
        lane::lemma_inverse(ca);
    }
    assert(inv@ =~= vector::splat(16, lane::wrap16(255 - ca)));
    let ghost f = |i: int| pixel::lane_uniform_pixel(old(dst)@[i], ca, s_r, s_g, s_b);
    let mut at: usize = 0;
    while dst.len() - at >= 8
        invariant
            at <= dst.len(),
            at % 8 == 0,
            s@ == vector::splat_d(16, pixel::lane_pattern(s_r, s_g, s_b, ca)),
            inv@ == vector::splat(16, lane::wrap16(255 - ca)),
            f == (|i: int| pixel::lane_uniform_pixel(old(dst)@[i], ca, s_r, s_g, s_b)),
            dst@ == pixel::written(old(dst)@, at as int, f),
        decreases dst.len() - at,
    {
        let d = load_pixels(dst, at);
        let out = pack(over(lo(d), s, inv), over(hi(d), s, inv));
        assert forall|p: int| 0 <= p < 8 implies #[trigger] vector::word(out@, p) == f(at + p) by {
            assert(vector::word(d@, p) == dst@[at + p]);
            chunk::lemma_uniform_pixel(d@, ca, s_r, s_g, s_b, out@, p);
        }
        store_pixels(dst, at, out);
        at += 8;
        assert(dst@ =~= pixel::written(old(dst)@, at as int, f));
    }
    proof {
        chunk::lemma_whole(8, old(dst).len() as int, at as int);
        assert(dst@ == pixel::written(old(dst)@, at as int, f));
        if ca <= 255 && s_r <= 255 && s_g <= 255 && s_b <= 255 {
            chunk::lemma_uniform_row(
                old(dst)@,
                at as int,
                ca,
                s_r,
                s_g,
                s_b,
            );
        }
    }
}

/// Composites `src` at opacity `k` onto `dst`.
pub fn composite_over_lasx(dst: &mut [u32], src: &[u32], k: u32)
    ensures
        final(dst)@ == pixel::written(
            old(dst)@,
            pixel::whole2(8, old(dst).len() as int, src.len() as int),
            |i: int| pixel::lane_composite_pixel(old(dst)@[i], src@[i], k),
        ),
        k <= 255 ==> final(dst)@ == pixel::written(
            old(dst)@,
            pixel::whole2(8, old(dst).len() as int, src.len() as int),
            |i: int| pixel::composite_pixel(old(dst)@[i], src@[i], k as u8),
        ),
{
    let kq = lasx_xvreplgr2vr_h((k % 0x1_0000) as u16);
    let full = lasx_xvreplgr2vr_h(255);
    let ghost f = |i: int| pixel::lane_composite_pixel(old(dst)@[i], src@[i], k);
    let mut at: usize = 0;
    while dst.len() - at >= 8 && src.len() - at >= 8
        invariant
            at <= dst.len(),
            at <= src.len(),
            at % 8 == 0,
            kq@ == vector::splat(16, lane::wrap16(k as int)),
            full@ == vector::splat(16, 255),
            f == (|i: int| pixel::lane_composite_pixel(old(dst)@[i], src@[i], k)),
            dst@ == pixel::written(old(dst)@, at as int, f),
        decreases dst.len() - at,
    {
        let ghost before = dst@;
        let d = load_pixels(dst, at);
        let s = load_pixels(src, at);
        // All source pixels fully transparent: `over` is the identity on dst,
        // so skip the round trip.
        if lasx_xbz_v(s) == 1 {
            proof {
                assert forall|p: int| 0 <= p < 8 implies dst@[at + p] == #[trigger] f(at + p) by {
                    assert(s@[2 * p] == 0 && s@[2 * p + 1] == 0);
                    assert(vector::word(s@, p) == src@[at + p]);
                    crate::laws::transparent_keeps(dst@[at + p], k);
                }
                chunk::lemma_kept_chunk(dst@, at as int, 8, f);
            }
        } else {
            let s_lo_raw = lo(s);
            let s_hi_raw = hi(s);
            let s_lo = div255_round(lasx_xvmul_h(s_lo_raw, kq));
            let s_hi = div255_round(lasx_xvmul_h(s_hi_raw, kq));
            let inv_lo = lasx_xvsub_h(full, div255_round(lasx_xvmul_h(splat_alpha(s_lo_raw), kq)));
            let inv_hi = lasx_xvsub_h(full, div255_round(lasx_xvmul_h(splat_alpha(s_hi_raw), kq)));
            let out = pack(over(lo(d), s_lo, inv_lo), over(hi(d), s_hi, inv_hi));
            assert forall|p: int| 0 <= p < 8 implies #[trigger] vector::word(out@, p) == f(at + p) by {
                assert(vector::word(d@, p) == dst@[at + p]);
                assert(vector::word(s@, p) == src@[at + p]);
                chunk::lemma_composite_pixel(d@, s@, k, out@, p);
            }
            store_pixels(dst, at, out);
            proof {
                chunk::lemma_stored_chunk(before, at as int, 8, out@, f);
            }
        }
        proof {
            chunk::lemma_rewritten_step(old(dst)@, before, dst@, at as int, 8, f, f);
        }
        at += 8;
    }
    proof {
        chunk::lemma_whole2(8, old(dst).len() as int, src.len() as int, at as int);
        assert(dst@ == pixel::written(old(dst)@, at as int, f));
        if k <= 255 {
            chunk::lemma_composite_row(old(dst)@, src@, at as int, k);
        }
    }
}

// Gradient tables.

/// One float in all 8 places, given by its bit pattern.
pub fn splat_float(bits: u32) -> (r: M256i)
    ensures
        forall|p: int| 0 <= p < 8 ==> #[trigger] vector::word(r@, p) == bits,
{
    lasx_xvreplgr2vr_w(bits)
}

/// `|v|` on the bit patterns of floats: masks off the sign bit.
pub fn abs_float(v: M256i) -> (r: M256i)
    ensures
        forall|p: int|
            0 <= p < 8 ==> #[trigger] vector::word(r@, p) == vector::word(v@, p) & 0x7fff_ffff,
{
    let r = lasx_xvbitclri_w(v, 31);
    assert forall|p: int| 0 <= p < 8 implies #[trigger] vector::word(r@, p) == vector::word(v@, p)
        & 0x7fff_ffff by {
        chunk::lemma_clear_sign(v@, r@, p);
    }
    r
}

/// Table indices from the truncated positions `idx`: lanes that fail `valid`
/// are forced to the sentinel `u32::MAX`, which no table entry has.
pub fn lut_indices(idx: M256i, valid: M256i) -> (r: M256i)
    ensures
        forall|p: int|
            0 <= p < 8 ==> #[trigger] vector::word(r@, p) == vector::word(idx@, p)
                | !vector::word(valid@, p),
        forall|p: int|
            0 <= p < 8 && vector::word(valid@, p) == u32::MAX ==> #[trigger] vector::word(r@, p)
                == vector::word(idx@, p),
        forall|p: int|
            0 <= p < 8 && vector::word(valid@, p) == 0 ==> #[trigger] vector::word(r@, p)
                == u32::MAX,
{
    // (vi & idx) | (~vi & -1)  ==  idx | ~vi
    let r = lasx_xvorn_v(idx, valid);
    assert forall|p: int| 0 <= p < 8 implies ({
        &&& #[trigger] vector::word(r@, p) == vector::word(idx@, p) | !vector::word(valid@, p)
        &&& vector::word(valid@, p) == u32::MAX ==> vector::word(r@, p) == vector::word(idx@, p)
        &&& vector::word(valid@, p) == 0 ==> vector::word(r@, p) == u32::MAX
    }) by {
        chunk::lemma_indices(idx@, valid@, r@, p);
    }
    r
}

/// The table entries at the 8 indices of `idx`, 0 where the table has none.
pub fn lut_gather(lut: &[u32], idx: M256i) -> (r: M256i)
    ensures
        forall|p: int|
            0 <= p < 8 ==> #[trigger] vector::word(r@, p) == pixel::lut_at(
                lut@,
                vector::word(idx@, p),
            ),
{
    M256i::from_words(
        [
            lut_entry(lut, idx.word(0)),
            lut_entry(lut, idx.word(1)),
            lut_entry(lut, idx.word(2)),
            lut_entry(lut, idx.word(3)),
            lut_entry(lut, idx.word(4)),
            lut_entry(lut, idx.word(5)),
            lut_entry(lut, idx.word(6)),
            lut_entry(lut, idx.word(7)),
        ],
    )
}

/// Writes the table entries at `idx` to the 8 pixels from index `at` on.
pub fn lut_store(pixels: &mut [u32], at: usize, lut: &[u32], idx: M256i)
    requires
        at + 8 <= old(pixels).len(),
    ensures
        final(pixels)@ == pixel::rewritten(
            old(pixels)@,
            at as int,
            at + 8,
            |i: int| pixel::lut_at(lut@, vector::word(idx@, i - at)),
        ),
{
    store_pixels(pixels, at, lut_gather(lut, idx));
}

/// Composites the table entries at `idx` onto the 8 pixels from index `at`
/// on.
pub fn lut_blend_over_k255(pixels: &mut [u32], at: usize, lut: &[u32], idx: M256i)
    requires
        at + 8 <= old(pixels).len(),
    ensures
        final(pixels)@ == pixel::rewritten(
            old(pixels)@,
            at as int,
            at + 8,
            |i: int|
                pixel::over_pixel(
                    old(pixels)@[i],
                    pixel::lut_at(lut@, vector::word(idx@, i - at)),
                ),
        ),
{
    // Source and destination are premultiplied RGBA bytes. k=255 means
    // source channels pass through unchanged.
    let full = lasx_xvreplgr2vr_h(255);
    let d = load_pixels(pixels, at);
    let s = lut_gather(lut, idx);
    let s_lo = lo(s);
    let s_hi = hi(s);
    let inv_lo = lasx_xvsub_h(full, splat_alpha(s_lo));
    let inv_hi = lasx_xvsub_h(full, splat_alpha(s_hi));
    let out = pack(over(lo(d), s_lo, inv_lo), over(hi(d), s_hi, inv_hi));
    assert forall|p: int| 0 <= p < 8 implies #[trigger] vector::word(out@, p) == pixel::over_pixel(
        old(pixels)@[at + p],
        pixel::lut_at(lut@, vector::word(idx@, p)),
    ) by {
        assert(vector::word(d@, p) == old(pixels)@[at + p]);
        assert(vector::word(s@, p) == pixel::lut_at(lut@, vector::word(idx@, p)));
        chunk::lemma_over_pixel(d@, s@, out@, p);
    }
    store_pixels(pixels, at, out);
}

/// The table entry for pixel `i` of a row that has an index register for each
/// of its chunks.
pub open spec fn lut_row_at(lut: Seq<u32>, indices: Seq<M256i>, i: int) -> u32 {
    pixel::lut_at(lut, vector::word(indices[i / 8]@, i % 8))
}

/// The number of pixels in the chunks of a row of length `len` that have an
/// index register.
pub open spec fn lut_row_len(len: int, indices: Seq<M256i>) -> int {
    if 8 * indices.len() <= len {
        (8 * indices.len()) as int
    } else {
        pixel::whole(8, len)
    }
}

/// Fills `out` with the table entries at `indices`, one index register for
/// every chunk.
pub fn lut_fill_lasx(out: &mut [u32], lut: &[u32], indices: &[M256i])
    ensures
        final(out)@ == pixel::written(
            old(out)@,
            lut_row_len(old(out).len() as int, indices@),
            |i: int| lut_row_at(lut@, indices@, i),
        ),
{
    let ghost f = |i: int| lut_row_at(lut@, indices@, i);
    let mut at: usize = 0;
    let mut n: usize = 0;
    while out.len() - at >= 8 && n < indices.len()
        invariant
            at <= out.len(),
            n <= indices.len(),
            at == 8 * n,
            f == (|i: int| lut_row_at(lut@, indices@, i)),
            out@ == pixel::written(old(out)@, at as int, f),
        decreases out.len() - at,
    {
        let ghost before = out@;
        let ghost g = |i: int| pixel::lut_at(lut@, vector::word(indices@[n as int]@, i - at));
        lut_store(out, at, lut, indices[n]);
        proof {
            assert forall|i: int| at <= i < at + 8 implies #[trigger] g(i) == f(i) by {
                assert(i / 8 == n && i % 8 == i - at);
            }
            chunk::lemma_rewritten_step(old(out)@, before, out@, at as int, 8, f, g);
        }
        at += 8;
        n += 1;
    }
    proof {
        if out.len() - at < 8 {
            chunk::lemma_whole(8, old(out).len() as int, at as int);
        }
        assert(at == lut_row_len(old(out).len() as int, indices@));
    }
}

/// Composites the table entries at `indices` onto `dst`, one index register
/// for every chunk.
pub fn lut_over_lasx(dst: &mut [u32], lut: &[u32], indices: &[M256i])
    ensures
        final(dst)@ == pixel::written(
            old(dst)@,
            lut_row_len(old(dst).len() as int, indices@),
            |i: int| pixel::over_pixel(old(dst)@[i], lut_row_at(lut@, indices@, i)),
        ),
{
    let ghost f = |i: int| pixel::over_pixel(old(dst)@[i], lut_row_at(lut@, indices@, i));
    let mut at: usize = 0;
    let mut n: usize = 0;
    while dst.len() - at >= 8 && n < indices.len()
        invariant
            at <= dst.len(),
            n <= indices.len(),
            at == 8 * n,
            f == (|i: int| pixel::over_pixel(old(dst)@[i], lut_row_at(lut@, indices@, i))),
            dst@ == pixel::written(old(dst)@, at as int, f),
        decreases dst.len() - at,
    {
        let ghost before = dst@;
        let ghost g = |i: int|
            pixel::over_pixel(
                before[i],
                pixel::lut_at(lut@, vector::word(indices@[n as int]@, i - at)),
            );
        lut_blend_over_k255(dst, at, lut, indices[n]);
        proof {
            assert forall|i: int| at <= i < at + 8 implies #[trigger] g(i) == f(i) by {
                assert(i / 8 == n && i % 8 == i - at);
                assert(before[i] == old(dst)@[i]);
            }
            chunk::lemma_rewritten_step(old(dst)@, before, dst@, at as int, 8, f, g);
        }
        at += 8;
        n += 1;
    }
    proof {
        if dst.len() - at < 8 {
            chunk::lemma_whole(8, old(dst).len() as int, at as int);
        }
        assert(at == lut_row_len(old(dst).len() as int, indices@));
    }
}

} // verus!
