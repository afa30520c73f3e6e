//! What holds of the kernels and of the detection as a whole.

use core::sync::atomic::AtomicU8;
use vstd::prelude::*;

use crate::chunk;
use crate::cpuid;
use crate::lane;
use crate::pixel;
use crate::vector;

verus! {

/// Multiplying by 0x8081 and dropping 23 bits divides by 255, for every
/// dividend below 66299.
pub proof fn reciprocal_is_exact(x: int)
    requires
        0 <= x < 66299,
    ensures
        x * 0x8081 / 0x80_0000 == x / 255,
{
    let q = x / 255;
    let r = x % 255;
    assert(x * 0x8081 == q * 0x80_0000 + (127 * q + 0x8081 * r));
    assert(0 <= 127 * q + 0x8081 * r < 0x80_0000);
}

/// 66299 is the first dividend for which it does not.
pub proof fn reciprocal_bound_is_tight()
    ensures
        66299int * 0x8081 / 0x80_0000 == 66299int / 255 + 1,
{
}

/// Scaling by full coverage changes nothing.
pub proof fn div255_of_full(c: int)
    requires
        0 <= c <= 255,
    ensures
        lane::div255(255 * c) == c,
        lane::div255(c * 255) == c,
{
}

/// A matte whose factor is full keeps the pixel: skipping it is no different
/// from applying it.
pub proof fn full_matte_keeps(d: u32, s: u32, opacity: u8, inverted: bool)
    requires
        pixel::matte_factor(pixel::channel(s, 3), opacity, inverted) == 255,
    ensures
        pixel::matte_pixel(d, s, opacity, inverted) == d,
{
    let f = |k: int|
        pixel::alpha_product(
            pixel::channel(d, k),
            pixel::matte_factor(pixel::channel(s, 3), opacity, inverted),
        );
    assert forall|k: int| 0 <= k < 4 implies #[trigger] f(k) == pixel::channel(d, k) by {
        div255_of_full(pixel::channel(d, k) as int);
    }
    chunk::lemma_pixel_of_channels(d, f);
}

/// A fully transparent source keeps the pixel at every opacity: skipping it is
/// no different from compositing it.
pub proof fn transparent_keeps(d: u32, k: u32)
    ensures
        pixel::lane_composite_pixel(d, 0, k) == d,
        k <= 255 ==> pixel::composite_pixel(d, 0, k as u8) == d,
{
    let kq = lane::wrap16(k as int);
    let f = |c: int|
        pixel::lane_over_byte(
            pixel::channel(d, c),
            lane::lane_div255(lane::wrap16(pixel::channel(0, c) * kq)),
            lane::wrap16(255 - lane::lane_div255(lane::wrap16(pixel::channel(0, 3) * kq))),
        );
    assert forall|c: int| 0 <= c < 4 implies #[trigger] f(c) == pixel::channel(d, c) by {
        let held: u8 = pixel::channel(d, c);
        assert(pixel::channel(0, c) == 0 && pixel::channel(0, 3) == 0);
        assert(pixel::channel(0, c) * kq == 0 && pixel::channel(0, 3) * kq == 0);
        assert(lane::lane_div255(lane::wrap16(0)) == 0) by {
            lane::lemma_div255_of_product(0, 0);
        }
        assert(pixel::lane_over_byte(held, 0, lane::wrap16(255)) == held) by {
            lane::lemma_over_byte_of_channels(held, 0, 0);
            lane::lemma_over_extremes(held as int, 0);
        }
    }
    chunk::lemma_pixel_of_channels(d, f);
    if k <= 255 {
        chunk::lemma_composite_lanes(d, 0, k as u8);
    }
}

/// Flipping the bits of a channel value complements it, so that an inverted
/// factor is an exclusive or.
pub proof fn flipping_complements(f: u16)
    requires
        f <= 255,
    ensures
        f ^ 255 == 255 - f,
{
    lane::lemma_flip(f);
}

/// Widening both halves of a register and packing them again gives the
/// register back.
pub proof fn pack_restores(v: Seq<u16>)
    requires
        v.len() == 8 || v.len() == 16,
    ensures
        vector::pack(vector::lo(v), vector::hi(v)) == v,
{
    let r = vector::pack(vector::lo(v), vector::hi(v));
    assert forall|i: int| 0 <= i < v.len() implies r[i] == #[trigger] v[i] by {
        chunk::lemma_widen(v, 2 * i);
        chunk::lemma_widen(v, 2 * i + 1);
        chunk::lemma_pack(vector::lo(v), vector::hi(v), 2 * i);
        chunk::lemma_pack(vector::lo(v), vector::hi(v), 2 * i + 1);
        assert(vector::byte(r, 2 * i) == vector::byte(v, 2 * i));
        assert(vector::byte(r, 2 * i + 1) == vector::byte(v, 2 * i + 1));
        reveal(vector::byte);
    }
    assert(r =~= v);
}

/// What a kernel packs fits a byte: quotients, clamped sums and combinations
/// of channel values are at most 255, so that dropping the high byte of a lane
/// is exact.
pub proof fn packed_lanes_fit(mode: u8, a: u8, b: u8, c: u8)
    ensures
        lane::lane_div255(lane::wrap16(a * b)) <= 255,
        lane::lane_over(a as u16, b as u16, c as u16) <= 255,
        lane::lane_combined(mode, a as u16, b as u16) <= 255,
{
    lane::lemma_div255_of_product(a as int, b as int);
    lane::lemma_over_of_channels(a as int, b as int, c as int);
    lane::lemma_combined_of_bytes(mode, a, b);
}

/// Two kernels that write the same pixels in chunks of different widths agree
/// on every pixel that the wider one writes. The narrower one writes at least
/// as many.
pub proof fn widths_agree<T>(old: Seq<T>, len: int, narrow: int, f: spec_fn(int) -> T, i: int)
    requires
        narrow == 4 || narrow == 16,
        0 <= len,
        0 <= i < pixel::whole(2 * narrow, len),
        i < old.len(),
    ensures
        pixel::whole(2 * narrow, len) <= pixel::whole(narrow, len) <= len,
        pixel::written(old, pixel::whole(2 * narrow, len), f)[i] == pixel::written(
            old,
            pixel::whole(narrow, len),
            f,
        )[i],
{
    let wide = 2 * narrow;
    let (n, w) = (len % narrow, len % wide);
    vstd::arithmetic::div_mod::lemma_mod_mod(len, narrow, 2);
    assert(n == w % narrow);
    assert(0 <= w < wide);
    assert(0 <= n <= w) by {
        vstd::arithmetic::div_mod::lemma_fundamental_div_mod(w, narrow);
        vstd::arithmetic::div_mod::lemma_mod_decreases(w as nat, narrow as nat);
    }
}

/// At full opacity the channels of the source pass through unchanged.
pub proof fn full_opacity_passes(d: u32, s: u32)
    ensures
        pixel::scaled_pixel(s, 255) == s,
        pixel::composite_pixel(d, s, 255) == pixel::over_pixel(d, s),
{
    let f = |c: int| lane::div255(pixel::channel(s, c) * 255u8) as u8;
    assert forall|k: int| 0 <= k < 4 implies #[trigger] f(k) == pixel::channel(s, k) by {
        div255_of_full(pixel::channel(s, k) as int);
    }
    chunk::lemma_pixel_of_channels(s, f);
}

/// A transparent source keeps what it is composited onto.
pub proof fn zero_source_keeps(a: u8, d: u32)
    ensures
        pixel::alpha_over(a, 0) == a,
        pixel::over_pixel(d, 0) == d,
{
    lane::lemma_over_extremes(a as int, 0);
    let f = |k: int|
        lane::over(
            pixel::channel(d, k) as int,
            pixel::channel(0, k) as int,
            255 - pixel::channel(0, 3),
        ) as u8;
    assert forall|k: int| 0 <= k < 4 implies #[trigger] f(k) == pixel::channel(d, k) by {
        let c: u8 = pixel::channel(d, k);
        assert(pixel::channel(0, k) == 0 && pixel::channel(0, 3) == 0);
        lane::lemma_over_extremes(c as int, 0);
    }
    chunk::lemma_pixel_of_channels(d, f);
}

/// An opaque source replaces what it is composited onto.
pub proof fn opaque_source_replaces(a: u8, d: u32, s: u32)
    requires
        pixel::channel(s, 3) == 255,
    ensures
        pixel::alpha_over(a, 255) == 255,
        pixel::over_pixel(d, s) == s,
{
    lane::lemma_over_extremes(a as int, 255);
    let f = |k: int|
        lane::over(
            pixel::channel(d, k) as int,
            pixel::channel(s, k) as int,
            255 - pixel::channel(s, 3),
        ) as u8;
    assert forall|k: int| 0 <= k < 4 implies #[trigger] f(k) == pixel::channel(s, k) by {
        let c: u8 = pixel::channel(d, k);
        lane::lemma_over_extremes(c as int, pixel::channel(s, k) as int);
    }
    chunk::lemma_pixel_of_channels(s, f);
}

/// A solid fill at coverage `c` is the uniform fill with the colour that the
/// coverage gives.
pub proof fn solid_is_uniform(d: u32, c: u8, r: u8, g: u8, b: u8, a: u8)
    ensures
        ({
            let ca = lane::div255(c * a) as u8;
            pixel::solid_pixel(d, c, r, g, b, a) == pixel::over_pixel(
                d,
                pixel::rgba(
                    lane::div255(r * ca) as u8,
                    lane::div255(g * ca) as u8,
                    lane::div255(b * ca) as u8,
                    ca,
                ),
            )
        }),
{
}

/// A matte and its inverse share out full coverage.
pub proof fn mattes_are_complementary(s: u8, opacity: u8)
    ensures
        pixel::matte_factor(s, opacity, false) + pixel::matte_factor(s, opacity, true) == 255,
{
    lane::lemma_div255_of_product(s as int, opacity as int);
}

/// A lane that is not valid gets the sentinel index, which misses every table,
/// and so fills with transparency and composites without effect.
pub proof fn invalid_lane_is_transparent(idx: u32, lut: Seq<u32>, d: u32)
    requires
        lut.len() <= u32::MAX,
    ensures
        pixel::lut_at(lut, idx | !0u32) == 0,
        pixel::over_pixel(d, pixel::lut_at(lut, idx | !0u32)) == d,
{
    assert(idx | !0u32 == u32::MAX) by (bit_vector);
    zero_source_keeps(0, d);
}

/// Whether no colour channel of a pixel exceeds its alpha.
pub open spec fn is_premultiplied(p: u32) -> bool {
    forall|k: int| 0 <= k < 4 ==> #[trigger] pixel::channel(p, k) <= pixel::channel(p, 3)
}

/// The kernels keep pixels premultiplied.
pub proof fn premultiplied_stays(d: u32, s: u32, opacity: u8, inverted: bool)
    requires
        is_premultiplied(d),
        is_premultiplied(s),
    ensures
        is_premultiplied(pixel::over_pixel(d, s)),
        is_premultiplied(pixel::matte_pixel(d, s, opacity, inverted)),
        is_premultiplied(pixel::scaled_pixel(s, opacity)),
        is_premultiplied(pixel::composite_pixel(d, s, opacity)),
        forall|c: u8, r: u8, g: u8, b: u8, a: u8|
            is_premultiplied(#[trigger] pixel::solid_pixel(d, c, r, g, b, a)),
{
    assert forall|c: u8, r: u8, g: u8, b: u8, a: u8|
        is_premultiplied(#[trigger] pixel::solid_pixel(d, c, r, g, b, a)) by {
        let ca = lane::div255(c * a) as u8;
        colour_is_premultiplied(r, g, b, ca);
        over_stays_premultiplied(d, pixel::premultiplied(r, g, b, ca));
    }
    scaled_stays_premultiplied(s, opacity);
    over_stays_premultiplied(d, s);
    over_stays_premultiplied(d, pixel::scaled_pixel(s, opacity));
    let m = pixel::matte_factor(pixel::channel(s, 3), opacity, inverted);
    scaled_stays_premultiplied(d, m);
    assert(pixel::matte_pixel(d, s, opacity, inverted) == pixel::scaled_pixel(d, m));
}

proof fn colour_is_premultiplied(r: u8, g: u8, b: u8, a: u8)
    ensures
        is_premultiplied(pixel::premultiplied(r, g, b, a)),
{
    let f = |k: int|
        if k == 0 {
            lane::div255(r * a) as u8
        } else if k == 1 {
            lane::div255(g * a) as u8
        } else if k == 2 {
            lane::div255(b * a) as u8
        } else {
            a
        };
    chunk::lemma_channels_of_pixel(f);
    quotient_stays_below(r, a);
    quotient_stays_below(g, a);
    quotient_stays_below(b, a);
}

proof fn quotient_stays_below(c: u8, a: u8)
    ensures
        0 <= lane::div255(c * a) <= a,
{
    assert(0 <= c * a <= 255 * a) by (nonlinear_arith)
        requires
            0 <= c <= 255,
            0 <= a,
    ;
}

proof fn scaled_stays_premultiplied(s: u32, m: u8)
    requires
        is_premultiplied(s),
    ensures
        is_premultiplied(pixel::scaled_pixel(s, m)),
{
    let t = pixel::scaled_pixel(s, m);
    let f = |c: int| lane::div255(pixel::channel(s, c) * m) as u8;
    chunk::lemma_channels_of_pixel(f);
    let a = pixel::channel(s, 3);
    lane::lemma_div255_of_product(a as int, m as int);
    assert forall|k: int| 0 <= k < 4 implies #[trigger] pixel::channel(t, k) <= pixel::channel(t, 3) by {
        let c = pixel::channel(s, k);
        lane::lemma_div255_of_product(c as int, m as int);
        assert(c * m <= a * m) by (nonlinear_arith)
            requires
                c <= a,
        ;
        assert(pixel::channel(t, k) == f(k) && pixel::channel(t, 3) == f(3));
    }
}

proof fn over_stays_premultiplied(d: u32, s: u32)
    requires
        is_premultiplied(d),
        is_premultiplied(s),
    ensures
        is_premultiplied(pixel::over_pixel(d, s)),
{
    let t = pixel::over_pixel(d, s);
    let inv = 255 - pixel::channel(s, 3);
    let f = |k: int|
        lane::over(
            pixel::channel(d, k) as int,
            pixel::channel(s, k) as int,
            255 - pixel::channel(s, 3),
        ) as u8;
    chunk::lemma_channels_of_pixel(f);
    let (da, sa) = (pixel::channel(d, 3), pixel::channel(s, 3));
    lane::lemma_over_of_channels(da as int, sa as int, inv);
    assert forall|k: int| 0 <= k < 4 implies #[trigger] pixel::channel(t, k) <= pixel::channel(t, 3) by {
        let (dc, sc) = (pixel::channel(d, k), pixel::channel(s, k));
        lane::lemma_over_of_channels(dc as int, sc as int, inv);
        assert(0 <= dc * (inv + 1) <= da * (inv + 1)) by (nonlinear_arith)
            requires
                0 <= dc <= da,
                0 <= inv,
        ;
        assert(pixel::channel(t, k) == f(k) && pixel::channel(t, 3) == f(3));
    }
}

/// Where AVX-512 is found, so is AVX2: the wider banks and the longer list of
/// features take in the narrower.
pub proof fn avx512_implies_avx2(xcr0: u64, ebx: u32)
    requires
        cpuid::banks_enabled(xcr0, cpuid::XCR0_ZMM),
        cpuid::has_avx512(ebx),
    ensures
        cpuid::banks_enabled(xcr0, cpuid::XCR0_YMM),
        cpuid::has_avx2(ebx),
{
    assert(xcr0 & 0b1110_0110 == 0b1110_0110 ==> xcr0 & 0b0000_0110 == 0b0000_0110) by (bit_vector);
}

/// Where LASX is found, so is LSX.
pub proof fn lasx_implies_lsx(hwcap: Option<u64>)
    requires
        cpuid::lasx_reported(hwcap),
    ensures
        cpuid::lsx_reported(hwcap),
{
}

/// A query answers as the one before it did, whatever its own probe would say,
/// and stores nothing.
pub proof fn repeated_queries_are_stable(seen: u8, probed: bool, again: bool)
    ensures
        cpuid::cached_step(cpuid::cached_after(seen, probed), again) == (
            cpuid::cached_step(seen, probed).0,
            None::<u8>,
        ),
{
}

/// One query in a process: for AVX-512 if `wide` and else for AVX2, what it
/// loaded from its cell, and its answer.
pub struct Query {
    pub wide: bool,
    pub seen: u8,
    pub found: bool,
}

/// What the first `n` of `queries` leave in the cell of the queries that are
/// `wide` or not. Every cell starts without a verdict.
pub open spec fn cell_state(queries: Seq<Query>, wide: bool, n: int) -> u8
    decreases n,
{
    if n <= 0 {
        cpuid::UNKNOWN
    } else if queries[n - 1].wide == wide {
        cpuid::cached_after(queries[n - 1].seen, queries[n - 1].found)
    } else {
        cell_state(queries, wide, n - 1)
    }
}

/// Whether `q` is a call of `avx2` with `cell2`, or of `avx512` with `cell512`.
pub open spec fn is_call<G: Fn() -> u64>(
    cell2: &AtomicU8,
    cell512: &AtomicU8,
    read_xcr0: &G,
    q: Query,
) -> bool {
    if q.wide {
        cpuid::avx512_answers(cell512, read_xcr0, q.seen, q.found)
    } else {
        cpuid::avx2_answers(cell2, read_xcr0, q.seen, q.found)
    }
}

/// Whether `queries` are calls of `avx2` and `avx512` one after the other, each
/// with a cell of its own, that load what the calls before left there.
pub open spec fn in_turn<G: Fn() -> u64>(
    cell2: &AtomicU8,
    cell512: &AtomicU8,
    read_xcr0: &G,
    queries: Seq<Query>,
) -> bool {
    forall|k: int| #![trigger queries[k]]
        0 <= k < queries.len() ==> is_call(cell2, cell512, read_xcr0, queries[k])
            && queries[k].seen == cell_state(queries, queries[k].wide, k)
}

/// Whether the call `q` stores `state`.
pub open spec fn stores(q: Query, state: u8) -> bool {
    cpuid::cached_step(q.seen, q.found).1 == Some(state)
}

/// Whether `queries` are calls of `avx2` and `avx512`, each with a cell of its
/// own, in any number of threads and in the order of their loads. A load gives
/// what the cell started with, or what some call with that cell stored before.
pub open spec fn in_any_order<G: Fn() -> u64>(
    cell2: &AtomicU8,
    cell512: &AtomicU8,
    read_xcr0: &G,
    queries: Seq<Query>,
) -> bool {
    forall|k: int| #![trigger queries[k]]
        0 <= k < queries.len() ==> {
            &&& is_call(cell2, cell512, read_xcr0, queries[k])
            &&& queries[k].seen == cpuid::UNKNOWN || exists|j: int|
                0 <= j < k && queries[j].wide == queries[k].wide && #[trigger] stores(
                    queries[j],
                    queries[k].seen,
                )
        }
}

/// Any two calls of `avx2` in a process answer the same, and so do any two of
/// `avx512`, whatever calls of either come between.
pub proof fn later_calls_agree<G: Fn() -> u64>(
    cell2: &AtomicU8,
    cell512: &AtomicU8,
    read_xcr0: &G,
    queries: Seq<Query>,
    i: int,
    j: int,
)
    requires
        in_turn(cell2, cell512, read_xcr0, queries),
        0 <= i < j < queries.len(),
        queries[i].wide == queries[j].wide,
    ensures
        queries[j].found == queries[i].found,
{
    verdict_stays(cell2, cell512, read_xcr0, queries, i, j);
    assert(queries[j].seen == cell_state(queries, queries[j].wide, j));
}

/// Calls in turn are calls in an order.
pub proof fn in_turn_is_an_order<G: Fn() -> u64>(
    cell2: &AtomicU8,
    cell512: &AtomicU8,
    read_xcr0: &G,
    queries: Seq<Query>,
)
    requires
        in_turn(cell2, cell512, read_xcr0, queries),
    ensures
        in_any_order(cell2, cell512, read_xcr0, queries),
{
    assert forall|k: int| #![trigger queries[k]] 0 <= k < queries.len() implies is_call(
        cell2,
        cell512,
        read_xcr0,
        queries[k],
    ) && (queries[k].seen == cpuid::UNKNOWN || exists|j: int|
        0 <= j < k && queries[j].wide == queries[k].wide && #[trigger] stores(
            queries[j],
            queries[k].seen,
        )) by {
        state_was_stored(cell2, cell512, read_xcr0, queries, queries[k].wide, k);
    }
}

/// Every answer of `avx2` is a verdict on AVX2 and every answer of `avx512` one
/// on AVX-512, however the calls interleave: the cells do not leak into each
/// other.
pub proof fn answers_are_own_verdicts<G: Fn() -> u64>(
    cell2: &AtomicU8,
    cell512: &AtomicU8,
    read_xcr0: &G,
    queries: Seq<Query>,
    i: int,
)
    requires
        in_any_order(cell2, cell512, read_xcr0, queries),
        0 <= i < queries.len(),
    ensures
        !queries[i].wide ==> cpuid::avx2_gives(read_xcr0, queries[i].found),
        queries[i].wide ==> cpuid::avx512_gives(read_xcr0, queries[i].found),
{
    let q = queries[i];
    assert(is_call(cell2, cell512, read_xcr0, q));
    if q.seen != cpuid::UNKNOWN {
        let j = choose|j: int|
            0 <= j < i && queries[j].wide == q.wide && #[trigger] stores(queries[j], q.seen);
        assert(is_call(cell2, cell512, read_xcr0, queries[j]));
        assert(q.found == queries[j].found);
    }
}

/// On a machine that gives no two verdicts, any two calls of `avx2` answer the
/// same, and so do any two of `avx512`, however the calls interleave: a race
/// just runs the probe twice.
pub proof fn racing_calls_agree<G: Fn() -> u64>(
    cell2: &AtomicU8,
    cell512: &AtomicU8,
    read_xcr0: &G,
    queries: Seq<Query>,
    i: int,
    j: int,
)
    requires
        in_any_order(cell2, cell512, read_xcr0, queries),
        0 <= i < queries.len(),
        0 <= j < queries.len(),
        queries[i].wide == queries[j].wide,
        !(cpuid::avx2_gives(read_xcr0, true) && cpuid::avx2_gives(read_xcr0, false)),
        !(cpuid::avx512_gives(read_xcr0, true) && cpuid::avx512_gives(read_xcr0, false)),
    ensures
        queries[j].found == queries[i].found,
{
    answers_are_own_verdicts(cell2, cell512, read_xcr0, queries, i);
    answers_are_own_verdicts(cell2, cell512, read_xcr0, queries, j);
}

proof fn verdict_stays<G: Fn() -> u64>(
    cell2: &AtomicU8,
    cell512: &AtomicU8,
    read_xcr0: &G,
    queries: Seq<Query>,
    i: int,
    n: int,
)
    requires
        in_turn(cell2, cell512, read_xcr0, queries),
        0 <= i < n <= queries.len(),
    ensures
        cell_state(queries, queries[i].wide, n) == cpuid::verdict_state(queries[i].found),
    decreases n,
{
    let last = queries[n - 1];
    assert(last.seen == cell_state(queries, last.wide, n - 1));
    if i < n - 1 {
        verdict_stays(cell2, cell512, read_xcr0, queries, i, n - 1);
    }
}

proof fn state_was_stored<G: Fn() -> u64>(
    cell2: &AtomicU8,
    cell512: &AtomicU8,
    read_xcr0: &G,
    queries: Seq<Query>,
    wide: bool,
    n: int,
)
    requires
        in_turn(cell2, cell512, read_xcr0, queries),
        0 <= n <= queries.len(),
    ensures
        cell_state(queries, wide, n) == cpuid::UNKNOWN || exists|j: int|
            0 <= j < n && queries[j].wide == wide && #[trigger] stores(
                queries[j],
                cell_state(queries, wide, n),
            ),
    decreases n,
{
    if n > 0 {
        let last = queries[n - 1];
        let state = cell_state(queries, wide, n);
        assert(last.seen == cell_state(queries, last.wide, n - 1));
        if last.wide == wide && stores(last, state) {
            assert(stores(queries[n - 1], state));
        } else {
            state_was_stored(cell2, cell512, read_xcr0, queries, wide, n - 1);
            assert(state == cell_state(queries, wide, n - 1));
        }
    }
}

/// However queries of one cell interleave, every one of them answers what the
/// probe says: a race just runs the probe twice and stores the same answer.
/// `history` holds the states of the cell, and each but the first is what some
/// query stored that had found an earlier one.
pub proof fn racing_queries_agree(history: Seq<u8>, verdict: bool, i: int)
    requires
        0 <= i < history.len(),
        history[0] == cpuid::UNKNOWN,
        forall|k: int|
            0 < k < history.len() ==> exists|j: int|
                0 <= j < k && (#[trigger] cpuid::cached_step(history[j], verdict)).1 == Some(
                    #[trigger] history[k],
                ),
    ensures
        cpuid::cached_step(history[i], verdict).0 == verdict,
        history[i] == cpuid::UNKNOWN || history[i] == cpuid::verdict_state(verdict),
{
    if i > 0 {
        let j = choose|j: int|
            0 <= j < i && (#[trigger] cpuid::cached_step(history[j], verdict)).1 == Some(history[i]);
        assert(cpuid::cached_step(history[j], verdict).1 == Some(history[i]));
    }
}

} // verus!
