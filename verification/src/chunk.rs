//! How the bytes of a chunk travel through the two widened halves of a
//! register.

use vstd::prelude::*;

use crate::lane;
use crate::pixel;
use crate::vector;

verus! {

/// The lane of byte `j`, in whichever half holds it.
pub open spec fn lane_of(j: int) -> int {
    8 * (j / 16) + j % 8
}

/// The lane that byte `j` has in the halves `l` and `h`.
#[verifier::opaque]
pub open spec fn select(l: Seq<u16>, h: Seq<u16>, j: int) -> u16 {
    if j % 16 < 8 {
        l[lane_of(j)]
    } else {
        h[lane_of(j)]
    }
}

/// Whether `v` is a register: one or two groups of eight lanes.
pub open spec fn is_register(v: Seq<u16>) -> bool {
    v.len() == 8 || v.len() == 16
}

/// Widening puts every byte into its lane.
pub proof fn lemma_widen(v: Seq<u16>, j: int)
    requires
        is_register(v),
        0 <= j < 2 * v.len(),
    ensures
        0 <= lane_of(j) < v.len(),
        select(vector::lo(v), vector::hi(v), j) == vector::byte(v, j),
{
    reveal(select);
}

/// Packing puts the low byte of every lane back into its place.
pub proof fn lemma_pack(a: Seq<u16>, b: Seq<u16>, j: int)
    requires
        is_register(a),
        b.len() == a.len(),
        0 <= j < 2 * a.len(),
    ensures
        0 <= lane_of(j) < a.len(),
        vector::byte(vector::pack(a, b), j) == select(a, b, j) % 256,
{
    let i = j / 2;
    let pair = 8 * (i / 8) + 2 * (i % 4);
    assert(i / 8 == j / 16);
    assert(i % 8 < 4 <==> j % 16 < 8);
    assert(lane_of(j) == pair + j % 2);
    let half = if j % 16 < 8 {
        a
    } else {
        b
    };
    let lane = vector::pack(a, b)[i];
    assert(lane == vector::join((half[pair] % 256) as u8, (half[pair + 1] % 256) as u8));
    assert(select(a, b, j) == half[pair + j % 2]) by {
        reveal(select);
    }
    assert(vector::byte(vector::pack(a, b), j) == half[pair + j % 2] % 256) by {
        reveal(vector::byte);
    }
}

/// Spreading the alpha of both halves gives every byte of a pixel the lane of
/// its alpha byte.
pub proof fn lemma_splat_alpha(l: Seq<u16>, h: Seq<u16>, j: int)
    requires
        is_register(l),
        h.len() == l.len(),
        0 <= j < 2 * l.len(),
    ensures
        0 <= lane_of(j) < l.len(),
        0 <= 4 * (j / 4) + 3 < 2 * l.len(),
        select(vector::splat_alpha(l), vector::splat_alpha(h), j) == select(l, h, 4 * (j / 4) + 3),
{
    reveal(select);
}

/// Adding 127, multiplying high by 0x8081 and dropping seven bits divides every
/// lane by 255.
pub proof fn lemma_div255_lanes(n: Seq<u16>, x: Seq<u16>, m: Seq<u16>, r: Seq<u16>)
    requires
        x == vector::add_h(n, vector::splat(n.len(), 127)),
        m == vector::muh_hu(x, vector::splat(n.len(), 0x8081)),
        r == vector::srl_h(m, 7),
    ensures
        r == vector::div255_round(n),
        forall|i: int|
            0 <= i < n.len() && n[i] <= 65025 ==> #[trigger] r[i] == lane::div255(n[i] as int),
{
    reveal(lane::lane_div255);
    assert forall|i: int| 0 <= i < n.len() implies #[trigger] r[i] == lane::lane_div255(n[i]) && (
    n[i] <= 65025 ==> r[i] == lane::div255(n[i] as int)) by {
        lane::lemma_shift_7(m[i]);
        if n[i] <= 65025 {
            crate::laws::reciprocal_is_exact(n[i] + 127);
        }
    }
    assert(r =~= vector::div255_round(n));
}

/// The lanes of a source-over, step by step.
pub proof fn lemma_over_lanes(
    d: Seq<u16>,
    s: Seq<u16>,
    inv: Seq<u16>,
    m: Seq<u16>,
    t: Seq<u16>,
    r: Seq<u16>,
)
    requires
        s.len() == d.len(),
        inv.len() == d.len(),
        m == vector::mul_h(d, vector::add_h(inv, vector::splat(d.len(), 1))),
        t == vector::srl_h(m, 8),
        r == vector::min_h(vector::add_h(s, t), vector::splat(d.len(), 255)),
    ensures
        r == vector::over(d, s, inv),
        forall|i: int|
            0 <= i < d.len() && d[i] <= 255 && s[i] <= 255 && inv[i] <= 255 ==> #[trigger] r[i]
                == lane::over(d[i] as int, s[i] as int, inv[i] as int),
{
    reveal(lane::lane_over);
    assert forall|i: int| 0 <= i < d.len() implies #[trigger] r[i] == lane::lane_over(
        d[i],
        s[i],
        inv[i],
    ) && (d[i] <= 255 && s[i] <= 255 && inv[i] <= 255 ==> r[i] == lane::over(
        d[i] as int,
        s[i] as int,
        inv[i] as int,
    )) by {
        lane::lemma_shift_8(m[i]);
        if d[i] <= 255 && s[i] <= 255 && inv[i] <= 255 {
            lane::lemma_over_of_channels(d[i] as int, s[i] as int, inv[i] as int);
        }
    }
    assert(r =~= vector::over(d, s, inv));
}

/// Lane source-over commutes with picking the lane of a byte.
proof fn lemma_alpha_over_lane(dl: Seq<u16>, sl: Seq<u16>, dh: Seq<u16>, sh: Seq<u16>, j: int)
    requires
        0 <= lane_of(j) < dl.len(),
        lane_of(j) < dh.len(),
    ensures
        select(vector::alpha_over8(dl, sl), vector::alpha_over8(dh, sh), j) == lane::lane_over(
            select(dl, dh, j),
            select(sl, sh, j),
            lane::wrap16(255 - select(sl, sh, j)),
        ),
{
    reveal(select);
}

/// Scaling commutes with picking the lane of a byte.
proof fn lemma_scaled_lane(l: Seq<u16>, fl: Seq<u16>, h: Seq<u16>, fh: Seq<u16>, j: int)
    requires
        0 <= lane_of(j) < l.len(),
        lane_of(j) < h.len(),
    ensures
        select(
            vector::div255_round(vector::mul_h(l, fl)),
            vector::div255_round(vector::mul_h(h, fh)),
            j,
        ) == lane::lane_div255(lane::wrap16(select(l, h, j) * select(fl, fh, j))),
{
    reveal(select);
}

/// Exclusive or commutes with picking the lane of a byte.
proof fn lemma_xor_lane(l: Seq<u16>, fl: Seq<u16>, h: Seq<u16>, fh: Seq<u16>, j: int)
    requires
        0 <= lane_of(j) < l.len(),
        lane_of(j) < h.len(),
    ensures
        select(vector::xor_v(l, fl), vector::xor_v(h, fh), j) == select(l, h, j) ^ select(fl, fh, j),
{
    reveal(select);
}

/// A lane in all places is the lane of every byte.
proof fn lemma_splat_lane(n: nat, x: u16, j: int)
    requires
        0 <= lane_of(j) < n,
    ensures
        select(vector::splat(n, x), vector::splat(n, x), j) == x,
{
    reveal(select);
}

/// A chunk of coverage `c`, scaled by `alpha` and composited onto `d`.
pub proof fn lemma_scaled_over(
    d: Seq<u16>,
    c: Seq<u16>,
    alpha: u8,
    out: Seq<u16>,
    j: int,
)
    requires
        is_register(d),
        c.len() == d.len(),
        out == ({
            let av = vector::splat(d.len(), alpha as u16);
            vector::pack(
                vector::alpha_over8(
                    vector::lo(d),
                    vector::div255_round(vector::mul_h(vector::lo(c), av)),
                ),
                vector::alpha_over8(
                    vector::hi(d),
                    vector::div255_round(vector::mul_h(vector::hi(c), av)),
                ),
            )
        }),
        0 <= j < 2 * d.len(),
    ensures
        vector::byte(out, j) == pixel::alpha_scaled_over(
            vector::byte(d, j),
            vector::byte(c, j),
            alpha,
        ),
{
    let av = vector::splat(d.len(), alpha as u16);
    let (dl, dh) = (vector::lo(d), vector::hi(d));
    let (sl, sh) = (
        vector::div255_round(vector::mul_h(vector::lo(c), av)),
        vector::div255_round(vector::mul_h(vector::hi(c), av)),
    );
    lemma_widen(d, j);
    lemma_widen(c, j);
    lemma_pack(vector::alpha_over8(dl, sl), vector::alpha_over8(dh, sh), j);
    lemma_alpha_over_lane(dl, sl, dh, sh, j);
    lemma_scaled_lane(vector::lo(c), av, vector::hi(c), av, j);
    lemma_splat_lane(d.len(), alpha as u16, j);
    lane::lemma_scaled_over_lane(vector::byte(d, j), vector::byte(c, j), alpha);
}

/// The product of two chunks of coverage, composited onto `d`.
pub proof fn lemma_product_over(
    d: Seq<u16>,
    a: Seq<u16>,
    b: Seq<u16>,
    out: Seq<u16>,
    j: int,
)
    requires
        is_register(d),
        a.len() == d.len(),
        b.len() == d.len(),
        out == vector::pack(
            vector::alpha_over8(
                vector::lo(d),
                vector::div255_round(vector::mul_h(vector::lo(a), vector::lo(b))),
            ),
            vector::alpha_over8(
                vector::hi(d),
                vector::div255_round(vector::mul_h(vector::hi(a), vector::hi(b))),
            ),
        ),
        0 <= j < 2 * d.len(),
    ensures
        vector::byte(out, j) == pixel::alpha_scaled_over(
            vector::byte(d, j),
            vector::byte(a, j),
            vector::byte(b, j),
        ),
{
    let (dl, dh) = (vector::lo(d), vector::hi(d));
    let (sl, sh) = (
        vector::div255_round(vector::mul_h(vector::lo(a), vector::lo(b))),
        vector::div255_round(vector::mul_h(vector::hi(a), vector::hi(b))),
    );
    lemma_widen(d, j);
    lemma_widen(a, j);
    lemma_widen(b, j);
    lemma_pack(vector::alpha_over8(dl, sl), vector::alpha_over8(dh, sh), j);
    lemma_alpha_over_lane(dl, sl, dh, sh, j);
    lemma_scaled_lane(vector::lo(a), vector::lo(b), vector::hi(a), vector::hi(b), j);
    lane::lemma_scaled_over_lane(vector::byte(d, j), vector::byte(a, j), vector::byte(b, j));
}

/// One coverage value, composited onto `d`.
pub proof fn lemma_uniform_over(d: Seq<u16>, source: u8, out: Seq<u16>, j: int)
    requires
        is_register(d),
        out == vector::pack(
            vector::alpha_over8(vector::lo(d), vector::splat(d.len(), source as u16)),
            vector::alpha_over8(vector::hi(d), vector::splat(d.len(), source as u16)),
        ),
        0 <= j < 2 * d.len(),
    ensures
        vector::byte(out, j) == pixel::alpha_over(vector::byte(d, j), source as int),
{
    let (dl, dh) = (vector::lo(d), vector::hi(d));
    let sv = vector::splat(d.len(), source as u16);
    lemma_widen(d, j);
    lemma_pack(vector::alpha_over8(dl, sv), vector::alpha_over8(dh, sv), j);
    lemma_alpha_over_lane(dl, sv, dh, sv, j);
    lemma_splat_lane(d.len(), source as u16, j);
    lane::lemma_alpha_over_of_bytes(vector::byte(d, j), source);
}

/// The product of two chunks of coverage.
pub proof fn lemma_product(d: Seq<u16>, f: Seq<u16>, out: Seq<u16>, j: int)
    requires
        is_register(d),
        f.len() == d.len(),
        out == vector::pack(
            vector::div255_round(vector::mul_h(vector::lo(d), vector::lo(f))),
            vector::div255_round(vector::mul_h(vector::hi(d), vector::hi(f))),
        ),
        0 <= j < 2 * d.len(),
    ensures
        vector::byte(out, j) == pixel::alpha_product(vector::byte(d, j), vector::byte(f, j)),
{
    lemma_widen(d, j);
    lemma_widen(f, j);
    lemma_product_lane(vector::lo(d), vector::lo(f), vector::hi(d), vector::hi(f), out, j);
}

/// The packed product of two pairs of halves, at a byte whose lanes hold
/// channel values.
proof fn lemma_product_lane(
    l: Seq<u16>,
    fl: Seq<u16>,
    h: Seq<u16>,
    fh: Seq<u16>,
    out: Seq<u16>,
    j: int,
)
    requires
        is_register(l),
        h.len() == l.len(),
        0 <= j < 2 * l.len(),
        select(l, h, j) <= 255,
        select(fl, fh, j) <= 255,
        out == vector::pack(
            vector::div255_round(vector::mul_h(l, fl)),
            vector::div255_round(vector::mul_h(h, fh)),
        ),
    ensures
        vector::byte(out, j) == pixel::alpha_product(select(l, h, j) as u8, select(fl, fh, j) as u8),
{
    let (a, b) = (
        vector::div255_round(vector::mul_h(l, fl)),
        vector::div255_round(vector::mul_h(h, fh)),
    );
    lemma_pack(a, b, j);
    lemma_scaled_lane(l, fl, h, fh, j);
    lane::lemma_div255_of_product(select(l, h, j) as int, select(fl, fh, j) as int);
}

/// The lanes of the factors of a matte whose coverage is in the halves `l` and
/// `h`.
proof fn lemma_factor_lane(
    l: Seq<u16>,
    h: Seq<u16>,
    opacity: u8,
    inverted: bool,
    fl: Seq<u16>,
    fh: Seq<u16>,
    j: int,
)
    requires
        0 <= lane_of(j) < l.len(),
        h.len() == l.len(),
        select(l, h, j) <= 255,
        fl == vector::xor_v(
            vector::div255_round(vector::mul_h(l, vector::splat(l.len(), opacity as u16))),
            vector::splat(l.len(), if inverted { 255u16 } else { 0u16 }),
        ),
        fh == vector::xor_v(
            vector::div255_round(vector::mul_h(h, vector::splat(l.len(), opacity as u16))),
            vector::splat(l.len(), if inverted { 255u16 } else { 0u16 }),
        ),
    ensures
        select(fl, fh, j) == pixel::matte_factor(select(l, h, j) as u8, opacity, inverted),
{
    let ov = vector::splat(l.len(), opacity as u16);
    let flip = if inverted { 255u16 } else { 0u16 };
    let iv = vector::splat(l.len(), flip);
    let (a, b) = (
        vector::div255_round(vector::mul_h(l, ov)),
        vector::div255_round(vector::mul_h(h, ov)),
    );
    lemma_scaled_lane(l, ov, h, ov, j);
    lemma_splat_lane(l.len(), opacity as u16, j);
    lemma_splat_lane(l.len(), flip, j);
    lemma_xor_lane(a, iv, b, iv, j);
    lane::lemma_div255_of_product(select(l, h, j) as int, opacity as int);
    lane::lemma_flip(select(a, b, j));
}

/// A chunk of coverage `d` under the matte `s`.
pub proof fn lemma_matte(
    d: Seq<u16>,
    s: Seq<u16>,
    opacity: u8,
    inverted: bool,
    fl: Seq<u16>,
    fh: Seq<u16>,
    out: Seq<u16>,
    j: int,
)
    requires
        is_register(d),
        s.len() == d.len(),
        fl == vector::xor_v(
            vector::div255_round(
                vector::mul_h(vector::lo(s), vector::splat(d.len(), opacity as u16)),
            ),
            vector::splat(d.len(), if inverted { 255u16 } else { 0u16 }),
        ),
        fh == vector::xor_v(
            vector::div255_round(
                vector::mul_h(vector::hi(s), vector::splat(d.len(), opacity as u16)),
            ),
            vector::splat(d.len(), if inverted { 255u16 } else { 0u16 }),
        ),
        out == vector::pack(
            vector::div255_round(vector::mul_h(vector::lo(d), fl)),
            vector::div255_round(vector::mul_h(vector::hi(d), fh)),
        ),
        0 <= j < 2 * d.len(),
    ensures
        vector::byte(out, j) == pixel::alpha_product(
            vector::byte(d, j),
            pixel::matte_factor(vector::byte(s, j), opacity, inverted),
        ),
{
    lemma_widen(d, j);
    lemma_widen(s, j);
    lemma_factor_lane(vector::lo(s), vector::hi(s), opacity, inverted, fl, fh, j);
    lemma_product_lane(vector::lo(d), fl, vector::hi(d), fh, out, j);
}

/// Flipping all bytes of a register, or none.
pub proof fn lemma_invert(s: Seq<u16>, inverted: bool, r: Seq<u16>, j: int)
    requires
        is_register(s),
        r == vector::xor_v(s, vector::splat(s.len(), if inverted { 0xffffu16 } else { 0u16 })),
        0 <= j < 2 * s.len(),
    ensures
        vector::byte(r, j) == (if inverted {
            (255 - vector::byte(s, j)) as u8
        } else {
            vector::byte(s, j)
        }),
{
    reveal(vector::byte);
    lane::lemma_flip_bytes(s[j / 2]);
    assert(r[j / 2] == s[j / 2] ^ (if inverted { 0xffffu16 } else { 0u16 }));
}

/// A chunk of a mask, combined with the chunk `s` of another.
pub proof fn lemma_mask(
    mode: u8,
    d: Seq<u16>,
    s: Seq<u16>,
    inverted: bool,
    opacity: u8,
    out: Seq<u16>,
    j: int,
)
    requires
        is_register(d),
        s.len() == d.len(),
        out == ({
            let ov = vector::splat(d.len(), opacity as u16);
            let t = vector::xor_v(s, vector::splat(d.len(), if inverted { 0xffffu16 } else { 0u16 }));
            vector::pack(
                vector::mask_combine(
                    mode,
                    vector::lo(d),
                    vector::div255_round(vector::mul_h(vector::lo(t), ov)),
                ),
                vector::mask_combine(
                    mode,
                    vector::hi(d),
                    vector::div255_round(vector::mul_h(vector::hi(t), ov)),
                ),
            )
        }),
        0 <= j < 2 * d.len(),
    ensures
        vector::byte(out, j) == pixel::mask_combined(
            mode,
            vector::byte(d, j),
            pixel::mask_contribution(vector::byte(s, j), inverted, opacity),
        ),
{
    let ov = vector::splat(d.len(), opacity as u16);
    let t = vector::xor_v(s, vector::splat(d.len(), if inverted { 0xffffu16 } else { 0u16 }));
    let (cl, ch) = (
        vector::div255_round(vector::mul_h(vector::lo(t), ov)),
        vector::div255_round(vector::mul_h(vector::hi(t), ov)),
    );
    lemma_contribution_lane(s, t, inverted, opacity, cl, ch, j);
    lemma_widen(d, j);
    lemma_pack(
        vector::mask_combine(mode, vector::lo(d), cl),
        vector::mask_combine(mode, vector::hi(d), ch),
        j,
    );
    lemma_combine_lane(mode, vector::lo(d), cl, vector::hi(d), ch, j);
    lane::lemma_combined_of_bytes(
        mode,
        vector::byte(d, j),
        pixel::mask_contribution(vector::byte(s, j), inverted, opacity),
    );
}

/// The lanes of what a chunk of a mask contributes.
proof fn lemma_contribution_lane(
    s: Seq<u16>,
    t: Seq<u16>,
    inverted: bool,
    opacity: u8,
    cl: Seq<u16>,
    ch: Seq<u16>,
    j: int,
)
    requires
        is_register(s),
        t == vector::xor_v(s, vector::splat(s.len(), if inverted { 0xffffu16 } else { 0u16 })),
        cl == vector::div255_round(
            vector::mul_h(vector::lo(t), vector::splat(s.len(), opacity as u16)),
        ),
        ch == vector::div255_round(
            vector::mul_h(vector::hi(t), vector::splat(s.len(), opacity as u16)),
        ),
        0 <= j < 2 * s.len(),
    ensures
        select(cl, ch, j) == pixel::mask_contribution(vector::byte(s, j), inverted, opacity),
{
    let ov = vector::splat(s.len(), opacity as u16);
    lemma_widen(t, j);
    lemma_invert(s, inverted, t, j);
    lemma_scaled_lane(vector::lo(t), ov, vector::hi(t), ov, j);
    lemma_splat_lane(s.len(), opacity as u16, j);
    lane::lemma_contribution(vector::byte(t, j), opacity);
}

/// Combination commutes with picking the lane of a byte.
proof fn lemma_combine_lane(
    mode: u8,
    dl: Seq<u16>,
    cl: Seq<u16>,
    dh: Seq<u16>,
    ch: Seq<u16>,
    j: int,
)
    requires
        0 <= lane_of(j) < dl.len(),
        lane_of(j) < dh.len(),
    ensures
        select(vector::mask_combine(mode, dl, cl), vector::mask_combine(mode, dh, ch), j)
            == lane::lane_combined(mode, select(dl, dh, j), select(cl, ch, j)),
{
    reveal(select);
}

/// A register whose bytes are those from index `at` on.
pub proof fn lemma_of_bytes(v: Seq<u16>, bytes: Seq<u8>, at: int)
    requires
        is_register(v),
        0 <= at && at + 2 * v.len() <= bytes.len(),
        forall|j: int| 0 <= j < 2 * v.len() ==> #[trigger] vector::byte(v, j) == bytes[at + j],
    ensures
        v == vector::of_bytes(bytes, at, v.len()),
{
    reveal(vector::byte);
    assert forall|i: int| 0 <= i < v.len() implies v[i] == #[trigger] vector::of_bytes(
        bytes,
        at,
        v.len(),
    )[i] by {
        assert(vector::byte(v, 2 * i) == bytes[at + 2 * i]);
        assert(vector::byte(v, 2 * i + 1) == bytes[at + (2 * i + 1)]);
    }
    assert(v =~= vector::of_bytes(bytes, at, v.len()));
}

/// The bytes of a register made of bytes.
pub proof fn lemma_byte_of_bytes(bytes: Seq<u8>, at: int, n: nat, j: int)
    requires
        0 <= at && at + 2 * n <= bytes.len(),
        0 <= j < 2 * n,
    ensures
        vector::byte(vector::of_bytes(bytes, at, n), j) == bytes[at + j],
{
    reveal(vector::byte);
}

/// The bytes of a 32-bit word are the channels of the pixel it holds.
pub proof fn lemma_channels(v: Seq<u16>, p: int)
    requires
        is_register(v),
        0 <= p && 2 * p < v.len(),
    ensures
        forall|k: int|
            0 <= k < 4 ==> #[trigger] vector::byte(v, 4 * p + k) == pixel::channel(
                vector::word(v, p),
                k,
            ),
{
    let (a, b) = (v[2 * p], v[2 * p + 1]);
    let w = vector::word(v, p);
    assert(w == a + 0x1_0000 * b);
    assert(pixel::channel(w, 0) == a % 256 && pixel::channel(w, 1) == a / 256);
    assert(pixel::channel(w, 2) == b % 256 && pixel::channel(w, 3) == b / 256);
    assert forall|k: int| 0 <= k < 4 implies #[trigger] vector::byte(v, 4 * p + k)
        == pixel::channel(w, k) by {
        assert((4 * p + k) / 2 == 2 * p + k / 2 && (4 * p + k) % 2 == k % 2);
        reveal(vector::byte);
        assert(k == 0 || k == 1 || k == 2 || k == 3);
    }
}

/// A 32-bit word is the pixel whose channels are its bytes.
pub proof fn lemma_pixel(v: Seq<u16>, p: int, f: spec_fn(int) -> u8)
    requires
        is_register(v),
        0 <= p && 2 * p < v.len(),
        forall|k: int| 0 <= k < 4 ==> #[trigger] vector::byte(v, 4 * p + k) == f(k),
    ensures
        vector::word(v, p) == pixel::pixel_of(f),
{
    reveal(vector::byte);
    assert(vector::byte(v, 4 * p + 0) == f(0));
    assert(vector::byte(v, 4 * p + 1) == f(1));
    assert(vector::byte(v, 4 * p + 2) == f(2));
    assert(vector::byte(v, 4 * p + 3) == f(3));
}

/// Every pixel is the pixel of its own channels.
pub proof fn lemma_pixel_of_channels(p: u32, f: spec_fn(int) -> u8)
    requires
        forall|k: int| 0 <= k < 4 ==> #[trigger] f(k) == pixel::channel(p, k),
    ensures
        p == pixel::pixel_of(f),
{
    let x = p as int;
    let (a, b, c) = (x / 256, x / 0x1_0000, x / 0x100_0000);
    vstd::arithmetic::div_mod::lemma_div_denominator(x, 256, 256);
    vstd::arithmetic::div_mod::lemma_div_denominator(x, 0x1_0000, 256);
    assert(x == x % 256 + 256 * a);
    assert(a == a % 256 + 256 * b);
    assert(b == b % 256 + 256 * c);
    assert(f(0) == pixel::channel(p, 0));
    assert(f(1) == pixel::channel(p, 1));
    assert(f(2) == pixel::channel(p, 2));
    assert(f(3) == pixel::channel(p, 3));
}

/// The channels of a pixel put together from channels.
pub proof fn lemma_channels_of_pixel(f: spec_fn(int) -> u8)
    ensures
        forall|k: int| 0 <= k < 4 ==> #[trigger] pixel::channel(pixel::pixel_of(f), k) == f(k),
{
    let p = pixel::pixel_of(f);
    let d = f(3) as int;
    let cd = f(2) + 256 * d;
    let bcd = f(1) + 256 * cd;
    assert(p == f(0) + 256 * bcd);
    assert(p / 256 == bcd && p % 256 == f(0));
    assert(bcd / 256 == cd && bcd % 256 == f(1));
    assert(cd / 256 == d && cd % 256 == f(2));
    assert(p / 0x1_0000 == cd);
    assert(p / 0x100_0000 == d);
}

/// A row of whole chunks with less than a chunk behind it holds all of them.
pub proof fn lemma_whole(width: int, len: int, at: int)
    requires
        0 < width,
        0 <= at <= len < at + width,
        at % width == 0,
    ensures
        at == pixel::whole(width, len),
{
    vstd::arithmetic::div_mod::lemma_fundamental_div_mod(at, width);
    assert(len == (at / width) * width + (len - at)) by (nonlinear_arith)
        requires
            at == width * (at / width) + at % width,
            at % width == 0,
    ;
    vstd::arithmetic::div_mod::lemma_fundamental_div_mod_converse(len, width, at / width, len - at);
}

/// The same of two rows, the shorter of which has less than a chunk left.
pub proof fn lemma_whole2(width: int, a: int, b: int, at: int)
    requires
        0 < width,
        0 <= at <= a,
        at <= b,
        a < at + width || b < at + width,
        at % width == 0,
    ensures
        at == pixel::whole2(width, a, b),
{
    lemma_whole(width, if a <= b { a } else { b }, at);
}

/// A chunk that already holds `f` may be left as it is.
pub proof fn lemma_kept_chunk<T>(row: Seq<T>, at: int, width: int, f: spec_fn(int) -> T)
    requires
        forall|p: int| 0 <= p < width ==> row[at + p] == #[trigger] f(at + p),
    ensures
        row == pixel::rewritten(row, at, at + width, f),
{
    assert forall|i: int| at <= i < at + width implies #[trigger] row[i] == f(i) by {
        assert(row[at + (i - at)] == f(at + (i - at)));
    }
    assert(row =~= pixel::rewritten(row, at, at + width, f));
}

/// Storing a register that holds `f` rewrites the chunk with it.
pub proof fn lemma_stored_chunk(
    row: Seq<u32>,
    at: int,
    width: int,
    v: Seq<u16>,
    f: spec_fn(int) -> u32,
)
    requires
        v.len() == 2 * width,
        forall|p: int| 0 <= p < width ==> #[trigger] vector::word(v, p) == f(at + p),
    ensures
        vector::stored_words(row, at, v) == pixel::rewritten(row, at, at + width, f),
{
    let new = vector::stored_words(row, at, v);
    assert forall|i: int| 0 <= i < row.len() implies #[trigger] new[i] == pixel::rewritten(
        row,
        at,
        at + width,
        f,
    )[i] by {
        if at <= i < at + width {
            assert(vector::word(v, i - at) == f(at + (i - at)));
        }
    }
    assert(new =~= pixel::rewritten(row, at, at + width, f));
}

/// Rewriting the next chunk with `g`, which agrees with `f` there, extends the
/// row that holds `f`.
pub proof fn lemma_rewritten_step<T>(
    old: Seq<T>,
    before: Seq<T>,
    new: Seq<T>,
    at: int,
    width: int,
    f: spec_fn(int) -> T,
    g: spec_fn(int) -> T,
)
    requires
        0 <= at,
        0 < width,
        at + width <= old.len(),
        before == pixel::written(old, at, f),
        new == pixel::rewritten(before, at, at + width, g),
        forall|i: int| at <= i < at + width ==> #[trigger] g(i) == f(i),
    ensures
        new == pixel::written(old, at + width, f),
{
    assert forall|i: int| 0 <= i < old.len() implies #[trigger] new[i] == pixel::written(
        old,
        at + width,
        f,
    )[i] by {
        if at <= i < at + width {
            assert(g(i) == f(i));
        } else {
            assert(new[i] == before[i]);
        }
    }
    assert(new =~= pixel::written(old, at + width, f));
}

/// Source-over commutes with picking the lane of a byte.
proof fn lemma_over_lane(
    dl: Seq<u16>,
    sl: Seq<u16>,
    il: Seq<u16>,
    dh: Seq<u16>,
    sh: Seq<u16>,
    ih: Seq<u16>,
    j: int,
)
    requires
        0 <= lane_of(j) < dl.len(),
        lane_of(j) < dh.len(),
    ensures
        select(vector::over(dl, sl, il), vector::over(dh, sh, ih), j) == lane::lane_over(
            select(dl, dh, j),
            select(sl, sh, j),
            select(il, ih, j),
        ),
{
    reveal(select);
}

/// Complementing commutes with picking the lane of a byte.
proof fn lemma_complement_lane(l: Seq<u16>, h: Seq<u16>, j: int)
    requires
        0 <= lane_of(j) < l.len(),
        h.len() == l.len(),
    ensures
        select(
            vector::sub_h(vector::splat(l.len(), 255), l),
            vector::sub_h(vector::splat(l.len(), 255), h),
            j,
        ) == lane::wrap16(255 - select(l, h, j)),
{
    reveal(select);
}

/// A byte and its lane have the same place in their groups of four.
proof fn lemma_lane_of_channel(j: int)
    requires
        0 <= j,
    ensures
        lane_of(j) % 4 == j % 4,
{
    vstd::arithmetic::div_mod::lemma_mod_multiples_vanish(2 * (j / 16), j % 8, 4);
    vstd::arithmetic::div_mod::lemma_mod_mod(j, 4, 2);
    assert(lane_of(j) == 4 * (2 * (j / 16)) + j % 8);
}

/// In halves that repeat four lanes, a byte has the lane of its channel.
proof fn lemma_repeated_lane(v: Seq<u16>, g: spec_fn(int) -> u16, j: int)
    requires
        0 <= j,
        0 <= lane_of(j) < v.len(),
        forall|i: int| 0 <= i < v.len() ==> #[trigger] v[i] == g(i % 4),
    ensures
        select(v, v, j) == g(j % 4),
{
    lemma_lane_of_channel(j);
    let i = lane_of(j);
    assert(v[i] == g(i % 4));
    reveal(select);
}

/// A repeated pattern of four lanes gives every channel its own lane.
proof fn lemma_pattern_lane(n: nat, x: u64, j: int)
    requires
        0 <= j,
        0 <= lane_of(j) < n,
    ensures
        select(vector::splat_d(n, x), vector::splat_d(n, x), j) == vector::pattern_lane(x, j % 4),
{
    lemma_repeated_lane(vector::splat_d(n, x), |k: int| vector::pattern_lane(x, k), j);
}

/// Both bytes of every lane doubled, and then both lanes of every word: each
/// byte of the low word of a group of eight lanes, four times over.
pub proof fn lemma_rep4(c: Seq<u16>, r: Seq<u16>, j: int)
    requires
        is_register(c),
        r == vector::ilvl_h(vector::ilvl_b(c, c), vector::ilvl_b(c, c)),
        0 <= j < 2 * c.len(),
    ensures
        vector::byte(r, j) == vector::byte(c, 16 * (j / 16) + j % 16 / 4),
{
    reveal(vector::byte);
    let x = vector::ilvl_b(c, c);
    let i = j / 2;
    let q = 8 * (i / 8) + i % 8 / 2;
    assert(r[i] == x[q]);
    assert(vector::low_byte(q) == 16 * (j / 16) + j % 16 / 4);
    assert(x[q] == vector::join(vector::byte(c, vector::low_byte(q)), vector::byte(c, vector::low_byte(q))));
}

/// Every pixel gets its coverage into all four of its bytes.
pub proof fn lemma_rep4_pixel(c: Seq<u16>, r: Seq<u16>, p: int)
    requires
        is_register(c),
        r == vector::ilvl_h(vector::ilvl_b(c, c), vector::ilvl_b(c, c)),
        0 <= p && 2 * p < c.len(),
    ensures
        forall|k: int|
            0 <= k < 4 ==> #[trigger] vector::byte(r, 4 * p + k) == pixel::channel(
                vector::word(c, 4 * (p / 4)),
                p % 4,
            ),
{
    assert forall|k: int| 0 <= k < 4 implies #[trigger] vector::byte(r, 4 * p + k)
        == pixel::channel(vector::word(c, 4 * (p / 4)), p % 4) by {
        let j = 4 * p + k;
        lemma_rep4(c, r, j);
        assert(16 * (j / 16) + j % 16 / 4 == 4 * (4 * (p / 4)) + p % 4);
        lemma_channels(c, 4 * (p / 4));
        assert(vector::byte(c, 4 * (4 * (p / 4)) + p % 4) == pixel::channel(
            vector::word(c, 4 * (p / 4)),
            p % 4,
        ));
    }
}

/// The factors of a matte of colour pixels: every channel gets the one of its
/// pixel's alpha.
pub proof fn lemma_pixel_factors(
    s: Seq<u16>,
    opacity: u8,
    inverted: bool,
    fl: Seq<u16>,
    fh: Seq<u16>,
    p: int,
    k: int,
)
    requires
        is_register(s),
        fl == vector::xor_v(
            vector::div255_round(
                vector::mul_h(
                    vector::splat_alpha(vector::lo(s)),
                    vector::splat(s.len(), opacity as u16),
                ),
            ),
            vector::splat(s.len(), if inverted { 255u16 } else { 0u16 }),
        ),
        fh == vector::xor_v(
            vector::div255_round(
                vector::mul_h(
                    vector::splat_alpha(vector::hi(s)),
                    vector::splat(s.len(), opacity as u16),
                ),
            ),
            vector::splat(s.len(), if inverted { 255u16 } else { 0u16 }),
        ),
        0 <= p && 2 * p < s.len(),
        0 <= k < 4,
    ensures
        select(fl, fh, 4 * p + k) == pixel::matte_factor(
            pixel::channel(vector::word(s, p), 3),
            opacity,
            inverted,
        ),
{
    let j = 4 * p + k;
    assert(4 * (j / 4) + 3 == 4 * p + 3);
    lemma_splat_alpha(vector::lo(s), vector::hi(s), j);
    lemma_widen(s, 4 * p + 3);
    lemma_channels(s, p);
    assert(vector::byte(s, 4 * p + 3) == pixel::channel(vector::word(s, p), 3));
    lemma_factor_lane(
        vector::splat_alpha(vector::lo(s)),
        vector::splat_alpha(vector::hi(s)),
        opacity,
        inverted,
        fl,
        fh,
        j,
    );
}

/// A chunk of colour pixels under the matte `s`.
pub proof fn lemma_matte_pixel(
    d: Seq<u16>,
    s: Seq<u16>,
    opacity: u8,
    inverted: bool,
    fl: Seq<u16>,
    fh: Seq<u16>,
    out: Seq<u16>,
    p: int,
)
    requires
        is_register(d),
        s.len() == d.len(),
        fl == vector::xor_v(
            vector::div255_round(
                vector::mul_h(
                    vector::splat_alpha(vector::lo(s)),
                    vector::splat(s.len(), opacity as u16),
                ),
            ),
            vector::splat(s.len(), if inverted { 255u16 } else { 0u16 }),
        ),
        fh == vector::xor_v(
            vector::div255_round(
                vector::mul_h(
                    vector::splat_alpha(vector::hi(s)),
                    vector::splat(s.len(), opacity as u16),
                ),
            ),
            vector::splat(s.len(), if inverted { 255u16 } else { 0u16 }),
        ),
        out == vector::pack(
            vector::div255_round(vector::mul_h(vector::lo(d), fl)),
            vector::div255_round(vector::mul_h(vector::hi(d), fh)),
        ),
        0 <= p && 2 * p < d.len(),
    ensures
        vector::word(out, p) == pixel::matte_pixel(
            vector::word(d, p),
            vector::word(s, p),
            opacity,
            inverted,
        ),
{
    let (dp, sp) = (vector::word(d, p), vector::word(s, p));
    let f = |k: int|
        pixel::alpha_product(
            pixel::channel(dp, k),
            pixel::matte_factor(pixel::channel(sp, 3), opacity, inverted),
        );
    lemma_channels(d, p);
    assert forall|k: int| 0 <= k < 4 implies #[trigger] vector::byte(out, 4 * p + k) == f(k) by {
        lemma_pixel_factors(s, opacity, inverted, fl, fh, p, k);
        lemma_widen(d, 4 * p + k);
        lemma_product_lane(vector::lo(d), fl, vector::hi(d), fh, out, 4 * p + k);
        assert(vector::byte(d, 4 * p + k) == pixel::channel(dp, k));
    }
    lemma_pixel(out, p, f);
}

/// A matte whose factors are all full keeps every pixel.
pub proof fn lemma_full_matte_pixel(
    d: u32,
    s: Seq<u16>,
    opacity: u8,
    inverted: bool,
    fl: Seq<u16>,
    fh: Seq<u16>,
    p: int,
)
    requires
        is_register(s),
        fl == vector::xor_v(
            vector::div255_round(
                vector::mul_h(
                    vector::splat_alpha(vector::lo(s)),
                    vector::splat(s.len(), opacity as u16),
                ),
            ),
            vector::splat(s.len(), if inverted { 255u16 } else { 0u16 }),
        ),
        fh == vector::xor_v(
            vector::div255_round(
                vector::mul_h(
                    vector::splat_alpha(vector::hi(s)),
                    vector::splat(s.len(), opacity as u16),
                ),
            ),
            vector::splat(s.len(), if inverted { 255u16 } else { 0u16 }),
        ),
        forall|i: int| 0 <= i < s.len() ==> #[trigger] fl[i] == 255,
        forall|i: int| 0 <= i < s.len() ==> #[trigger] fh[i] == 255,
        0 <= p && 2 * p < s.len(),
    ensures
        pixel::matte_pixel(d, vector::word(s, p), opacity, inverted) == d,
{
    lemma_pixel_factors(s, opacity, inverted, fl, fh, p, 0);
    lemma_widen(s, 4 * p);
    assert(select(fl, fh, 4 * p + 0) == 255) by {
        reveal(select);
    }
    crate::laws::full_matte_keeps(d, vector::word(s, p), opacity, inverted);
}

/// A chunk of a source-over at one byte, as its lanes have it.
pub proof fn lemma_over_byte(
    d: Seq<u16>,
    sl: Seq<u16>,
    il: Seq<u16>,
    sh: Seq<u16>,
    ih: Seq<u16>,
    out: Seq<u16>,
    j: int,
)
    requires
        is_register(d),
        out == vector::pack(
            vector::over(vector::lo(d), sl, il),
            vector::over(vector::hi(d), sh, ih),
        ),
        0 <= j < 2 * d.len(),
    ensures
        vector::byte(out, j) == pixel::lane_over_byte(
            vector::byte(d, j),
            select(sl, sh, j),
            select(il, ih, j),
        ),
{
    lemma_widen(d, j);
    lemma_pack(vector::over(vector::lo(d), sl, il), vector::over(vector::hi(d), sh, ih), j);
    lemma_over_lane(vector::lo(d), sl, il, vector::hi(d), sh, ih, j);
}

/// A chunk of a solid colour composited onto `d`, the coverage of every pixel
/// in all four of its bytes.
pub proof fn lemma_solid_pixel(
    d: Seq<u16>,
    crep: Seq<u16>,
    sr: u32,
    sg: u32,
    sb: u32,
    sa: u32,
    out: Seq<u16>,
    p: int,
    c: u8,
)
    requires
        is_register(d),
        crep.len() == d.len(),
        forall|k: int| 0 <= k < 4 ==> #[trigger] vector::byte(crep, 4 * p + k) == c,
        out == ({
            let src = vector::splat_d(d.len(), pixel::lane_pattern(sr, sg, sb, 255));
            let sa_w = vector::splat(d.len(), lane::wrap16(sa as int));
            let full = vector::splat(d.len(), 255);
            let ca_lo = vector::div255_round(vector::mul_h(vector::lo(crep), sa_w));
            let ca_hi = vector::div255_round(vector::mul_h(vector::hi(crep), sa_w));
            vector::pack(
                vector::over(
                    vector::lo(d),
                    vector::div255_round(vector::mul_h(src, ca_lo)),
                    vector::sub_h(full, ca_lo),
                ),
                vector::over(
                    vector::hi(d),
                    vector::div255_round(vector::mul_h(src, ca_hi)),
                    vector::sub_h(full, ca_hi),
                ),
            )
        }),
        0 <= p && 2 * p < d.len(),
    ensures
        vector::word(out, p) == pixel::lane_solid_pixel(vector::word(d, p), c, sr, sg, sb, sa),
{
    let x = pixel::lane_pattern(sr, sg, sb, 255);
    let sa16 = lane::wrap16(sa as int);
    let src = vector::splat_d(d.len(), x);
    let sa_w = vector::splat(d.len(), sa16);
    let full = vector::splat(d.len(), 255);
    let ca_lo = vector::div255_round(vector::mul_h(vector::lo(crep), sa_w));
    let ca_hi = vector::div255_round(vector::mul_h(vector::hi(crep), sa_w));
    let s_lo = vector::div255_round(vector::mul_h(src, ca_lo));
    let s_hi = vector::div255_round(vector::mul_h(src, ca_hi));
    let inv_lo = vector::sub_h(full, ca_lo);
    let inv_hi = vector::sub_h(full, ca_hi);
    let dp = vector::word(d, p);
    let ca = lane::lane_div255(lane::wrap16(c * sa16));
    let f = |k: int|
        pixel::lane_over_byte(
            pixel::channel(dp, k),
            lane::lane_div255(lane::wrap16(vector::pattern_lane(x, k) * ca)),
            lane::wrap16(255 - ca),
        );
    lemma_channels(d, p);
    assert forall|k: int| 0 <= k < 4 implies #[trigger] vector::byte(out, 4 * p + k) == f(k) by {
        let j = 4 * p + k;
        lemma_over_byte(d, s_lo, inv_lo, s_hi, inv_hi, out, j);
        lemma_widen(crep, j);
        lemma_scaled_lane(vector::lo(crep), sa_w, vector::hi(crep), sa_w, j);
        lemma_splat_lane(d.len(), sa16, j);
        assert(vector::byte(crep, 4 * p + k) == c);
        assert(select(ca_lo, ca_hi, j) == ca);
        lemma_scaled_lane(src, ca_lo, src, ca_hi, j);
        lemma_pattern_lane(d.len(), x, j);
        assert(j % 4 == k);
        lemma_complement_lane(ca_lo, ca_hi, j);
        assert(vector::byte(d, 4 * p + k) == pixel::channel(dp, k));
    }
    lemma_pixel(out, p, f);
}

/// A chunk of one premultiplied colour composited onto `d`.
pub proof fn lemma_uniform_pixel(
    d: Seq<u16>,
    ca: u32,
    s_r: u32,
    s_g: u32,
    s_b: u32,
    out: Seq<u16>,
    p: int,
)
    requires
        is_register(d),
        out == ({
            let s = vector::splat_d(d.len(), pixel::lane_pattern(s_r, s_g, s_b, ca));
            let inv = vector::splat(d.len(), lane::wrap16(255 - ca));
            vector::pack(
                vector::over(vector::lo(d), s, inv),
                vector::over(vector::hi(d), s, inv),
            )
        }),
        0 <= p && 2 * p < d.len(),
    ensures
        vector::word(out, p) == pixel::lane_uniform_pixel(vector::word(d, p), ca, s_r, s_g, s_b),
{
    let x = pixel::lane_pattern(s_r, s_g, s_b, ca);
    let i16 = lane::wrap16(255 - ca);
    let s = vector::splat_d(d.len(), x);
    let inv = vector::splat(d.len(), i16);
    let dp = vector::word(d, p);
    let f = |k: int| pixel::lane_over_byte(pixel::channel(dp, k), vector::pattern_lane(x, k), i16);
    lemma_channels(d, p);
    assert forall|k: int| 0 <= k < 4 implies #[trigger] vector::byte(out, 4 * p + k) == f(k) by {
        let j = 4 * p + k;
        lemma_over_byte(d, s, inv, s, inv, out, j);
        lemma_widen(d, j);
        lemma_pattern_lane(d.len(), x, j);
        assert(j % 4 == k);
        lemma_splat_lane(d.len(), i16, j);
        assert(vector::byte(d, 4 * p + k) == pixel::channel(dp, k));
    }
    lemma_pixel(out, p, f);
}

/// A chunk of pixels `s` at opacity `k`, composited onto `d`.
pub proof fn lemma_composite_pixel(d: Seq<u16>, s: Seq<u16>, opacity: u32, out: Seq<u16>, p: int)
    requires
        is_register(d),
        s.len() == d.len(),
        out == ({
            let kq = vector::splat(d.len(), lane::wrap16(opacity as int));
            let full = vector::splat(d.len(), 255);
            let (sl, sh) = (vector::lo(s), vector::hi(s));
            vector::pack(
                vector::over(
                    vector::lo(d),
                    vector::div255_round(vector::mul_h(sl, kq)),
                    vector::sub_h(
                        full,
                        vector::div255_round(vector::mul_h(vector::splat_alpha(sl), kq)),
                    ),
                ),
                vector::over(
                    vector::hi(d),
                    vector::div255_round(vector::mul_h(sh, kq)),
                    vector::sub_h(
                        full,
                        vector::div255_round(vector::mul_h(vector::splat_alpha(sh), kq)),
                    ),
                ),
            )
        }),
        0 <= p && 2 * p < d.len(),
    ensures
        vector::word(out, p) == pixel::lane_composite_pixel(
            vector::word(d, p),
            vector::word(s, p),
            opacity,
        ),
{
    let k16 = lane::wrap16(opacity as int);
    let kq = vector::splat(d.len(), k16);
    let full = vector::splat(d.len(), 255);
    let (sl, sh) = (vector::lo(s), vector::hi(s));
    let (al, ah) = (vector::splat_alpha(sl), vector::splat_alpha(sh));
    let (xl, xh) = (
        vector::div255_round(vector::mul_h(sl, kq)),
        vector::div255_round(vector::mul_h(sh, kq)),
    );
    let (yl, yh) = (
        vector::div255_round(vector::mul_h(al, kq)),
        vector::div255_round(vector::mul_h(ah, kq)),
    );
    let (dp, sp) = (vector::word(d, p), vector::word(s, p));
    let f = |c: int|
        pixel::lane_over_byte(
            pixel::channel(dp, c),
            lane::lane_div255(lane::wrap16(pixel::channel(sp, c) * k16)),
            lane::wrap16(
                255 - lane::lane_div255(lane::wrap16(pixel::channel(sp, 3) * k16)),
            ),
        );
    lemma_channels(d, p);
    lemma_channels(s, p);
    assert(vector::byte(s, 4 * p + 3) == pixel::channel(sp, 3));
    assert forall|c: int| 0 <= c < 4 implies #[trigger] vector::byte(out, 4 * p + c) == f(c) by {
        let j = 4 * p + c;
        lemma_over_byte(d, xl, vector::sub_h(full, yl), xh, vector::sub_h(full, yh), out, j);
        lemma_widen(s, j);
        lemma_widen(s, 4 * p + 3);
        assert(4 * (j / 4) + 3 == 4 * p + 3);
        lemma_splat_alpha(sl, sh, j);
        lemma_splat_lane(d.len(), k16, j);
        lemma_scaled_lane(sl, kq, sh, kq, j);
        lemma_scaled_lane(al, kq, ah, kq, j);
        lemma_complement_lane(yl, yh, j);
        assert(vector::byte(d, 4 * p + c) == pixel::channel(dp, c));
        assert(vector::byte(s, 4 * p + c) == pixel::channel(sp, c));
    }
    lemma_pixel(out, p, f);
}

/// A chunk of premultiplied pixels `s`, composited onto `d`.
pub proof fn lemma_over_pixel(d: Seq<u16>, s: Seq<u16>, out: Seq<u16>, p: int)
    requires
        is_register(d),
        s.len() == d.len(),
        out == ({
            let full = vector::splat(d.len(), 255);
            let (sl, sh) = (vector::lo(s), vector::hi(s));
            vector::pack(
                vector::over(
                    vector::lo(d),
                    sl,
                    vector::sub_h(full, vector::splat_alpha(sl)),
                ),
                vector::over(
                    vector::hi(d),
                    sh,
                    vector::sub_h(full, vector::splat_alpha(sh)),
                ),
            )
        }),
        0 <= p && 2 * p < d.len(),
    ensures
        vector::word(out, p) == pixel::over_pixel(vector::word(d, p), vector::word(s, p)),
{
    let full = vector::splat(d.len(), 255);
    let (sl, sh) = (vector::lo(s), vector::hi(s));
    let (al, ah) = (vector::splat_alpha(sl), vector::splat_alpha(sh));
    let (dp, sp) = (vector::word(d, p), vector::word(s, p));
    let f = |c: int|
        lane::over(
            pixel::channel(dp, c) as int,
            pixel::channel(sp, c) as int,
            255 - pixel::channel(sp, 3),
        ) as u8;
    lemma_channels(d, p);
    lemma_channels(s, p);
    assert(vector::byte(s, 4 * p + 3) == pixel::channel(sp, 3));
    assert forall|c: int| 0 <= c < 4 implies #[trigger] vector::byte(out, 4 * p + c) == f(c) by {
        let j = 4 * p + c;
        lemma_over_byte(d, sl, vector::sub_h(full, al), sh, vector::sub_h(full, ah), out, j);
        lemma_widen(s, j);
        lemma_widen(s, 4 * p + 3);
        assert(4 * (j / 4) + 3 == 4 * p + 3);
        lemma_splat_alpha(sl, sh, j);
        lemma_complement_lane(al, ah, j);
        assert(vector::byte(d, 4 * p + c) == pixel::channel(dp, c));
        assert(vector::byte(s, 4 * p + c) == pixel::channel(sp, c));
        lane::lemma_over_byte_of_channels(
            pixel::channel(dp, c),
            pixel::channel(sp, c),
            pixel::channel(sp, 3),
        );
    }
    lemma_pixel(out, p, f);
}

/// Values of at most sixteen bits each keep to their own lane.
pub proof fn lemma_lane_pattern(a: u32, b: u32, c: u32, d: u32)
    requires
        a <= 0xffff,
        b <= 0xffff,
        c <= 0xffff,
        d <= 0xffff,
    ensures
        vector::pattern_lane(pixel::lane_pattern(a, b, c, d), 0) == a,
        vector::pattern_lane(pixel::lane_pattern(a, b, c, d), 1) == b,
        vector::pattern_lane(pixel::lane_pattern(a, b, c, d), 2) == c,
        vector::pattern_lane(pixel::lane_pattern(a, b, c, d), 3) == d,
{
    let x = a as u64 | (b as u64) << 16 | (c as u64) << 32 | (d as u64) << 48;
    assert(x % 0x1_0000 == a && x / 0x1_0000 % 0x1_0000 == b && x / 0x1_0000_0000 % 0x1_0000 == c
        && x / 0x1_0000_0000_0000 == d) by (bit_vector)
        requires
            x == a as u64 | (b as u64) << 16 | (c as u64) << 32 | (d as u64) << 48,
            a <= 0xffff,
            b <= 0xffff,
            c <= 0xffff,
            d <= 0xffff,
    ;
}

/// With channel values for arguments the lanes of a solid fill hold the exact
/// pixel.
pub proof fn lemma_solid_lanes(d: u32, c: u8, r: u8, g: u8, b: u8, a: u8)
    ensures
        pixel::lane_solid_pixel(d, c, r as u32, g as u32, b as u32, a as u32)
            == pixel::solid_pixel(d, c, r, g, b, a),
{
    let x = pixel::lane_pattern(r as u32, g as u32, b as u32, 255);
    let ca = lane::lane_div255(lane::wrap16(c * lane::wrap16(a as int)));
    lane::lemma_div255_of_product(c as int, a as int);
    let ca8 = lane::div255(c * a) as u8;
    assert(ca == ca8);
    let s = pixel::premultiplied(r, g, b, ca8);
    let fs = |k: int|
        if k == 0 {
            lane::div255(r * ca8) as u8
        } else if k == 1 {
            lane::div255(g * ca8) as u8
        } else if k == 2 {
            lane::div255(b * ca8) as u8
        } else {
            ca8
        };
    lemma_channels_of_pixel(fs);
    assert(s == pixel::pixel_of(fs));
    lemma_lane_pattern(r as u32, g as u32, b as u32, 255);
    let f = |k: int|
        pixel::lane_over_byte(
            pixel::channel(d, k),
            lane::lane_div255(lane::wrap16(vector::pattern_lane(x, k) * ca)),
            lane::wrap16(255 - ca),
        );
    let g2 = |k: int|
        lane::over(
            pixel::channel(d, k) as int,
            pixel::channel(s, k) as int,
            255 - pixel::channel(s, 3),
        ) as u8;
    assert(pixel::channel(s, 0) == fs(0) && pixel::channel(s, 1) == fs(1) && pixel::channel(s, 2)
        == fs(2) && pixel::channel(s, 3) == ca8);
    lemma_solid_channel(pixel::channel(d, 0), r, ca8);
    lemma_solid_channel(pixel::channel(d, 1), g, ca8);
    lemma_solid_channel(pixel::channel(d, 2), b, ca8);
    lemma_solid_channel(pixel::channel(d, 3), 255, ca8);
    crate::laws::div255_of_full(ca8 as int);
    assert(f(0) == g2(0));
    assert(f(1) == g2(1));
    assert(f(2) == g2(2));
    assert(f(3) == g2(3));
}

/// One channel of a solid fill.
proof fn lemma_solid_channel(d: u8, s: u8, ca: u8)
    ensures
        pixel::lane_over_byte(
            d,
            lane::lane_div255(lane::wrap16(s as u16 * ca as u16)),
            lane::wrap16(255 - ca as u16),
        ) == lane::over(d as int, lane::div255(s * ca), 255 - ca) as u8,
        0 <= lane::div255(s * ca) <= 255,
{
    lane::lemma_div255_of_product(s as int, ca as int);
    lane::lemma_over_byte_of_channels(d, lane::div255(s * ca) as u8, ca);
}

/// With channel values for arguments the lanes of a uniform fill hold the
/// exact pixel.
pub proof fn lemma_uniform_lanes(d: u32, ca: u8, r: u8, g: u8, b: u8)
    ensures
        pixel::lane_uniform_pixel(d, ca as u32, r as u32, g as u32, b as u32)
            == pixel::over_pixel(d, pixel::rgba(r, g, b, ca)),
{
    let x = pixel::lane_pattern(r as u32, g as u32, b as u32, ca as u32);
    let s = pixel::rgba(r, g, b, ca);
    let fs = |k: int|
        if k == 0 {
            r
        } else if k == 1 {
            g
        } else if k == 2 {
            b
        } else {
            ca
        };
    lemma_channels_of_pixel(fs);
    assert(s == pixel::pixel_of(fs));
    lemma_lane_pattern(r as u32, g as u32, b as u32, ca as u32);
    let f = |k: int|
        pixel::lane_over_byte(
            pixel::channel(d, k),
            vector::pattern_lane(x, k),
            lane::wrap16(255 - ca as u32),
        );
    let g2 = |k: int|
        lane::over(
            pixel::channel(d, k) as int,
            pixel::channel(s, k) as int,
            255 - pixel::channel(s, 3),
        ) as u8;
    assert(pixel::channel(s, 0) == r && pixel::channel(s, 1) == g && pixel::channel(s, 2) == b
        && pixel::channel(s, 3) == ca) by {
        assert(fs(0) == r && fs(1) == g && fs(2) == b && fs(3) == ca);
    }
    lane::lemma_over_byte_of_channels(pixel::channel(d, 0), r, ca);
    lane::lemma_over_byte_of_channels(pixel::channel(d, 1), g, ca);
    lane::lemma_over_byte_of_channels(pixel::channel(d, 2), b, ca);
    lane::lemma_over_byte_of_channels(pixel::channel(d, 3), ca, ca);
    assert(f(0) == g2(0));
    assert(f(1) == g2(1));
    assert(f(2) == g2(2));
    assert(f(3) == g2(3));
}

/// With an opacity of one byte the lanes of a composition hold the exact
/// pixel.
pub proof fn lemma_composite_lanes(d: u32, s: u32, k: u8)
    ensures
        pixel::lane_composite_pixel(d, s, k as u32) == pixel::composite_pixel(d, s, k),
{
    let t = pixel::scaled_pixel(s, k);
    let fs = |c: int| lane::div255(pixel::channel(s, c) * k) as u8;
    lemma_channels_of_pixel(fs);
    assert(t == pixel::pixel_of(fs));
    let kq = lane::wrap16(k as int);
    let f = |c: int|
        pixel::lane_over_byte(
            pixel::channel(d, c),
            lane::lane_div255(lane::wrap16(pixel::channel(s, c) * kq)),
            lane::wrap16(255 - lane::lane_div255(lane::wrap16(pixel::channel(s, 3) * kq))),
        );
    let g = |c: int|
        lane::over(
            pixel::channel(d, c) as int,
            pixel::channel(t, c) as int,
            255 - pixel::channel(t, 3),
        ) as u8;
    lane::lemma_div255_of_product(pixel::channel(s, 3) as int, k as int);
    let a = fs(3);
    assert(pixel::channel(t, 3) == a);
    assert forall|c: int| 0 <= c < 4 implies #[trigger] f(c) == g(c) by {
        lane::lemma_div255_of_product(pixel::channel(s, c) as int, k as int);
        assert(pixel::channel(t, c) == fs(c));
        lane::lemma_over_byte_of_channels(pixel::channel(d, c), fs(c), a);
    }
    assert(f(0) == g(0));
    assert(f(1) == g(1));
    assert(f(2) == g(2));
    assert(f(3) == g(3));
}

/// Clearing bit 31 of a word that two lanes hold.
pub proof fn lemma_clear_sign(v: Seq<u16>, r: Seq<u16>, p: int)
    requires
        is_register(v),
        r == vector::bitclr_w(v, 31),
        0 <= p && 2 * p < v.len(),
    ensures
        vector::word(r, p) == vector::word(v, p) & 0x7fff_ffff,
{
    let (a, b) = (v[2 * p], v[2 * p + 1]);
    let w = vector::word(v, p);
    assert(r[2 * p] == a);
    assert(r[2 * p + 1] == b & !(1u16 << 15));
    let c = b & !(1u16 << 15);
    assert(w & 0x7fff_ffff == a + 0x1_0000 * c) by (bit_vector)
        requires
            w == a + 0x1_0000 * b,
            c == b & !(1u16 << 15),
    ;
}

/// Lanes that are not valid become the sentinel, the others stay.
pub proof fn lemma_indices(idx: Seq<u16>, valid: Seq<u16>, r: Seq<u16>, p: int)
    requires
        is_register(idx),
        valid.len() == idx.len(),
        r == vector::orn_v(idx, valid),
        0 <= p && 2 * p < idx.len(),
    ensures
        vector::word(r, p) == vector::word(idx, p) | !vector::word(valid, p),
        vector::word(valid, p) == u32::MAX ==> vector::word(r, p) == vector::word(idx, p),
        vector::word(valid, p) == 0 ==> vector::word(r, p) == u32::MAX,
{
    let (a, b) = (idx[2 * p], idx[2 * p + 1]);
    let (c, d) = (valid[2 * p], valid[2 * p + 1]);
    let (x, y) = (vector::word(idx, p), vector::word(valid, p));
    let (e, f) = (a | !c, b | !d);
    assert(r[2 * p] == e);
    assert(r[2 * p + 1] == f);
    assert(x | !y == e + 0x1_0000 * f) by (bit_vector)
        requires
            x == a + 0x1_0000 * b,
            y == c + 0x1_0000 * d,
            e == a | !c,
            f == b | !d,
    ;
    assert(y == u32::MAX ==> x | !y == x) by (bit_vector);
    assert(y == 0 ==> x | !y == u32::MAX) by (bit_vector);
}

/// With channel values for arguments a solid fill holds the exact pixels.
pub proof fn lemma_solid_row(
    old: Seq<u32>,
    cov: Seq<u8>,
    n: int,
    sr: u32,
    sg: u32,
    sb: u32,
    sa: u32,
)
    requires
        sr <= 255 && sg <= 255 && sb <= 255 && sa <= 255,
    ensures
        pixel::written(
            old,
            n,
            |i: int| pixel::lane_solid_pixel(old[i], cov[i], sr, sg, sb, sa),
        ) == pixel::written(
            old,
            n,
            |i: int|
                pixel::solid_pixel(old[i], cov[i], sr as u8, sg as u8, sb as u8, sa as u8),
        ),
{
    let f = |i: int| pixel::lane_solid_pixel(old[i], cov[i], sr, sg, sb, sa);
    let g = |i: int| pixel::solid_pixel(old[i], cov[i], sr as u8, sg as u8, sb as u8, sa as u8);
    assert forall|i: int| #[trigger] f(i) == g(i) by {
        lemma_solid_lanes(old[i], cov[i], sr as u8, sg as u8, sb as u8, sa as u8);
    }
    lemma_same_row(old, n, f, g);
}

/// With channel values for arguments a uniform fill holds the exact pixels.
pub proof fn lemma_uniform_row(old: Seq<u32>, n: int, ca: u32, s_r: u32, s_g: u32, s_b: u32)
    requires
        ca <= 255 && s_r <= 255 && s_g <= 255 && s_b <= 255,
    ensures
        pixel::written(
            old,
            n,
            |i: int| pixel::lane_uniform_pixel(old[i], ca, s_r, s_g, s_b),
        ) == pixel::written(
            old,
            n,
            |i: int|
                pixel::over_pixel(
                    old[i],
                    pixel::rgba(s_r as u8, s_g as u8, s_b as u8, ca as u8),
                ),
        ),
{
    let f = |i: int| pixel::lane_uniform_pixel(old[i], ca, s_r, s_g, s_b);
    let g = |i: int|
        pixel::over_pixel(old[i], pixel::rgba(s_r as u8, s_g as u8, s_b as u8, ca as u8));
    assert forall|i: int| #[trigger] f(i) == g(i) by {
        lemma_uniform_lanes(old[i], ca as u8, s_r as u8, s_g as u8, s_b as u8);
    }
    lemma_same_row(old, n, f, g);
}

/// With an opacity of one byte a composition holds the exact pixels.
pub proof fn lemma_composite_row(old: Seq<u32>, src: Seq<u32>, n: int, k: u32)
    requires
        k <= 255,
    ensures
        pixel::written(old, n, |i: int| pixel::lane_composite_pixel(old[i], src[i], k))
            == pixel::written(old, n, |i: int| pixel::composite_pixel(old[i], src[i], k as u8)),
{
    let f = |i: int| pixel::lane_composite_pixel(old[i], src[i], k);
    let g = |i: int| pixel::composite_pixel(old[i], src[i], k as u8);
    assert forall|i: int| #[trigger] f(i) == g(i) by {
        lemma_composite_lanes(old[i], src[i], k as u8);
    }
    lemma_same_row(old, n, f, g);
}

/// Rows written from the same values are the same.
proof fn lemma_same_row<T>(old: Seq<T>, n: int, f: spec_fn(int) -> T, g: spec_fn(int) -> T)
    requires
        forall|i: int| #[trigger] f(i) == g(i),
    ensures
        pixel::written(old, n, f) == pixel::written(old, n, g),
{
    assert(pixel::written(old, n, f) =~= pixel::written(old, n, g));
}

} // verus!
