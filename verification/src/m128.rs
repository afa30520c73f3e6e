//! The 128-bit register and the LSX operations on it.

use vstd::prelude::*;

use crate::chunk;
use crate::lane::{add_lane, max_lane, min_lane, muh_lane, mul_lane, sub_lane};
use crate::pixel;
use crate::vector;

verus! {

/// A 128-bit register: eight 16-bit lanes, least significant lane first.
#[derive(Clone, Copy, Debug)]
pub struct M128i {
    pub h: [u16; 8],
}

impl View for M128i {
    type V = Seq<u16>;

    open spec fn view(&self) -> Seq<u16> {
        self.h@
    }
}

impl M128i {
    /// The register with these four 32-bit words.
    pub fn from_words(w: [u32; 4]) -> (r: M128i)
        ensures
            forall|p: int| 0 <= p < 4 ==> #[trigger] vector::word(r@, p) == w[p],
    {
        let r = M128i {
            h: [
                (w[0] % 0x1_0000) as u16,
                (w[0] / 0x1_0000) as u16,
                (w[1] % 0x1_0000) as u16,
                (w[1] / 0x1_0000) as u16,
                (w[2] % 0x1_0000) as u16,
                (w[2] / 0x1_0000) as u16,
                (w[3] % 0x1_0000) as u16,
                (w[3] / 0x1_0000) as u16,
            ],
        };
        r
    }

    /// Byte `j` of the register.
    pub fn byte(&self, j: usize) -> (r: u8)
        requires
            j < 16,
        ensures
            r == vector::byte(self@, j as int),
    {
        proof {
            reveal(vector::byte);
        }
        if j % 2 == 0 {
            (self.h[j / 2] % 256) as u8
        } else {
            (self.h[j / 2] / 256) as u8
        }
    }

    /// The 32-bit word `p` of the register.
    pub fn word(&self, p: usize) -> (r: u32)
        requires
            p < 4,
        ensures
            r == vector::word(self@, p as int),
    {
        self.h[2 * p] as u32 + 0x1_0000 * (self.h[2 * p + 1] as u32)
    }
}

/// The lane with these two bytes, low one first.
fn join(low: u8, high: u8) -> (r: u16)
    ensures
        r == vector::join(low, high),
{
    low as u16 + 256 * (high as u16)
}

/// All bits set where the lanes are equal, none where they differ.
fn equal_lane(a: u16, b: u16) -> (r: u16)
    ensures
        r == (if a == b { 0xffffu16 } else { 0u16 }),
{
    if a == b {
        0xffff
    } else {
        0
    }
}

/// A register of zeros.
pub fn lsx_vldi_zero() -> (r: M128i)
    ensures
        r@ == vector::splat(8, 0),
{
    M128i { h: [0, 0, 0, 0, 0, 0, 0, 0] }
}

/// `vreplgr2vr.h` and `vrepli.h`: one lane in all eight places.
pub fn lsx_vreplgr2vr_h(x: u16) -> (r: M128i)
    ensures
        r@ == vector::splat(8, x),
{
    M128i { h: [x, x, x, x, x, x, x, x] }
}

/// `vreplgr2vr.b`: one byte in all sixteen places.
pub fn lsx_vreplgr2vr_b(x: u8) -> (r: M128i)
    ensures
        r@ == vector::splat(8, vector::join(x, x)),
{
    lsx_vreplgr2vr_h(join(x, x))
}

/// `vreplgr2vr.w`: one 32-bit word in all four places.
pub fn lsx_vreplgr2vr_w(x: u32) -> (r: M128i)
    ensures
        r@ == vector::splat_w(8, x),
{
    let l: u16 = (x % 0x1_0000) as u16;
    let u: u16 = (x / 0x1_0000) as u16;
    M128i { h: [l, u, l, u, l, u, l, u] }
}

/// `vreplgr2vr.d`: one 64-bit pattern in both places.
pub fn lsx_vreplgr2vr_d(x: u64) -> (r: M128i)
    ensures
        r@ == vector::splat_d(8, x),
{
    let a: u16 = (x % 0x1_0000) as u16;
    let b: u16 = (x / 0x1_0000 % 0x1_0000) as u16;
    let c: u16 = (x / 0x1_0000_0000 % 0x1_0000) as u16;
    let d: u16 = (x / 0x1_0000_0000_0000) as u16;
    M128i { h: [a, b, c, d, a, b, c, d] }
}

/// `vadd.h`.
pub fn lsx_vadd_h(a: M128i, b: M128i) -> (r: M128i)
    ensures
        r@ == vector::add_h(a@, b@),
{
    M128i {
        h: [
            add_lane(a.h[0], b.h[0]),
            add_lane(a.h[1], b.h[1]),
            add_lane(a.h[2], b.h[2]),
            add_lane(a.h[3], b.h[3]),
            add_lane(a.h[4], b.h[4]),
            add_lane(a.h[5], b.h[5]),
            add_lane(a.h[6], b.h[6]),
            add_lane(a.h[7], b.h[7]),
        ],
    }
}

/// `vilvl.b`.
pub fn lsx_vilvl_b(a: M128i, b: M128i) -> (r: M128i)
    ensures
        r@ == vector::ilvl_b(a@, b@),
{
    M128i {
        h: [
            join(b.byte(0), a.byte(0)),
            join(b.byte(1), a.byte(1)),
            join(b.byte(2), a.byte(2)),
            join(b.byte(3), a.byte(3)),
            join(b.byte(4), a.byte(4)),
            join(b.byte(5), a.byte(5)),
            join(b.byte(6), a.byte(6)),
            join(b.byte(7), a.byte(7)),
        ],
    }
}

/// `vpickev.b`.
pub fn lsx_vpickev_b(a: M128i, b: M128i) -> (r: M128i)
    ensures
        r@ == vector::pickev_b(a@, b@),
{
    proof {
        reveal(vector::byte);
    }
    M128i {
        h: [
            join(b.byte(0), b.byte(2)),
            join(b.byte(4), b.byte(6)),
            join(b.byte(8), b.byte(10)),
            join(b.byte(12), b.byte(14)),
            join(a.byte(0), a.byte(2)),
            join(a.byte(4), a.byte(6)),
            join(a.byte(8), a.byte(10)),
            join(a.byte(12), a.byte(14)),
        ],
    }
}

/// `vsub.h`.
pub fn lsx_vsub_h(a: M128i, b: M128i) -> (r: M128i)
    ensures
        r@ == vector::sub_h(a@, b@),
{
    M128i {
        h: [
            sub_lane(a.h[0], b.h[0]),
            sub_lane(a.h[1], b.h[1]),
            sub_lane(a.h[2], b.h[2]),
            sub_lane(a.h[3], b.h[3]),
            sub_lane(a.h[4], b.h[4]),
            sub_lane(a.h[5], b.h[5]),
            sub_lane(a.h[6], b.h[6]),
            sub_lane(a.h[7], b.h[7]),
        ],
    }
}

/// `vmul.h`.
pub fn lsx_vmul_h(a: M128i, b: M128i) -> (r: M128i)
    ensures
        r@ == vector::mul_h(a@, b@),
{
    M128i {
        h: [
            mul_lane(a.h[0], b.h[0]),
            mul_lane(a.h[1], b.h[1]),
            mul_lane(a.h[2], b.h[2]),
            mul_lane(a.h[3], b.h[3]),
            mul_lane(a.h[4], b.h[4]),
            mul_lane(a.h[5], b.h[5]),
            mul_lane(a.h[6], b.h[6]),
            mul_lane(a.h[7], b.h[7]),
        ],
    }
}

/// `vmuh.hu`.
pub fn lsx_vmuh_hu(a: M128i, b: M128i) -> (r: M128i)
    ensures
        r@ == vector::muh_hu(a@, b@),
{
    M128i {
        h: [
            muh_lane(a.h[0], b.h[0]),
            muh_lane(a.h[1], b.h[1]),
            muh_lane(a.h[2], b.h[2]),
            muh_lane(a.h[3], b.h[3]),
            muh_lane(a.h[4], b.h[4]),
            muh_lane(a.h[5], b.h[5]),
            muh_lane(a.h[6], b.h[6]),
            muh_lane(a.h[7], b.h[7]),
        ],
    }
}

/// `vmin.h`.
pub fn lsx_vmin_h(a: M128i, b: M128i) -> (r: M128i)
    ensures
        r@ == vector::min_h(a@, b@),
{
    M128i {
        h: [
            min_lane(a.h[0], b.h[0]),
            min_lane(a.h[1], b.h[1]),
            min_lane(a.h[2], b.h[2]),
            min_lane(a.h[3], b.h[3]),
            min_lane(a.h[4], b.h[4]),
            min_lane(a.h[5], b.h[5]),
            min_lane(a.h[6], b.h[6]),
            min_lane(a.h[7], b.h[7]),
        ],
    }
}

/// `vmax.h`.
pub fn lsx_vmax_h(a: M128i, b: M128i) -> (r: M128i)
    ensures
        r@ == vector::max_h(a@, b@),
{
    M128i {
        h: [
            max_lane(a.h[0], b.h[0]),
            max_lane(a.h[1], b.h[1]),
            max_lane(a.h[2], b.h[2]),
            max_lane(a.h[3], b.h[3]),
            max_lane(a.h[4], b.h[4]),
            max_lane(a.h[5], b.h[5]),
            max_lane(a.h[6], b.h[6]),
            max_lane(a.h[7], b.h[7]),
        ],
    }
}

/// `vseq.h`.
pub fn lsx_vseq_h(a: M128i, b: M128i) -> (r: M128i)
    ensures
        r@ == vector::seq_h(a@, b@),
{
    M128i {
        h: [
            equal_lane(a.h[0], b.h[0]),
            equal_lane(a.h[1], b.h[1]),
            equal_lane(a.h[2], b.h[2]),
            equal_lane(a.h[3], b.h[3]),
            equal_lane(a.h[4], b.h[4]),
            equal_lane(a.h[5], b.h[5]),
            equal_lane(a.h[6], b.h[6]),
            equal_lane(a.h[7], b.h[7]),
        ],
    }
}

/// `vxor.v`.
pub fn lsx_vxor_v(a: M128i, b: M128i) -> (r: M128i)
    ensures
        r@ == vector::xor_v(a@, b@),
{
    M128i {
        h: [
            a.h[0] ^ b.h[0],
            a.h[1] ^ b.h[1],
            a.h[2] ^ b.h[2],
            a.h[3] ^ b.h[3],
            a.h[4] ^ b.h[4],
            a.h[5] ^ b.h[5],
            a.h[6] ^ b.h[6],
            a.h[7] ^ b.h[7],
        ],
    }
}

/// `vorn.v`.
pub fn lsx_vorn_v(a: M128i, b: M128i) -> (r: M128i)
    ensures
        r@ == vector::orn_v(a@, b@),
{
    M128i {
        h: [
            a.h[0] | !b.h[0],
            a.h[1] | !b.h[1],
            a.h[2] | !b.h[2],
            a.h[3] | !b.h[3],
            a.h[4] | !b.h[4],
            a.h[5] | !b.h[5],
            a.h[6] | !b.h[6],
            a.h[7] | !b.h[7],
        ],
    }
}

/// `vilvh.b`.
pub fn lsx_vilvh_b(a: M128i, b: M128i) -> (r: M128i)
    ensures
        r@ == vector::ilvh_b(a@, b@),
{
    M128i {
        h: [
            join(b.byte(8), a.byte(8)),
            join(b.byte(9), a.byte(9)),
            join(b.byte(10), a.byte(10)),
            join(b.byte(11), a.byte(11)),
            join(b.byte(12), a.byte(12)),
            join(b.byte(13), a.byte(13)),
            join(b.byte(14), a.byte(14)),
            join(b.byte(15), a.byte(15)),
        ],
    }
}

/// `vilvl.h`.
pub fn lsx_vilvl_h(a: M128i, b: M128i) -> (r: M128i)
    ensures
        r@ == vector::ilvl_h(a@, b@),
{
    M128i {
        h: [
            b.h[0],
            a.h[0],
            b.h[1],
            a.h[1],
            b.h[2],
            a.h[2],
            b.h[3],
            a.h[3],
        ],
    }
}

/// `vsrli.h`.
pub fn lsx_vsrli_h(a: M128i, n: u32) -> (r: M128i)
    requires
        n < 16,
    ensures
        r@ == vector::srl_h(a@, n),
{
    M128i {
        h: [
            a.h[0] >> n,
            a.h[1] >> n,
            a.h[2] >> n,
            a.h[3] >> n,
            a.h[4] >> n,
            a.h[5] >> n,
            a.h[6] >> n,
            a.h[7] >> n,
        ],
    }
}

/// `vshuf4i.h`.
pub fn lsx_vshuf4i_h(a: M128i, pattern: u8) -> (r: M128i)
    ensures
        r@ == vector::shuf4i_h(a@, pattern),
{
    let k0: usize = (pattern % 4) as usize;
    let k1: usize = (pattern / 4 % 4) as usize;
    let k2: usize = (pattern / 16 % 4) as usize;
    let k3: usize = (pattern / 64 % 4) as usize;
    let r = M128i {
        h: [a.h[k0], a.h[k1], a.h[k2], a.h[k3], a.h[4 + k0], a.h[4 + k1], a.h[4 + k2], a.h[4 + k3]],
    };
    proof {
        let s = vector::shuf4i_h(a@, pattern);
        assert(vector::shuffle_source(pattern as int, 0) == k0);
        assert(vector::shuffle_source(pattern as int, 1) == k1);
        assert(vector::shuffle_source(pattern as int, 2) == k2);
        assert(vector::shuffle_source(pattern as int, 3) == k3);
        assert(r@[0] == s[0] && r@[1] == s[1] && r@[2] == s[2] && r@[3] == s[3]);
        assert(r@[4] == s[4] && r@[5] == s[5] && r@[6] == s[6] && r@[7] == s[7]);
        assert(r@ =~= s);
    }
    r
}

/// `vbitclri.w`.
pub fn lsx_vbitclri_w(a: M128i, n: u32) -> (r: M128i)
    requires
        n < 32,
    ensures
        r@ == vector::bitclr_w(a@, n),
{
    let m: u16 = !(1u16 << (n % 16));
    if n < 16 {
        M128i { h: [a.h[0] & m, a.h[1], a.h[2] & m, a.h[3], a.h[4] & m, a.h[5], a.h[6] & m, a.h[7]] }
    } else {
        M128i { h: [a.h[0], a.h[1] & m, a.h[2], a.h[3] & m, a.h[4], a.h[5] & m, a.h[6], a.h[7] & m] }
    }
}

/// `bnz.h`: 1 when no lane is zero, 0 otherwise.
pub fn lsx_bnz_h(a: M128i) -> (r: i32)
    ensures
        r == 1 || r == 0,
        r == 1 <==> forall|i: int| 0 <= i < 8 ==> #[trigger] a@[i] != 0,
{
    let mut i: usize = 0;
    while i < 8
        invariant
            i <= 8,
            forall|k: int| 0 <= k < i ==> #[trigger] a@[k] != 0,
        decreases 8 - i,
    {
        if a.h[i] == 0 {
            assert(a@[i as int] == 0);
            return 0;
        }
        i += 1;
    }
    1
}

/// `bz.v`: 1 when all bits are zero, 0 otherwise.
pub fn lsx_bz_v(a: M128i) -> (r: i32)
    ensures
        r == 1 || r == 0,
        r == 1 <==> forall|i: int| 0 <= i < 8 ==> #[trigger] a@[i] == 0,
{
    let mut i: usize = 0;
    while i < 8
        invariant
            i <= 8,
            forall|k: int| 0 <= k < i ==> #[trigger] a@[k] == 0,
        decreases 8 - i,
    {
        if a.h[i] != 0 {
            assert(a@[i as int] != 0);
            return 0;
        }
        i += 1;
    }
    1
}

/// The word of the four bytes from index `at` on, low byte first.
pub fn le_word(bytes: &[u8], at: usize) -> (r: u32)
    requires
        at + 4 <= bytes.len(),
    ensures
        forall|q: int| 0 <= q < 4 ==> pixel::channel(r, q) == #[trigger] bytes[at + q],
{
    let low: u32 = bytes[at] as u32 + 256 * (bytes[at + 1] as u32);
    let high: u32 = bytes[at + 2] as u32 + 256 * (bytes[at + 3] as u32);
    let r: u32 = low + 0x1_0000 * high;
    proof {
        let f = |q: int| bytes@[at + q];
        assert(r == pixel::pixel_of(f));
        chunk::lemma_channels_of_pixel(f);
        assert forall|q: int| 0 <= q < 4 implies pixel::channel(r, q) == #[trigger] bytes[at + q] by {
            assert(pixel::channel(r, q) == f(q));
        }
    }
    r
}

/// `vld` from bytes: the sixteen bytes from index `at` on.
pub fn lsx_vld_bytes(bytes: &[u8], at: usize) -> (r: M128i)
    requires
        at + 16 <= bytes.len(),
    ensures
        forall|j: int| 0 <= j < 16 ==> #[trigger] vector::byte(r@, j) == bytes[at + j],
{
    let mut h: [u16; 8] = [0; 8];
    let mut i: usize = 0;
    while i < 8
        invariant
            i <= 8,
            at + 16 <= bytes.len(),
            forall|k: int|
                0 <= k < i ==> #[trigger] h[k] == vector::join(bytes[at + 2 * k], bytes[at + 2 * k + 1]),
        decreases 8 - i,
    {
        h[i] = join(bytes[at + 2 * i], bytes[at + 2 * i + 1]);
        i += 1;
    }
    let r = M128i { h };
    assert forall|j: int| 0 <= j < 16 implies #[trigger] vector::byte(r@, j) == bytes[at + j] by {
        reveal(vector::byte);
        assert(r@[j / 2] == h[j / 2]);
    }
    r
}

/// `vld` from 32-bit words: the four words from index `at` on.
pub fn lsx_vld_words(words: &[u32], at: usize) -> (r: M128i)
    requires
        at + 4 <= words.len(),
    ensures
        forall|p: int| 0 <= p < 4 ==> #[trigger] vector::word(r@, p) == words[at + p],
{
    M128i::from_words([words[at], words[at + 1], words[at + 2], words[at + 3]])
}

/// `vst` to bytes: overwrites the sixteen bytes from index `at` on.
pub fn lsx_vst_bytes(v: M128i, bytes: &mut [u8], at: usize)
    requires
        at + 16 <= old(bytes).len(),
    ensures
        final(bytes)@ == vector::stored_bytes(old(bytes)@, at as int, v@),
{
    let mut j: usize = 0;
    while j < 16
        invariant
            j <= 16,
            at + 16 <= bytes.len(),
            bytes.len() == old(bytes).len(),
            forall|k: int| 0 <= k < bytes.len() ==> #[trigger] bytes[k] == (if at <= k < at + j {
                vector::byte(v@, k - at)
            } else {
                old(bytes)[k]
            }),
        decreases 16 - j,
    {
        bytes[at + j] = v.byte(j);
        j += 1;
    }
}

/// `vst` to 32-bit words: overwrites the four words from index `at` on.
pub fn lsx_vst_words(v: M128i, words: &mut [u32], at: usize)
    requires
        at + 4 <= old(words).len(),
    ensures
        final(words)@ == vector::stored_words(old(words)@, at as int, v@),
{
    words[at] = v.word(0);
    words[at + 1] = v.word(1);
    words[at + 2] = v.word(2);
    words[at + 3] = v.word(3);
}

} // verus!
