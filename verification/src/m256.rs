//! The 256-bit register and the LASX operations on it.
//!
//! Every operation here acts on the two 128-bit lanes of a register
//! separately.

use vstd::prelude::*;

use crate::m128;
use crate::m128::M128i;
use crate::vector;

verus! {

/// A 256-bit register: two 128-bit lanes, least significant lane first.
#[derive(Clone, Copy, Debug)]
pub struct M256i {
    pub low: M128i,
    pub high: M128i,
}

impl View for M256i {
    type V = Seq<u16>;

    open spec fn view(&self) -> Seq<u16> {
        self.low@ + self.high@
    }
}

impl M256i {
    /// The register with these eight 32-bit words.
    pub fn from_words(w: [u32; 8]) -> (r: M256i)
        ensures
            forall|p: int| 0 <= p < 8 ==> #[trigger] vector::word(r@, p) == w[p],
    {
        let r = M256i {
            low: M128i::from_words([w[0], w[1], w[2], w[3]]),
            high: M128i::from_words([w[4], w[5], w[6], w[7]]),
        };
        assert forall|p: int| 0 <= p < 8 implies #[trigger] vector::word(r@, p) == w[p] by {
            lemma_words(r, p);
        }
        r
    }

    /// The 32-bit word `p` of the register.
    pub fn word(&self, p: usize) -> (r: u32)
        requires
            p < 8,
        ensures
            r == vector::word(self@, p as int),
    {
        proof {
            lemma_words(*self, p as int);
        }
        if p < 4 {
            self.low.word(p)
        } else {
            self.high.word(p - 4)
        }
    }
}

/// A byte of a register is a byte of one of its 128-bit lanes.
proof fn lemma_bytes(v: M256i, j: int)
    requires
        0 <= j < 32,
    ensures
        vector::byte(v@, j) == (if j < 16 {
            vector::byte(v.low@, j)
        } else {
            vector::byte(v.high@, j - 16)
        }),
{
    reveal(vector::byte);
    assert((j - 16) / 2 == j / 2 - 8);
    assert((j - 16) % 2 == j % 2);
}

/// A 32-bit word of a register is a word of one of its 128-bit lanes.
proof fn lemma_words(v: M256i, p: int)
    requires
        0 <= p < 8,
    ensures
        vector::word(v@, p) == (if p < 4 {
            vector::word(v.low@, p)
        } else {
            vector::word(v.high@, p - 4)
        }),
{
}

/// A register of zeros.
pub fn lasx_xvldi_zero() -> (r: M256i)
    ensures
        r@ == vector::splat(16, 0),
{
    M256i { low: m128::lsx_vldi_zero(), high: m128::lsx_vldi_zero() }
}

/// `xvreplgr2vr.h` and `xvrepli.h`: one lane in all sixteen places.
pub fn lasx_xvreplgr2vr_h(x: u16) -> (r: M256i)
    ensures
        r@ == vector::splat(16, x),
{
    M256i { low: m128::lsx_vreplgr2vr_h(x), high: m128::lsx_vreplgr2vr_h(x) }
}

/// `xvreplgr2vr.b`: one byte in all places.
pub fn lasx_xvreplgr2vr_b(x: u8) -> (r: M256i)
    ensures
        r@ == vector::splat(16, vector::join(x, x)),
{
    M256i { low: m128::lsx_vreplgr2vr_b(x), high: m128::lsx_vreplgr2vr_b(x) }
}

/// `xvreplgr2vr.w`: one 32-bit word in all eight places.
pub fn lasx_xvreplgr2vr_w(x: u32) -> (r: M256i)
    ensures
        r@ == vector::splat_w(16, x),
{
    M256i { low: m128::lsx_vreplgr2vr_w(x), high: m128::lsx_vreplgr2vr_w(x) }
}

/// `xvreplgr2vr.d`: one 64-bit pattern in all four places.
pub fn lasx_xvreplgr2vr_d(x: u64) -> (r: M256i)
    ensures
        r@ == vector::splat_d(16, x),
{
    M256i { low: m128::lsx_vreplgr2vr_d(x), high: m128::lsx_vreplgr2vr_d(x) }
}

/// `xvinsgr2vr.w`: replaces the 32-bit word `p`.
pub fn lasx_xvinsgr2vr_w(a: M256i, x: u32, p: usize) -> (r: M256i)
    requires
        p < 8,
    ensures
        r@ == a@.update(2 * p as int, (x % 0x1_0000) as u16).update(2 * p + 1, (x / 0x1_0000) as u16),
{
    let mut r = a;
    if p < 4 {
        r.low.h[2 * p] = (x % 0x1_0000) as u16;
        r.low.h[2 * p + 1] = (x / 0x1_0000) as u16;
    } else {
        r.high.h[2 * (p - 4)] = (x % 0x1_0000) as u16;
        r.high.h[2 * (p - 4) + 1] = (x / 0x1_0000) as u16;
    }
    r
}

/// `xvadd.h`.
pub fn lasx_xvadd_h(a: M256i, b: M256i) -> (r: M256i)
    ensures
        r@ == vector::add_h(a@, b@),
{
    M256i { low: m128::lsx_vadd_h(a.low, b.low), high: m128::lsx_vadd_h(a.high, b.high) }
}

/// `xvsub.h`.
pub fn lasx_xvsub_h(a: M256i, b: M256i) -> (r: M256i)
    ensures
        r@ == vector::sub_h(a@, b@),
{
    M256i { low: m128::lsx_vsub_h(a.low, b.low), high: m128::lsx_vsub_h(a.high, b.high) }
}

/// `xvmul.h`.
pub fn lasx_xvmul_h(a: M256i, b: M256i) -> (r: M256i)
    ensures
        r@ == vector::mul_h(a@, b@),
{
    M256i { low: m128::lsx_vmul_h(a.low, b.low), high: m128::lsx_vmul_h(a.high, b.high) }
}

/// `xvmuh.hu`.
pub fn lasx_xvmuh_hu(a: M256i, b: M256i) -> (r: M256i)
    ensures
        r@ == vector::muh_hu(a@, b@),
{
    M256i { low: m128::lsx_vmuh_hu(a.low, b.low), high: m128::lsx_vmuh_hu(a.high, b.high) }
}

/// `xvmin.h`.
pub fn lasx_xvmin_h(a: M256i, b: M256i) -> (r: M256i)
    ensures
        r@ == vector::min_h(a@, b@),
{
    M256i { low: m128::lsx_vmin_h(a.low, b.low), high: m128::lsx_vmin_h(a.high, b.high) }
}

/// `xvmax.h`.
pub fn lasx_xvmax_h(a: M256i, b: M256i) -> (r: M256i)
    ensures
        r@ == vector::max_h(a@, b@),
{
    M256i { low: m128::lsx_vmax_h(a.low, b.low), high: m128::lsx_vmax_h(a.high, b.high) }
}

/// `xvseq.h`.
pub fn lasx_xvseq_h(a: M256i, b: M256i) -> (r: M256i)
    ensures
        r@ == vector::seq_h(a@, b@),
{
    M256i { low: m128::lsx_vseq_h(a.low, b.low), high: m128::lsx_vseq_h(a.high, b.high) }
}

/// `xvxor.v`.
pub fn lasx_xvxor_v(a: M256i, b: M256i) -> (r: M256i)
    ensures
        r@ == vector::xor_v(a@, b@),
{
    M256i { low: m128::lsx_vxor_v(a.low, b.low), high: m128::lsx_vxor_v(a.high, b.high) }
}

/// `xvorn.v`.
pub fn lasx_xvorn_v(a: M256i, b: M256i) -> (r: M256i)
    ensures
        r@ == vector::orn_v(a@, b@),
{
    M256i { low: m128::lsx_vorn_v(a.low, b.low), high: m128::lsx_vorn_v(a.high, b.high) }
}

/// `xvilvl.b`.
pub fn lasx_xvilvl_b(a: M256i, b: M256i) -> (r: M256i)
    ensures
        r@ == vector::ilvl_b(a@, b@),
{
    proof {
        reveal(vector::byte);
    }
    M256i { low: m128::lsx_vilvl_b(a.low, b.low), high: m128::lsx_vilvl_b(a.high, b.high) }
}

/// `xvilvh.b`.
pub fn lasx_xvilvh_b(a: M256i, b: M256i) -> (r: M256i)
    ensures
        r@ == vector::ilvh_b(a@, b@),
{
    proof {
        reveal(vector::byte);
    }
    M256i { low: m128::lsx_vilvh_b(a.low, b.low), high: m128::lsx_vilvh_b(a.high, b.high) }
}

/// `xvilvl.h`.
pub fn lasx_xvilvl_h(a: M256i, b: M256i) -> (r: M256i)
    ensures
        r@ == vector::ilvl_h(a@, b@),
{
    M256i { low: m128::lsx_vilvl_h(a.low, b.low), high: m128::lsx_vilvl_h(a.high, b.high) }
}

/// `xvpickev.b`.
pub fn lasx_xvpickev_b(a: M256i, b: M256i) -> (r: M256i)
    ensures
        r@ == vector::pickev_b(a@, b@),
{
    M256i { low: m128::lsx_vpickev_b(a.low, b.low), high: m128::lsx_vpickev_b(a.high, b.high) }
}

/// `xvsrli.h`.
pub fn lasx_xvsrli_h(a: M256i, n: u32) -> (r: M256i)
    requires
        n < 16,
    ensures
        r@ == vector::srl_h(a@, n),
{
    M256i { low: m128::lsx_vsrli_h(a.low, n), high: m128::lsx_vsrli_h(a.high, n) }
}

/// `xvshuf4i.h`.
pub fn lasx_xvshuf4i_h(a: M256i, pattern: u8) -> (r: M256i)
    ensures
        r@ == vector::shuf4i_h(a@, pattern),
{
    M256i { low: m128::lsx_vshuf4i_h(a.low, pattern), high: m128::lsx_vshuf4i_h(a.high, pattern) }
}

/// `xvbitclri.w`.
pub fn lasx_xvbitclri_w(a: M256i, n: u32) -> (r: M256i)
    requires
        n < 32,
    ensures
        r@ == vector::bitclr_w(a@, n),
{
    M256i { low: m128::lsx_vbitclri_w(a.low, n), high: m128::lsx_vbitclri_w(a.high, n) }
}

/// `xbnz.h`: 1 when no lane is zero, 0 otherwise.
pub fn lasx_xbnz_h(a: M256i) -> (r: i32)
    ensures
        r == 1 || r == 0,
        r == 1 <==> forall|i: int| 0 <= i < 16 ==> #[trigger] a@[i] != 0,
{
    if m128::lsx_bnz_h(a.low) == 1 && m128::lsx_bnz_h(a.high) == 1 {
        1
    } else {
        assert(forall|i: int| 0 <= i < 8 ==> #[trigger] a.low@[i] == a@[i]);
        assert(forall|i: int| 0 <= i < 8 ==> #[trigger] a.high@[i] == a@[8 + i]);
        0
    }
}

/// `xbz.v`: 1 when all bits are zero, 0 otherwise.
pub fn lasx_xbz_v(a: M256i) -> (r: i32)
    ensures
        r == 1 || r == 0,
        r == 1 <==> forall|i: int| 0 <= i < 16 ==> #[trigger] a@[i] == 0,
{
    if m128::lsx_bz_v(a.low) == 1 && m128::lsx_bz_v(a.high) == 1 {
        1
    } else {
        assert(forall|i: int| 0 <= i < 8 ==> #[trigger] a.low@[i] == a@[i]);
        assert(forall|i: int| 0 <= i < 8 ==> #[trigger] a.high@[i] == a@[8 + i]);
        0
    }
}

/// `xvld` from bytes: the 32 bytes from index `at` on.
pub fn lasx_xvld_bytes(bytes: &[u8], at: usize) -> (r: M256i)
    requires
        at + 32 <= bytes.len(),
    ensures
        forall|j: int| 0 <= j < 32 ==> #[trigger] vector::byte(r@, j) == bytes[at + j],
{
    let r = M256i { low: m128::lsx_vld_bytes(bytes, at), high: m128::lsx_vld_bytes(bytes, at + 16) };
    assert forall|j: int| 0 <= j < 32 implies #[trigger] vector::byte(r@, j) == bytes[at + j] by {
        lemma_bytes(r, j);
    }
    r
}

/// `xvld` from 32-bit words: the eight words from index `at` on.
pub fn lasx_xvld_words(words: &[u32], at: usize) -> (r: M256i)
    requires
        at + 8 <= words.len(),
    ensures
        forall|p: int| 0 <= p < 8 ==> #[trigger] vector::word(r@, p) == words[at + p],
{
    let r = M256i { low: m128::lsx_vld_words(words, at), high: m128::lsx_vld_words(words, at + 4) };
    assert forall|p: int| 0 <= p < 8 implies #[trigger] vector::word(r@, p) == words[at + p] by {
        lemma_words(r, p);
    }
    r
}

/// `xvst` to bytes: overwrites the 32 bytes from index `at` on.
pub fn lasx_xvst_bytes(v: M256i, bytes: &mut [u8], at: usize)
    requires
        at + 32 <= old(bytes).len(),
    ensures
        final(bytes)@ == vector::stored_bytes(old(bytes)@, at as int, v@),
{
    m128::lsx_vst_bytes(v.low, bytes, at);
    m128::lsx_vst_bytes(v.high, bytes, at + 16);
    assert forall|k: int| at <= k < at + 32 implies bytes[k] == #[trigger] vector::byte(v@, k - at) by {
        lemma_bytes(v, k - at);
    }
}

/// `xvst` to 32-bit words: overwrites the eight words from index `at` on.
pub fn lasx_xvst_words(v: M256i, words: &mut [u32], at: usize)
    requires
        at + 8 <= old(words).len(),
    ensures
        final(words)@ == vector::stored_words(old(words)@, at as int, v@),
{
    m128::lsx_vst_words(v.low, words, at);
    m128::lsx_vst_words(v.high, words, at + 4);
    assert forall|k: int| at <= k < at + 8 implies words[k] == #[trigger] vector::word(v@, k - at) by {
        lemma_words(v, k - at);
    }
}

} // verus!
