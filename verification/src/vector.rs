//! Vector operations on sequences of 16-bit lanes.
//!
//! A register is a sequence of lanes, eight for every 128 bits, least
//! significant lane first. Operations that move lanes about stay within each
//! group of eight, so one definition serves both register widths.

use vstd::prelude::*;

use crate::lane;

verus! {

/// The lane with these two bytes, low one first.
pub open spec fn join(low: u8, high: u8) -> u16 {
    (low + 256 * high) as u16
}

/// Byte `j` of a register.
#[verifier::opaque]
pub open spec fn byte(v: Seq<u16>, j: int) -> u8 {
    if j % 2 == 0 {
        (v[j / 2] % 256) as u8
    } else {
        (v[j / 2] / 256) as u8
    }
}

/// The 32-bit word `p` of a register.
pub open spec fn word(v: Seq<u16>, p: int) -> u32 {
    (v[2 * p] + 0x1_0000 * v[2 * p + 1]) as u32
}

/// The byte that widening the low half of each group puts into lane `i`.
pub open spec fn low_byte(i: int) -> int {
    16 * (i / 8) + i % 8
}

/// `n` lanes that all hold `x`.
pub open spec fn splat(n: nat, x: u16) -> Seq<u16> {
    Seq::new(n, |i: int| x)
}

/// Lanewise sum modulo 2^16.
pub open spec fn add_h(a: Seq<u16>, b: Seq<u16>) -> Seq<u16> {
    Seq::new(a.len(), |i: int| lane::wrap16(a[i] + b[i]))
}

/// Lanewise difference modulo 2^16.
pub open spec fn sub_h(a: Seq<u16>, b: Seq<u16>) -> Seq<u16> {
    Seq::new(a.len(), |i: int| lane::wrap16(a[i] - b[i]))
}

/// Lanewise product modulo 2^16.
pub open spec fn mul_h(a: Seq<u16>, b: Seq<u16>) -> Seq<u16> {
    Seq::new(a.len(), |i: int| lane::wrap16(a[i] * b[i]))
}

/// High half of the lanewise unsigned product.
pub open spec fn muh_hu(a: Seq<u16>, b: Seq<u16>) -> Seq<u16> {
    Seq::new(a.len(), |i: int| (a[i] * b[i] / 0x1_0000) as u16)
}

/// Lanewise shift right by `n` bits.
pub open spec fn srl_h(a: Seq<u16>, n: u32) -> Seq<u16> {
    Seq::new(a.len(), |i: int| a[i] >> n)
}

/// Lanewise signed minimum.
pub open spec fn min_h(a: Seq<u16>, b: Seq<u16>) -> Seq<u16> {
    Seq::new(a.len(), |i: int| lane::min16(a[i], b[i]))
}

/// Lanewise signed maximum.
pub open spec fn max_h(a: Seq<u16>, b: Seq<u16>) -> Seq<u16> {
    Seq::new(a.len(), |i: int| lane::max16(a[i], b[i]))
}

/// All bits of a lane set where the lanes are equal, none where they differ.
pub open spec fn seq_h(a: Seq<u16>, b: Seq<u16>) -> Seq<u16> {
    Seq::new(a.len(), |i: int| if a[i] == b[i] { 0xffffu16 } else { 0u16 })
}

/// Bitwise exclusive or.
pub open spec fn xor_v(a: Seq<u16>, b: Seq<u16>) -> Seq<u16> {
    Seq::new(a.len(), |i: int| a[i] ^ b[i])
}

/// Bitwise or with the complement of `b`.
pub open spec fn orn_v(a: Seq<u16>, b: Seq<u16>) -> Seq<u16> {
    Seq::new(a.len(), |i: int| a[i] | !b[i])
}

/// Interleaves the low eight bytes of each group, those of `b` first.
pub open spec fn ilvl_b(a: Seq<u16>, b: Seq<u16>) -> Seq<u16> {
    Seq::new(a.len(), |i: int| join(byte(b, low_byte(i)), byte(a, low_byte(i))))
}

/// Interleaves the high eight bytes of each group, those of `b` first.
pub open spec fn ilvh_b(a: Seq<u16>, b: Seq<u16>) -> Seq<u16> {
    Seq::new(a.len(), |i: int| join(byte(b, low_byte(i) + 8), byte(a, low_byte(i) + 8)))
}

/// Interleaves the low four lanes of each group, those of `b` first.
pub open spec fn ilvl_h(a: Seq<u16>, b: Seq<u16>) -> Seq<u16> {
    Seq::new(
        a.len(),
        |i: int|
            if i % 2 == 0 {
                b[8 * (i / 8) + i % 8 / 2]
            } else {
                a[8 * (i / 8) + i % 8 / 2]
            },
    )
}

/// The low byte of every lane, in each group those of `b` first.
pub open spec fn pickev_b(a: Seq<u16>, b: Seq<u16>) -> Seq<u16> {
    Seq::new(
        a.len(),
        |i: int|
            if i % 8 < 4 {
                join((b[8 * (i / 8) + 2 * (i % 4)] % 256) as u8, (b[8 * (i / 8) + 2 * (i % 4) + 1] % 256) as u8)
            } else {
                join((a[8 * (i / 8) + 2 * (i % 4)] % 256) as u8, (a[8 * (i / 8) + 2 * (i % 4) + 1] % 256) as u8)
            },
    )
}

/// The source, within a group of four lanes, of lane `k` of a four-lane
/// shuffle: the `k`-th pair of bits of `pattern`.
pub open spec fn shuffle_source(pattern: int, k: int) -> int {
    if k == 0 {
        pattern % 4
    } else if k == 1 {
        pattern / 4 % 4
    } else if k == 2 {
        pattern / 16 % 4
    } else {
        pattern / 64 % 4
    }
}

/// Shuffles every group of four lanes by `pattern`.
pub open spec fn shuf4i_h(a: Seq<u16>, pattern: u8) -> Seq<u16> {
    Seq::new(a.len(), |i: int| a[4 * (i / 4) + shuffle_source(pattern as int, i % 4)])
}

/// Clears bit `n` of every 32-bit word.
pub open spec fn bitclr_w(a: Seq<u16>, n: u32) -> Seq<u16> {
    Seq::new(a.len(), |i: int| if i % 2 == n / 16 { a[i] & !(1u16 << (n % 16)) } else { a[i] })
}

/// `old` with the bytes of `v` written from index `at` on.
pub open spec fn stored_bytes(old: Seq<u8>, at: int, v: Seq<u16>) -> Seq<u8> {
    Seq::new(old.len(), |k: int| if at <= k < at + 2 * v.len() { byte(v, k - at) } else { old[k] })
}

/// `old` with the 32-bit words of `v` written from index `at` on.
pub open spec fn stored_words(old: Seq<u32>, at: int, v: Seq<u16>) -> Seq<u32> {
    Seq::new(
        old.len(),
        |k: int| if at <= k && 2 * (k - at) < v.len() { word(v, k - at) } else { old[k] },
    )
}

/// `n` lanes that repeat the two lanes of `x`.
pub open spec fn splat_w(n: nat, x: u32) -> Seq<u16> {
    Seq::new(n, |i: int| if i % 2 == 0 { (x % 0x1_0000) as u16 } else { (x / 0x1_0000) as u16 })
}

/// Lane `k` of a 64-bit pattern.
pub open spec fn pattern_lane(x: u64, k: int) -> u16 {
    if k == 0 {
        (x % 0x1_0000) as u16
    } else if k == 1 {
        (x / 0x1_0000 % 0x1_0000) as u16
    } else if k == 2 {
        (x / 0x1_0000_0000 % 0x1_0000) as u16
    } else {
        (x / 0x1_0000_0000_0000) as u16
    }
}

/// `n` lanes that repeat the four lanes of `x`.
pub open spec fn splat_d(n: nat, x: u64) -> Seq<u16> {
    Seq::new(n, |i: int| pattern_lane(x, i % 4))
}

/// Widens the low eight bytes of each group to lanes.
pub open spec fn lo(v: Seq<u16>) -> Seq<u16> {
    Seq::new(v.len(), |i: int| byte(v, low_byte(i)) as u16)
}

/// Widens the high eight bytes of each group to lanes.
pub open spec fn hi(v: Seq<u16>) -> Seq<u16> {
    Seq::new(v.len(), |i: int| byte(v, low_byte(i) + 8) as u16)
}

/// The low bytes of the lanes of `a` and `b`, in each group those of `a`
/// first.
pub open spec fn pack(a: Seq<u16>, b: Seq<u16>) -> Seq<u16> {
    pickev_b(b, a)
}

/// Every lane divided by 255, rounded, modulo what sixteen bits hold.
pub open spec fn div255_round(n: Seq<u16>) -> Seq<u16> {
    Seq::new(n.len(), |i: int| lane::lane_div255(n[i]))
}

/// Lanewise source-over.
pub open spec fn over(d: Seq<u16>, s: Seq<u16>, inv: Seq<u16>) -> Seq<u16> {
    Seq::new(d.len(), |i: int| lane::lane_over(d[i], s[i], inv[i]))
}

/// Lanewise source-over of a source that is its own alpha.
pub open spec fn alpha_over8(dst: Seq<u16>, source: Seq<u16>) -> Seq<u16> {
    Seq::new(dst.len(), |i: int| lane::lane_over(dst[i], source[i], lane::wrap16(255 - source[i])))
}

/// Lanewise combination of a mask with a contribution.
pub open spec fn mask_combine(mode: u8, held: Seq<u16>, contribution: Seq<u16>) -> Seq<u16> {
    Seq::new(held.len(), |i: int| lane::lane_combined(mode, held[i], contribution[i]))
}

/// The register of the `2 * n` bytes from index `at` on.
pub open spec fn of_bytes(bytes: Seq<u8>, at: int, n: nat) -> Seq<u16> {
    Seq::new(n, |i: int| join(bytes[at + 2 * i], bytes[at + 2 * i + 1]))
}

/// The last lane of every group of four, in all four places.
pub open spec fn splat_alpha(half: Seq<u16>) -> Seq<u16> {
    Seq::new(half.len(), |i: int| half[4 * (i / 4) + 3])
}

} // verus!
