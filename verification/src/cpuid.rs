//! Runtime x86 and LoongArch feature detection.
//!
//! Checking the CPUID feature bit alone is not enough: the wider register
//! files only exist if the OS has enabled saving them across context
//! switches, and using them when it has not is a fault, not slow code. So
//! every x86 query below confirms `OSXSAVE` and the matching `XCR0` bits
//! first.
//!
//! On LoongArch, Linux sets the LSX/LASX `AT_HWCAP` bits only when the kernel
//! implements them, so those bits alone decide. LASX is used only together
//! with LSX.
//!
//! `XCR0` and `AT_HWCAP` are read by functions that the caller hands in.

use core::sync::atomic::{AtomicU8, Ordering};
use vstd::prelude::*;

verus! {

/// The state of a cache cell that holds no verdict yet.
pub const UNKNOWN: u8 = 0;

/// The state of a cache cell that holds a negative verdict.
pub const ABSENT: u8 = 1;

/// The state of a cache cell that holds a positive verdict.
pub const PRESENT: u8 = 2;

/// `XCR0` bits 1..=2: XMM and YMM state. Required for AVX and AVX2.
pub const XCR0_YMM: u64 = 0b0000_0110;

/// `XCR0` bits 1,2,5,6,7: the above plus opmask, ZMM_Hi256 and Hi16_ZMM.
pub const XCR0_ZMM: u64 = 0b1110_0110;

/// `HWCAP_LOONGARCH_LSX`, bit 4 of `AT_HWCAP`.
pub const HWCAP_LSX: u64 = 0x10;

/// `HWCAP_LOONGARCH_LASX`, bit 5 of `AT_HWCAP`.
pub const HWCAP_LASX: u64 = 0x20;

/// The registers that `CPUID` fills.
#[derive(Clone, Copy, Debug)]
pub struct Leaf {
    pub eax: u32,
    pub ebx: u32,
    pub ecx: u32,
    pub edx: u32,
}

/// `core::arch::x86_64::__cpuid`: executes `CPUID` for `leaf` and sub-leaf 0.
/// Nothing is claimed of what the processor answers.
#[verifier::external_body]
fn cpuid(leaf: u32) -> (r: Leaf) {
    let r = core::arch::x86_64::__cpuid(leaf);
    Leaf { eax: r.eax, ebx: r.ebx, ecx: r.ecx, edx: r.edx }
}

/// `core::arch::x86_64::__cpuid_count`: executes `CPUID` for `leaf` and
/// `sub_leaf`. Nothing is claimed of what the processor answers.
#[verifier::external_body]
fn cpuid_count(leaf: u32, sub_leaf: u32) -> (r: Leaf) {
    let r = core::arch::x86_64::__cpuid_count(leaf, sub_leaf);
    Leaf { eax: r.eax, ebx: r.ebx, ecx: r.ecx, edx: r.edx }
}

/// Whether `CPUID` can answer `r` for `leaf` and sub-leaf 0.
pub closed spec fn cpuid_gives(leaf: u32, r: Leaf) -> bool {
    call_ensures(cpuid, (leaf,), r)
}

/// Whether `CPUID` can answer `r` for `leaf` and `sub_leaf`.
pub closed spec fn cpuid_count_gives(leaf: u32, sub_leaf: u32, r: Leaf) -> bool {
    call_ensures(cpuid_count, (leaf, sub_leaf), r)
}

/// What `CPUID` can answer is what a call of it gave, for the same leaf and
/// sub-leaf.
proof fn answers_are_calls(leaf: u32, sub_leaf: u32, r: Leaf)
    ensures
        cpuid_gives(leaf, r) <==> call_ensures(cpuid, (leaf,), r),
        cpuid_count_gives(leaf, sub_leaf, r) <==> call_ensures(cpuid_count, (leaf, sub_leaf), r),
{
}

/// Whether bit `n` of a feature register is set.
pub open spec fn bit(x: u32, n: u32) -> bool {
    x & (1u32 << n) != 0
}

/// Whether `CPUID` leaf 1 reports that the OS has enabled `XGETBV`.
pub open spec fn osxsave(leaf1_ecx: u32) -> bool {
    bit(leaf1_ecx, 27)
}

/// Whether the register banks of `mask` are all enabled in `xcr0`.
pub open spec fn banks_enabled(xcr0: u64, mask: u64) -> bool {
    xcr0 & mask == mask
}

/// Whether `read_xcr0` can give a value that enables all banks of `mask`.
pub open spec fn reads_enabled<G: Fn() -> u64>(read_xcr0: &G, mask: u64) -> bool {
    exists|xcr0: u64| #[trigger] call_ensures(*read_xcr0, (), xcr0) && banks_enabled(xcr0, mask)
}

/// Whether `read_xcr0` can be called wherever `CPUID` leaf 1 reports
/// `OSXSAVE`.
pub open spec fn xcr0_readable<G: Fn() -> u64>(read_xcr0: &G) -> bool {
    forall|leaf1: Leaf| #[trigger]
        cpuid_gives(1, leaf1) && osxsave(leaf1.ecx) ==> call_requires(*read_xcr0, ())
}

/// Whether the extended features hold AVX2.
pub open spec fn has_avx2(ebx: u32) -> bool {
    bit(ebx, 5)
}

/// Whether the extended features hold everything that the AVX-512 kernels
/// execute: avx2 (5), f (16), dq (17), bw (30), vl (31).
pub open spec fn has_avx512(ebx: u32) -> bool {
    bit(ebx, 5) && bit(ebx, 16) && bit(ebx, 17) && bit(ebx, 30) && bit(ebx, 31)
}

/// Whether `found` is the verdict on the banks of `mask` when `CPUID` leaf 1
/// gave `leaf1_ecx`: negative without `OSXSAVE`, and otherwise that of a value
/// which `read_xcr0` can give.
pub open spec fn preserved_from<G: Fn() -> u64>(
    leaf1_ecx: u32,
    read_xcr0: &G,
    mask: u64,
    found: bool,
) -> bool {
    if osxsave(leaf1_ecx) {
        exists|xcr0: u64| #[trigger]
            call_ensures(*read_xcr0, (), xcr0) && found == banks_enabled(xcr0, mask)
    } else {
        !found
    }
}

/// Whether `found` is the verdict on the banks of `mask` for an answer that
/// `CPUID` leaf 1 can give.
pub open spec fn preserves_gives<G: Fn() -> u64>(read_xcr0: &G, mask: u64, found: bool) -> bool {
    exists|leaf1: Leaf| #[trigger]
        cpuid_gives(1, leaf1) && preserved_from(leaf1.ecx, read_xcr0, mask, found)
}

/// Whether `r` is what answers of `CPUID` give for the extended features:
/// those of leaf 7, sub-leaf 0, or `None` where leaf 0 gives a highest leaf
/// below 7.
pub open spec fn leaf7_gives(r: Option<u32>) -> bool {
    exists|leaf0: Leaf| #[trigger]
        cpuid_gives(0, leaf0) && match r {
            Some(ebx) => leaf0.eax >= 7 && exists|leaf7: Leaf| #[trigger]
                cpuid_count_gives(7, 0, leaf7) && ebx == leaf7.ebx,
            None => leaf0.eax < 7,
        }
}

/// Whether `found` is the verdict on AVX2 for answers that `CPUID` and
/// `read_xcr0` can give. Without the register banks the extended features are
/// not asked for.
pub open spec fn avx2_gives<G: Fn() -> u64>(read_xcr0: &G, found: bool) -> bool {
    ||| preserves_gives(read_xcr0, XCR0_YMM, false) && !found
    ||| preserves_gives(read_xcr0, XCR0_YMM, true) && exists|leaf7: Option<u32>| #[trigger]
        leaf7_gives(leaf7) && found == (leaf7 matches Some(ebx) && has_avx2(ebx))
}

/// Whether `found` is the verdict on AVX-512 for answers that `CPUID` and
/// `read_xcr0` can give. Without the register banks the extended features are
/// not asked for.
pub open spec fn avx512_gives<G: Fn() -> u64>(read_xcr0: &G, found: bool) -> bool {
    ||| preserves_gives(read_xcr0, XCR0_ZMM, false) && !found
    ||| preserves_gives(read_xcr0, XCR0_ZMM, true) && exists|leaf7: Option<u32>| #[trigger]
        leaf7_gives(leaf7) && found == (leaf7 matches Some(ebx) && has_avx512(ebx))
}

/// True when `leaf1_ecx` reports `OSXSAVE` and the OS preserves every register
/// bank in `mask`. Reads `XCR0` only once `OSXSAVE` is known to be set.
pub fn os_preserves_in<G: Fn() -> u64>(leaf1_ecx: u32, read_xcr0: &G, mask: u64) -> (found: bool)
    requires
        osxsave(leaf1_ecx) ==> call_requires(*read_xcr0, ()),
    ensures
        !osxsave(leaf1_ecx) ==> !found,
        osxsave(leaf1_ecx) ==> exists|xcr0: u64|
            #[trigger] call_ensures(*read_xcr0, (), xcr0) && found == banks_enabled(xcr0, mask),
{
    if leaf1_ecx & (1u32 << 27) == 0 {
        return false;
    }
    let xcr0 = read_xcr0();
    xcr0 & mask == mask
}

/// True when the CPU reports `OSXSAVE` and the OS preserves every register
/// bank in `mask`. What leaf 1 answers is up to the processor: the verdict is
/// fixed for each answer, and no answer is promised.
pub fn os_preserves<G: Fn() -> u64>(read_xcr0: &G, mask: u64) -> (found: bool)
    requires
        xcr0_readable(read_xcr0),
    ensures
        preserves_gives(read_xcr0, mask, found),
        found ==> reads_enabled(read_xcr0, mask),
{
    // CPUID leaf 1 exists on every x86_64 part.
    let leaf1 = cpuid(1);
    assert(cpuid_gives(1, leaf1));
    os_preserves_in(leaf1.ecx, read_xcr0, mask)
}

/// Extended-feature flags, or `None` when the highest leaf is below 7. Reads
/// them only when leaf 7 exists.
pub fn leaf7_ebx_in<H: Fn() -> u32>(max_leaf: u32, read_ebx: &H) -> (r: Option<u32>)
    requires
        max_leaf >= 7 ==> call_requires(*read_ebx, ()),
    ensures
        r is None <==> max_leaf < 7,
        r matches Some(ebx) ==> call_ensures(*read_ebx, (), ebx),
{
    if max_leaf < 7 {
        return None;
    }
    Some(read_ebx())
}

/// Extended-feature flags, or `None` when the CPU predates CPUID leaf 7. What
/// leaves 0 and 7 answer is up to the processor: the result is fixed for each
/// answer, and no answer is promised.
pub fn leaf7_ebx() -> (r: Option<u32>)
    ensures
        leaf7_gives(r),
{
    // Leaf 0 is always present and reports the highest valid leaf.
    let leaf0 = cpuid(0);
    let read_ebx = || -> (ebx: u32)
        ensures
            exists|leaf7: Leaf| #[trigger] cpuid_count_gives(7, 0, leaf7) && ebx == leaf7.ebx,
        {
            let leaf7 = cpuid_count(7, 0);
            assert(cpuid_count_gives(7, 0, leaf7));
            leaf7.ebx
        };
    let r = leaf7_ebx_in(leaf0.eax, &read_ebx);
    assert(cpuid_gives(0, leaf0));
    r
}

/// The verdict on AVX2 from what the OS preserves and the extended features.
pub fn avx2_in(preserved: bool, leaf7: Option<u32>) -> (found: bool)
    ensures
        found == (preserved && (leaf7 matches Some(ebx) && has_avx2(ebx))),
{
    match leaf7 {
        Some(ebx) => preserved && ebx & (1u32 << 5) != 0,
        None => false,
    }
}

/// The verdict on AVX-512 from what the OS preserves and the extended
/// features.
pub fn avx512_in(preserved: bool, leaf7: Option<u32>) -> (found: bool)
    ensures
        found == (preserved && (leaf7 matches Some(ebx) && has_avx512(ebx))),
{
    match leaf7 {
        Some(ebx) => preserved && ebx & (1u32 << 5) != 0 && ebx & (1u32 << 16) != 0 && ebx & (1u32
            << 17) != 0 && ebx & (1u32 << 30) != 0 && ebx & (1u32 << 31) != 0,
        None => false,
    }
}

/// Probes for AVX2. The processor decides along with the OS, so no positive
/// verdict is promised.
pub fn detect_avx2<G: Fn() -> u64>(read_xcr0: &G) -> (found: bool)
    requires
        xcr0_readable(read_xcr0),
    ensures
        avx2_gives(read_xcr0, found),
        found ==> reads_enabled(read_xcr0, XCR0_YMM),
{
    if !os_preserves(read_xcr0, XCR0_YMM) {
        return false;
    }
    avx2_in(true, leaf7_ebx())
}

/// Probes for every feature that the AVX-512 kernels execute. Detecting a
/// subset would let a dispatched kernel execute an instruction the CPU does
/// not implement. The processor decides along with the OS, so no positive
/// verdict is promised.
pub fn detect_avx512<G: Fn() -> u64>(read_xcr0: &G) -> (found: bool)
    requires
        xcr0_readable(read_xcr0),
    ensures
        avx512_gives(read_xcr0, found),
        found ==> reads_enabled(read_xcr0, XCR0_ZMM),
{
    if !os_preserves(read_xcr0, XCR0_ZMM) {
        return false;
    }
    avx512_in(true, leaf7_ebx())
}

/// Whether the kernel reports LSX.
pub open spec fn lsx_reported(hwcap: Option<u64>) -> bool {
    hwcap matches Some(bits) && bits & HWCAP_LSX == HWCAP_LSX
}

/// Whether the kernel reports LASX, and LSX with it.
pub open spec fn lasx_reported(hwcap: Option<u64>) -> bool {
    hwcap matches Some(bits) && bits & HWCAP_LSX == HWCAP_LSX && bits & HWCAP_LASX == HWCAP_LASX
}

/// Whether `read_hwcap` can give a report for which the verdict on LSX is
/// `found`.
pub open spec fn reads_lsx<G: Fn() -> Option<u64>>(read_hwcap: &G, found: bool) -> bool {
    exists|hwcap: Option<u64>| #[trigger]
        call_ensures(*read_hwcap, (), hwcap) && found == lsx_reported(hwcap)
}

/// Whether `read_hwcap` can give a report for which the verdict on LASX is
/// `found`.
pub open spec fn reads_lasx<G: Fn() -> Option<u64>>(read_hwcap: &G, found: bool) -> bool {
    exists|hwcap: Option<u64>| #[trigger]
        call_ensures(*read_hwcap, (), hwcap) && found == lasx_reported(hwcap)
}

/// True when `hwcap` has every bit in `mask`.
pub fn hwcap_has(hwcap: u64, mask: u64) -> (found: bool)
    ensures
        found == (hwcap & mask == mask),
{
    hwcap & mask == mask
}

/// The verdict on LSX from `AT_HWCAP`, which is `None` where there is no such
/// report.
pub fn detect_lsx(hwcap: Option<u64>) -> (found: bool)
    ensures
        found == lsx_reported(hwcap),
{
    match hwcap {
        Some(bits) => hwcap_has(bits, HWCAP_LSX),
        None => false,
    }
}

/// The verdict on LASX from `AT_HWCAP`, which is `None` where there is no such
/// report. Positive only where LSX is reported too.
pub fn detect_lasx(hwcap: Option<u64>) -> (found: bool)
    ensures
        found == lasx_reported(hwcap),
{
    match hwcap {
        Some(bits) => hwcap_has(bits, HWCAP_LSX) && hwcap_has(bits, HWCAP_LASX),
        None => false,
    }
}

/// The state of a cell that holds the verdict `found`.
pub open spec fn verdict_state(found: bool) -> u8 {
    if found {
        PRESENT
    } else {
        ABSENT
    }
}

/// What a query that finds `seen` in the cell answers and stores, when its
/// probe says `probed`.
pub open spec fn cached_step(seen: u8, probed: bool) -> (bool, Option<u8>) {
    if seen == PRESENT {
        (true, None)
    } else if seen == ABSENT {
        (false, None)
    } else {
        (probed, Some(verdict_state(probed)))
    }
}

/// The state of the cell after a query that found `seen` there, when its probe
/// says `probed` and no other query comes between.
pub open spec fn cached_after(seen: u8, probed: bool) -> u8 {
    match cached_step(seen, probed).1 {
        Some(state) => state,
        None => seen,
    }
}

/// Whether a load of the cell can give `seen`.
pub open spec fn cell_gives(cell: &AtomicU8, seen: u8) -> bool {
    call_ensures(AtomicU8::load, (cell, Ordering::Relaxed), seen)
}

/// Whether a store of `state` to the cell can come to pass.
pub open spec fn cell_takes(cell: &AtomicU8, state: u8) -> bool {
    call_ensures(AtomicU8::store, (cell, state, Ordering::Relaxed), ())
}

/// Whether a query that loads `seen` from the cell can answer `found`, with
/// what it is to store stored.
pub open spec fn cell_answers(cell: &AtomicU8, seen: u8, found: bool) -> bool {
    &&& cell_gives(cell, seen)
    &&& found == cached_step(seen, found).0
    &&& cached_step(seen, found).1 matches Some(state) ==> cell_takes(cell, state)
}

/// Whether an AVX2 query that loads `seen` from the cell can answer `found`.
pub open spec fn avx2_answers<G: Fn() -> u64>(
    cell: &AtomicU8,
    read_xcr0: &G,
    seen: u8,
    found: bool,
) -> bool {
    &&& cell_answers(cell, seen, found)
    &&& seen != PRESENT && seen != ABSENT ==> avx2_gives(read_xcr0, found)
    &&& seen != PRESENT && found ==> reads_enabled(read_xcr0, XCR0_YMM)
}

/// Whether an AVX-512 query that loads `seen` from the cell can answer
/// `found`.
pub open spec fn avx512_answers<G: Fn() -> u64>(
    cell: &AtomicU8,
    read_xcr0: &G,
    seen: u8,
    found: bool,
) -> bool {
    &&& cell_answers(cell, seen, found)
    &&& seen != PRESENT && seen != ABSENT ==> avx512_gives(read_xcr0, found)
    &&& seen != PRESENT && found ==> reads_enabled(read_xcr0, XCR0_ZMM)
}

/// The answer of a query that finds `seen` in the cell, and what it is to
/// store there. Probes only where the cell holds no verdict.
pub fn cached_in<P: Fn() -> bool>(seen: u8, probe: &P) -> (r: (bool, Option<u8>))
    requires
        seen != PRESENT && seen != ABSENT ==> call_requires(*probe, ()),
    ensures
        r == cached_step(seen, r.0),
        seen != PRESENT && seen != ABSENT ==> call_ensures(*probe, (), r.0),
{
    if seen == PRESENT {
        (true, None)
    } else if seen == ABSENT {
        (false, None)
    } else {
        let found = probe();
        (found, Some(if found { PRESENT } else { ABSENT }))
    }
}

/// Caches one probe. A race just runs the probe twice and stores the same
/// answer, so `Relaxed` is enough. Other threads may write the cell at any
/// time: what the load gives and what the cell holds after the store is left
/// open.
pub fn cached<P: Fn() -> bool>(cell: &AtomicU8, probe: &P) -> (found: bool)
    requires
        call_requires(*probe, ()),
    ensures
        exists|seen: u8|
            {
                &&& #[trigger] cell_answers(cell, seen, found)
                &&& seen != PRESENT && seen != ABSENT ==> call_ensures(*probe, (), found)
            },
{
    let seen = cell.load(Ordering::Relaxed);
    let (found, stored) = cached_in(seen, probe);
    if let Some(state) = stored {
        cell.store(state, Ordering::Relaxed);
    }
    assert(cell_answers(cell, seen, found));
    found
}

/// Whether AVX2 can be used, by the verdict in `cell` or else by a probe that
/// the cell then holds.
pub fn avx2<G: Fn() -> u64>(cell: &AtomicU8, read_xcr0: &G) -> (found: bool)
    requires
        xcr0_readable(read_xcr0),
    ensures
        exists|seen: u8| #[trigger] avx2_answers(cell, read_xcr0, seen, found),
{
    let probe = || -> (found: bool)
        requires
            xcr0_readable(read_xcr0),
        ensures
            avx2_gives(read_xcr0, found),
            found ==> reads_enabled(read_xcr0, XCR0_YMM),
        { detect_avx2(read_xcr0) };
    let found = cached(cell, &probe);
    proof {
        let seen = choose|seen: u8|
            {
                &&& #[trigger] cell_answers(cell, seen, found)
                &&& seen != PRESENT && seen != ABSENT ==> call_ensures(probe, (), found)
            };
        assert(avx2_answers(cell, read_xcr0, seen, found));
    }
    found
}

/// Whether AVX-512 can be used, by the verdict in `cell` or else by a probe
/// that the cell then holds.
pub fn avx512<G: Fn() -> u64>(cell: &AtomicU8, read_xcr0: &G) -> (found: bool)
    requires
        xcr0_readable(read_xcr0),
    ensures
        exists|seen: u8| #[trigger] avx512_answers(cell, read_xcr0, seen, found),
{
    let probe = || -> (found: bool)
        requires
            xcr0_readable(read_xcr0),
        ensures
            avx512_gives(read_xcr0, found),
            found ==> reads_enabled(read_xcr0, XCR0_ZMM),
        { detect_avx512(read_xcr0) };
    let found = cached(cell, &probe);
    proof {
        let seen = choose|seen: u8|
            {
                &&& #[trigger] cell_answers(cell, seen, found)
                &&& seen != PRESENT && seen != ABSENT ==> call_ensures(probe, (), found)
            };
        assert(avx512_answers(cell, read_xcr0, seen, found));
    }
    found
}

/// Whether LSX can be used, by the verdict in `cell` or else by a probe that
/// the cell then holds.
pub fn lsx<G: Fn() -> Option<u64>>(cell: &AtomicU8, read_hwcap: &G) -> (found: bool)
    requires
        call_requires(*read_hwcap, ()),
    ensures
        exists|seen: u8|
            {
                &&& #[trigger] cell_answers(cell, seen, found)
                &&& seen != PRESENT && seen != ABSENT ==> reads_lsx(read_hwcap, found)
            },
{
    let probe = || -> (found: bool)
        ensures
            reads_lsx(read_hwcap, found),
        { detect_lsx(read_hwcap()) };
    cached(cell, &probe)
}

/// Whether LASX can be used, by the verdict in `cell` or else by a probe that
/// the cell then holds.
pub fn lasx<G: Fn() -> Option<u64>>(cell: &AtomicU8, read_hwcap: &G) -> (found: bool)
    requires
        call_requires(*read_hwcap, ()),
    ensures
        exists|seen: u8|
            {
                &&& #[trigger] cell_answers(cell, seen, found)
                &&& seen != PRESENT && seen != ABSENT ==> reads_lasx(read_hwcap, found)
            },
{
    let probe = || -> (found: bool)
        ensures
            reads_lasx(read_hwcap, found),
        { detect_lasx(read_hwcap()) };
    cached(cell, &probe)
}

} // verus!
