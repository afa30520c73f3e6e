//! What a call of a detection function answers, told by the bits that the
//! processor, the OS and the cell gave.

use core::sync::atomic::{AtomicU8, Ordering};
use vstd::prelude::*;

use crate::cpuid;
use crate::cpuid::Leaf;

verus! {

proof fn lemma_bits()
    ensures
        1u32 << 5 == 0x20,
        1u32 << 16 == 0x1_0000,
        1u32 << 17 == 0x2_0000,
        1u32 << 27 == 0x800_0000,
        1u32 << 30 == 0x4000_0000,
        1u32 << 31 == 0x8000_0000,
{
    assert(1u32 << 5 == 0x20 && 1u32 << 16 == 0x1_0000 && 1u32 << 17 == 0x2_0000 && 1u32 << 27
        == 0x800_0000 && 1u32 << 30 == 0x4000_0000 && 1u32 << 31 == 0x8000_0000) by (bit_vector);
}

/// All five features at once.
proof fn lemma_five_bits(x: u32)
    ensures
        x & 0x20 != 0 && x & 0x1_0000 != 0 && x & 0x2_0000 != 0 && x & 0x4000_0000 != 0 && x
            & 0x8000_0000 != 0 <==> x & 0xc003_0020 == 0xc003_0020,
{
    assert(x & 0x20 != 0 && x & 0x1_0000 != 0 && x & 0x2_0000 != 0 && x & 0x4000_0000 != 0 && x
        & 0x8000_0000 != 0 <==> x & 0xc003_0020 == 0xc003_0020) by (bit_vector);
}

/// A mask is in a report if every bit of it is.
pub proof fn hwcap_has_call(hwcap: u64, mask: u64, found: bool)
    requires
        call_ensures(cpuid::hwcap_has, (hwcap, mask), found),
    ensures
        found <==> mask & !hwcap == 0,
{
    assert(hwcap & mask == mask <==> mask & !hwcap == 0) by (bit_vector);
}

/// The verdict on LSX is bit 4 of the report, and negative without one.
pub proof fn detect_lsx_call(hwcap: Option<u64>, found: bool)
    requires
        call_ensures(cpuid::detect_lsx, (hwcap,), found),
    ensures
        hwcap is None ==> !found,
        hwcap matches Some(bits) ==> (found <==> bits & 0x10 != 0),
{
    if let Some(bits) = hwcap {
        assert(bits & 0x10 == 0x10 <==> bits & 0x10 != 0) by (bit_vector);
    }
}

/// The verdict on LASX is that bits 4 and 5 of the report are both set, and
/// negative without one.
pub proof fn detect_lasx_call(hwcap: Option<u64>, found: bool)
    requires
        call_ensures(cpuid::detect_lasx, (hwcap,), found),
    ensures
        hwcap is None ==> !found,
        hwcap matches Some(bits) ==> (found <==> bits & 0x30 == 0x30),
{
    if let Some(bits) = hwcap {
        assert(bits & 0x10 == 0x10 && bits & 0x20 == 0x20 <==> bits & 0x30 == 0x30)
            by (bit_vector);
    }
}

/// A verdict depends on the bits of its feature alone: reports that differ in
/// other bits get the same.
pub proof fn other_bits_do_not_count(x: u64, y: u64, lsx_x: bool, lsx_y: bool, lasx_x: bool, lasx_y: bool)
    requires
        call_ensures(cpuid::detect_lsx, (Some(x),), lsx_x),
        call_ensures(cpuid::detect_lsx, (Some(y),), lsx_y),
        call_ensures(cpuid::detect_lasx, (Some(x),), lasx_x),
        call_ensures(cpuid::detect_lasx, (Some(y),), lasx_y),
    ensures
        (x ^ y) & 0x10 == 0 ==> lsx_x == lsx_y,
        (x ^ y) & 0x30 == 0 ==> lasx_x == lasx_y,
        lasx_x ==> lsx_x,
{
    detect_lsx_call(Some(x), lsx_x);
    detect_lsx_call(Some(y), lsx_y);
    detect_lasx_call(Some(x), lasx_x);
    detect_lasx_call(Some(y), lasx_y);
    assert((x ^ y) & 0x10 == 0 ==> x & 0x10 == y & 0x10) by (bit_vector);
    assert((x ^ y) & 0x30 == 0 ==> x & 0x30 == y & 0x30) by (bit_vector);
    assert(x & 0x30 == 0x30 ==> x & 0x10 != 0) by (bit_vector);
}

/// The verdict on AVX2 is bit 5 of the extended features, where the OS
/// preserves the registers and there are such features.
pub proof fn avx2_in_call(preserved: bool, leaf7: Option<u32>, found: bool)
    requires
        call_ensures(cpuid::avx2_in, (preserved, leaf7), found),
    ensures
        !preserved || leaf7 is None ==> !found,
        leaf7 matches Some(ebx) ==> preserved ==> (found <==> ebx & 0x20 != 0),
{
    lemma_bits();
}

/// The verdict on AVX-512 is that bits 5, 16, 17, 30 and 31 of the extended
/// features are all set, where the OS preserves the registers and there are
/// such features.
pub proof fn avx512_in_call(preserved: bool, leaf7: Option<u32>, found: bool)
    requires
        call_ensures(cpuid::avx512_in, (preserved, leaf7), found),
    ensures
        !preserved || leaf7 is None ==> !found,
        leaf7 matches Some(ebx) ==> preserved ==> (found <==> ebx & 0xc003_0020 == 0xc003_0020),
{
    lemma_bits();
    if let Some(ebx) = leaf7 {
        lemma_five_bits(ebx);
    }
}

/// The registers are preserved if bit 27 is set and every bit of `mask` is in
/// what `XCR0` gave. Without bit 27 they are not.
pub proof fn os_preserves_in_call<G: Fn() -> u64>(
    leaf1_ecx: u32,
    read_xcr0: &G,
    mask: u64,
    found: bool,
)
    requires
        call_ensures(cpuid::os_preserves_in::<G>, (leaf1_ecx, read_xcr0, mask), found),
    ensures
        leaf1_ecx & 0x800_0000 == 0 ==> !found,
        leaf1_ecx & 0x800_0000 != 0 ==> exists|xcr0: u64| #[trigger]
            call_ensures(*read_xcr0, (), xcr0) && found == (xcr0 & mask == mask),
{
    lemma_bits();
    if leaf1_ecx & 0x800_0000 != 0 {
        let t = (leaf1_ecx, read_xcr0, mask);
        let xcr0 = choose|xcr0: u64| #[trigger]
            call_ensures(*t.1, (), xcr0) && found == cpuid::banks_enabled(xcr0, t.2);
        assert(call_ensures(*read_xcr0, (), xcr0));
    }
}

/// The extended features are there from a highest leaf of 7 on, and then they
/// are what was read.
pub proof fn leaf7_ebx_in_call<H: Fn() -> u32>(max_leaf: u32, read_ebx: &H, r: Option<u32>)
    requires
        call_ensures(cpuid::leaf7_ebx_in::<H>, (max_leaf, read_ebx), r),
    ensures
        max_leaf < 7 ==> r is None,
        max_leaf >= 7 ==> r is Some && call_ensures(*read_ebx, (), r->0),
{
}

/// A reader of `XCR0` is fit for detection if it can be called wherever leaf 1
/// gives bit 27, and only if.
pub proof fn xcr0_is_read_under_osxsave<G: Fn() -> u64>(read_xcr0: &G)
    ensures
        cpuid::xcr0_readable(read_xcr0) <==> (forall|leaf1: Leaf| #[trigger]
            cpuid::cpuid_gives(1, leaf1) && leaf1.ecx & 0x800_0000 != 0 ==> call_requires(
                *read_xcr0,
                (),
            )),
{
    lemma_bits();
}

/// Whether `CPUID` leaf 1 gave bit 27 and `XCR0` every bit of `mask`.
pub open spec fn banks_found<G: Fn() -> u64>(read_xcr0: &G, mask: u64) -> bool {
    exists|leaf1: Leaf, xcr0: u64|
        #[trigger] cpuid::cpuid_gives(1, leaf1) && #[trigger] call_ensures(*read_xcr0, (), xcr0)
            && leaf1.ecx & 0x800_0000 != 0 && xcr0 & mask == mask
}

/// Whether `CPUID` leaf 1 gave no bit 27, or `XCR0` not every bit of `mask`.
pub open spec fn banks_missing<G: Fn() -> u64>(read_xcr0: &G, mask: u64) -> bool {
    ||| exists|leaf1: Leaf| #[trigger]
        cpuid::cpuid_gives(1, leaf1) && leaf1.ecx & 0x800_0000 == 0
    ||| exists|xcr0: u64| #[trigger] call_ensures(*read_xcr0, (), xcr0) && xcr0 & mask != mask
}

/// Whether `CPUID` leaf 0 gave a highest leaf of 7 or more, and leaf 7 every
/// bit of `bits`.
pub open spec fn features_found(bits: u32) -> bool {
    &&& exists|leaf0: Leaf| #[trigger] cpuid::cpuid_gives(0, leaf0) && leaf0.eax >= 7
    &&& exists|leaf7: Leaf| #[trigger]
        cpuid::cpuid_count_gives(7, 0, leaf7) && leaf7.ebx & bits == bits
}

/// Whether `CPUID` leaf 0 gave a highest leaf below 7, or leaf 7 not every bit
/// of `bits`.
pub open spec fn features_missing(bits: u32) -> bool {
    ||| exists|leaf0: Leaf| #[trigger] cpuid::cpuid_gives(0, leaf0) && leaf0.eax < 7
    ||| exists|leaf7: Leaf| #[trigger]
        cpuid::cpuid_count_gives(7, 0, leaf7) && leaf7.ebx & bits != bits
}

proof fn lemma_preserves<G: Fn() -> u64>(read_xcr0: &G, mask: u64, found: bool)
    requires
        cpuid::preserves_gives(read_xcr0, mask, found),
    ensures
        found ==> banks_found(read_xcr0, mask),
        !found ==> banks_missing(read_xcr0, mask),
{
    lemma_bits();
    let leaf1 = choose|leaf1: Leaf| #[trigger]
        cpuid::cpuid_gives(1, leaf1) && cpuid::preserved_from(leaf1.ecx, read_xcr0, mask, found);
    assert(cpuid::cpuid_gives(1, leaf1));
    if leaf1.ecx & 0x800_0000 != 0 {
        let xcr0 = choose|xcr0: u64| #[trigger]
            call_ensures(*read_xcr0, (), xcr0) && found == cpuid::banks_enabled(xcr0, mask);
        assert(call_ensures(*read_xcr0, (), xcr0));
    }
}

proof fn lemma_leaf7(r: Option<u32>, bits: u32)
    requires
        cpuid::leaf7_gives(r),
    ensures
        (r matches Some(ebx) && ebx & bits == bits) ==> features_found(bits),
        !(r matches Some(ebx) && ebx & bits == bits) ==> features_missing(bits),
{
    let leaf0 = choose|leaf0: Leaf| #[trigger]
        cpuid::cpuid_gives(0, leaf0) && match r {
            Some(ebx) => leaf0.eax >= 7 && exists|leaf7: Leaf| #[trigger]
                cpuid::cpuid_count_gives(7, 0, leaf7) && ebx == leaf7.ebx,
            None => leaf0.eax < 7,
        };
    assert(cpuid::cpuid_gives(0, leaf0));
    if let Some(ebx) = r {
        let leaf7 = choose|leaf7: Leaf| #[trigger]
            cpuid::cpuid_count_gives(7, 0, leaf7) && ebx == leaf7.ebx;
        assert(cpuid::cpuid_count_gives(7, 0, leaf7));
    }
}

/// A verdict on AVX2 for answers of the processor and the OS: a positive one
/// takes bit 27 of leaf 1, bits 1 and 2 of `XCR0` and bit 5 of leaf 7, and a
/// negative one takes that one of them was missing.
pub proof fn avx2_verdict<G: Fn() -> u64>(read_xcr0: &G, found: bool)
    requires
        cpuid::avx2_gives(read_xcr0, found),
    ensures
        found ==> banks_found(read_xcr0, 0x6) && features_found(0x20),
        !found ==> banks_missing(read_xcr0, 0x6) || features_missing(0x20),
{
    lemma_bits();
    if cpuid::preserves_gives(read_xcr0, cpuid::XCR0_YMM, false) && !found {
        lemma_preserves(read_xcr0, 0x6, false);
    } else {
        lemma_preserves(read_xcr0, 0x6, true);
        let leaf7 = choose|leaf7: Option<u32>| #[trigger]
            cpuid::leaf7_gives(leaf7) && found == (leaf7 matches Some(ebx) && cpuid::has_avx2(ebx));
        lemma_leaf7(leaf7, 0x20);
        if let Some(ebx) = leaf7 {
            assert(ebx & 0x20 != 0 <==> ebx & 0x20 == 0x20) by (bit_vector);
        }
    }
}

/// A verdict on AVX-512 for answers of the processor and the OS: a positive one
/// takes bit 27 of leaf 1, bits 1, 2, 5, 6 and 7 of `XCR0` and bits 5, 16, 17,
/// 30 and 31 of leaf 7, and a negative one takes that one of them was missing.
pub proof fn avx512_verdict<G: Fn() -> u64>(read_xcr0: &G, found: bool)
    requires
        cpuid::avx512_gives(read_xcr0, found),
    ensures
        found ==> banks_found(read_xcr0, 0xe6) && features_found(0xc003_0020),
        !found ==> banks_missing(read_xcr0, 0xe6) || features_missing(0xc003_0020),
{
    lemma_bits();
    if cpuid::preserves_gives(read_xcr0, cpuid::XCR0_ZMM, false) && !found {
        lemma_preserves(read_xcr0, 0xe6, false);
    } else {
        lemma_preserves(read_xcr0, 0xe6, true);
        let leaf7 = choose|leaf7: Option<u32>| #[trigger]
            cpuid::leaf7_gives(leaf7) && found == (leaf7 matches Some(ebx) && cpuid::has_avx512(
                ebx,
            ));
        lemma_leaf7(leaf7, 0xc003_0020);
        if let Some(ebx) = leaf7 {
            lemma_five_bits(ebx);
        }
    }
}

/// What `os_preserves` says of the registers, the processor and the OS gave.
pub proof fn os_preserves_call<G: Fn() -> u64>(read_xcr0: &G, mask: u64, found: bool)
    requires
        call_ensures(cpuid::os_preserves::<G>, (read_xcr0, mask), found),
    ensures
        found ==> banks_found(read_xcr0, mask),
        !found ==> banks_missing(read_xcr0, mask),
{
    let t = (read_xcr0, mask);
    assert(cpuid::preserves_gives(t.0, t.1, found));
    lemma_preserves(read_xcr0, mask, found);
}

/// The extended features are those of leaf 7, sub-leaf 0, and there are none
/// only where leaf 0 gave less than 7.
pub proof fn leaf7_ebx_call(r: Option<u32>)
    requires
        call_ensures(cpuid::leaf7_ebx, (), r),
    ensures
        r is None ==> exists|leaf0: Leaf| #[trigger]
            cpuid::cpuid_gives(0, leaf0) && leaf0.eax < 7,
        r matches Some(ebx) ==> (exists|leaf0: Leaf| #[trigger]
            cpuid::cpuid_gives(0, leaf0) && leaf0.eax >= 7) && (exists|leaf7: Leaf| #[trigger]
            cpuid::cpuid_count_gives(7, 0, leaf7) && leaf7.ebx == ebx),
{
    let leaf0 = choose|leaf0: Leaf| #[trigger]
        cpuid::cpuid_gives(0, leaf0) && match r {
            Some(ebx) => leaf0.eax >= 7 && exists|leaf7: Leaf| #[trigger]
                cpuid::cpuid_count_gives(7, 0, leaf7) && ebx == leaf7.ebx,
            None => leaf0.eax < 7,
        };
    assert(cpuid::cpuid_gives(0, leaf0));
}

/// What `detect_avx2` says, by the bits that it went by.
pub proof fn detect_avx2_call<G: Fn() -> u64>(read_xcr0: &G, found: bool)
    requires
        call_ensures(cpuid::detect_avx2::<G>, (read_xcr0,), found),
    ensures
        found ==> banks_found(read_xcr0, 0x6) && features_found(0x20),
        !found ==> banks_missing(read_xcr0, 0x6) || features_missing(0x20),
{
    let t = (read_xcr0,);
    assert(cpuid::avx2_gives(t.0, found));
    avx2_verdict(read_xcr0, found);
}

/// What `detect_avx512` says, by the bits that it went by.
pub proof fn detect_avx512_call<G: Fn() -> u64>(read_xcr0: &G, found: bool)
    requires
        call_ensures(cpuid::detect_avx512::<G>, (read_xcr0,), found),
    ensures
        found ==> banks_found(read_xcr0, 0xe6) && features_found(0xc003_0020),
        !found ==> banks_missing(read_xcr0, 0xe6) || features_missing(0xc003_0020),
{
    let t = (read_xcr0,);
    assert(cpuid::avx512_gives(t.0, found));
    avx512_verdict(read_xcr0, found);
}

/// A state of 2 answers yes and a state of 1 no, and nothing is stored. Any
/// other state answers what the probe says, and that is to be stored, as 2 for
/// yes and as 1 for no.
pub proof fn cached_in_call<P: Fn() -> bool>(seen: u8, probe: &P, r: (bool, Option<u8>))
    requires
        call_ensures(cpuid::cached_in::<P>, (seen, probe), r),
    ensures
        seen == 2 ==> r.0 && r.1 is None,
        seen == 1 ==> !r.0 && r.1 is None,
        seen != 1 && seen != 2 ==> call_ensures(*probe, (), r.0) && r.1 == Some(
            if r.0 {
                2u8
            } else {
                1u8
            },
        ),
{
}

/// Whether a query that loaded `seen` answers `found` as the cell has it, and
/// stores a fresh answer.
pub open spec fn went_by_cell(cell: &AtomicU8, seen: u8, found: bool) -> bool {
    &&& cpuid::cell_gives(cell, seen)
    &&& seen == 2 ==> found
    &&& seen == 1 ==> !found
    &&& seen != 1 && seen != 2 && found ==> cpuid::cell_takes(cell, 2)
    &&& seen != 1 && seen != 2 && !found ==> cpuid::cell_takes(cell, 1)
}

/// What a cell gives is what a load of it gave, and what it takes is what was
/// stored to it.
pub proof fn cells_are_atomics(cell: &AtomicU8, state: u8)
    ensures
        cpuid::cell_gives(cell, state) <==> call_ensures(
            AtomicU8::load,
            (cell, Ordering::Relaxed),
            state,
        ),
        cpuid::cell_takes(cell, state) <==> call_ensures(
            AtomicU8::store,
            (cell, state, Ordering::Relaxed),
            (),
        ),
{
}

/// A cell that holds a verdict decides, and otherwise the probe does.
pub proof fn cached_call<P: Fn() -> bool>(cell: &AtomicU8, probe: &P, found: bool)
    requires
        call_ensures(cpuid::cached::<P>, (cell, probe), found),
    ensures
        exists|seen: u8| #[trigger]
            went_by_cell(cell, seen, found) && (seen != 1 && seen != 2 ==> call_ensures(
                *probe,
                (),
                found,
            )),
{
    let t = (cell, probe);
    let seen = choose|seen: u8|
        {
            &&& #[trigger] cpuid::cell_answers(t.0, seen, found)
            &&& seen != cpuid::PRESENT && seen != cpuid::ABSENT ==> call_ensures(*t.1, (), found)
        };
    assert(went_by_cell(cell, seen, found));
}

/// A cell that holds a verdict decides on AVX2, and otherwise the bits do.
pub proof fn avx2_call<G: Fn() -> u64>(cell: &AtomicU8, read_xcr0: &G, found: bool)
    requires
        call_ensures(cpuid::avx2::<G>, (cell, read_xcr0), found),
    ensures
        exists|seen: u8| #[trigger]
            went_by_cell(cell, seen, found) && (seen != 1 && seen != 2 ==> if found {
                banks_found(read_xcr0, 0x6) && features_found(0x20)
            } else {
                banks_missing(read_xcr0, 0x6) || features_missing(0x20)
            }),
{
    let t = (cell, read_xcr0);
    let seen = choose|seen: u8| #[trigger] cpuid::avx2_answers(t.0, t.1, seen, found);
    assert(went_by_cell(cell, seen, found));
    if seen != 1 && seen != 2 {
        avx2_verdict(read_xcr0, found);
    }
}

/// A cell that holds a verdict decides on AVX-512, and otherwise the bits do.
pub proof fn avx512_call<G: Fn() -> u64>(cell: &AtomicU8, read_xcr0: &G, found: bool)
    requires
        call_ensures(cpuid::avx512::<G>, (cell, read_xcr0), found),
    ensures
        exists|seen: u8| #[trigger]
            went_by_cell(cell, seen, found) && (seen != 1 && seen != 2 ==> if found {
                banks_found(read_xcr0, 0xe6) && features_found(0xc003_0020)
            } else {
                banks_missing(read_xcr0, 0xe6) || features_missing(0xc003_0020)
            }),
{
    let t = (cell, read_xcr0);
    let seen = choose|seen: u8| #[trigger] cpuid::avx512_answers(t.0, t.1, seen, found);
    assert(went_by_cell(cell, seen, found));
    if seen != 1 && seen != 2 {
        avx512_verdict(read_xcr0, found);
    }
}

/// Whether `read_hwcap` gave a report that has every bit of `mask` if `found`,
/// and if not, one that lacks a bit of it or none at all.
pub open spec fn report_says<G: Fn() -> Option<u64>>(
    read_hwcap: &G,
    mask: u64,
    found: bool,
) -> bool {
    exists|hwcap: Option<u64>| #[trigger]
        call_ensures(*read_hwcap, (), hwcap) && found == (hwcap matches Some(bits) && bits & mask
            == mask)
}

/// A cell that holds a verdict decides on LSX, and otherwise bit 4 of the
/// report does.
pub proof fn lsx_call<G: Fn() -> Option<u64>>(cell: &AtomicU8, read_hwcap: &G, found: bool)
    requires
        call_ensures(cpuid::lsx::<G>, (cell, read_hwcap), found),
    ensures
        exists|seen: u8| #[trigger]
            went_by_cell(cell, seen, found) && (seen != 1 && seen != 2 ==> report_says(
                read_hwcap,
                0x10,
                found,
            )),
{
    let t = (cell, read_hwcap);
    let seen = choose|seen: u8|
        {
            &&& #[trigger] cpuid::cell_answers(t.0, seen, found)
            &&& seen != cpuid::PRESENT && seen != cpuid::ABSENT ==> cpuid::reads_lsx(t.1, found)
        };
    assert(went_by_cell(cell, seen, found));
    if seen != 1 && seen != 2 {
        let hwcap = choose|hwcap: Option<u64>| #[trigger]
            call_ensures(*read_hwcap, (), hwcap) && found == cpuid::lsx_reported(hwcap);
        assert(call_ensures(*read_hwcap, (), hwcap));
    }
}

/// A cell that holds a verdict decides on LASX, and otherwise bits 4 and 5 of
/// the report do.
pub proof fn lasx_call<G: Fn() -> Option<u64>>(cell: &AtomicU8, read_hwcap: &G, found: bool)
    requires
        call_ensures(cpuid::lasx::<G>, (cell, read_hwcap), found),
    ensures
        exists|seen: u8| #[trigger]
            went_by_cell(cell, seen, found) && (seen != 1 && seen != 2 ==> report_says(
                read_hwcap,
                0x30,
                found,
            )),
{
    let t = (cell, read_hwcap);
    let seen = choose|seen: u8|
        {
            &&& #[trigger] cpuid::cell_answers(t.0, seen, found)
            &&& seen != cpuid::PRESENT && seen != cpuid::ABSENT ==> cpuid::reads_lasx(t.1, found)
        };
    assert(went_by_cell(cell, seen, found));
    if seen != 1 && seen != 2 {
        let hwcap = choose|hwcap: Option<u64>| #[trigger]
            call_ensures(*read_hwcap, (), hwcap) && found == cpuid::lasx_reported(hwcap);
        assert(call_ensures(*read_hwcap, (), hwcap));
        if let Some(bits) = hwcap {
            assert(bits & 0x10 == 0x10 && bits & 0x20 == 0x20 <==> bits & 0x30 == 0x30)
                by (bit_vector);
        }
    }
}

} // verus!
