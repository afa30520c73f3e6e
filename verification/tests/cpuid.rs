use simd_kernels::cpuid::{
    avx2, avx2_in, avx512, avx512_in, cached, cached_in, detect_avx2, detect_avx512, detect_lasx,
    detect_lsx, hwcap_has, lasx, leaf7_ebx, leaf7_ebx_in, lsx, os_preserves, os_preserves_in,
    ABSENT, HWCAP_LASX, HWCAP_LSX, PRESENT, UNKNOWN, XCR0_YMM, XCR0_ZMM,
};
use std::arch::x86_64::{__cpuid, __cpuid_count};
use std::cell::Cell;
use std::sync::atomic::{AtomicU8, Ordering};

use pulp::core_arch::x86::{Avx2, Avx512bw, Avx512dq, Avx512f};
use x86_64::registers::xcontrol::XCr0;

const OSXSAVE: u32 = 1 << 27;

fn fresh() -> AtomicU8 {
    AtomicU8::new(UNKNOWN)
}

/// `XCR0` where the processor lets it be read.
fn read_xcr0() -> u64 {
    assert!(__cpuid(1).ecx & OSXSAVE != 0);
    XCr0::read_raw()
}

/// What the detector of the standard library says of one feature of the
/// machine that runs the test. The AVX-512 tokens each ask for avx512vl too.
fn std_detects(feature: &str) -> bool {
    match feature {
        "avx2" => Avx2::is_available(),
        "avx512f" => Avx512f::is_available(),
        "avx512bw" => Avx512bw::is_available(),
        "avx512dq" => Avx512dq::is_available(),
        "avx512vl" => Avx512f::is_available(),
        _ => panic!("{}", feature),
    }
}

#[test]
fn cpuid_matches_the_std_detector() {
    assert_eq!(avx2(&fresh(), &read_xcr0), std_detects("avx2"), "avx2");
    assert_eq!(
        avx512(&fresh(), &read_xcr0),
        std_detects("avx2")
            && std_detects("avx512f")
            && std_detects("avx512bw")
            && std_detects("avx512dq")
            && std_detects("avx512vl"),
        "avx512"
    );
    // LASX counts only where LSX is reported too.
    for hwcap in [0u64, 0x10, 0x20, 0x30, 0x0f, 0xffff_ffcf, 0xffff_ffef, 0xffff_ffff] {
        let read_hwcap = || Some(hwcap);
        let std_lsx = hwcap & (1 << 4) != 0;
        let std_lasx = hwcap & (1 << 5) != 0;
        assert_eq!(lsx(&fresh(), &read_hwcap), std_lsx, "lsx");
        assert_eq!(lasx(&fresh(), &read_hwcap), std_lsx && std_lasx, "lasx");
    }
}

#[test]
fn repeated_queries_are_stable() {
    let (cell2, cell512) = (fresh(), fresh());
    let (a, b) = (avx2(&cell2, &read_xcr0), avx512(&cell512, &read_xcr0));
    for _ in 0..8 {
        assert_eq!(avx2(&cell2, &read_xcr0), a);
        assert_eq!(avx512(&cell512, &read_xcr0), b);
    }
}

#[test]
fn a_cached_verdict_outlives_its_probe() {
    let cell = fresh();
    assert!(lsx(&cell, &|| Some(0x10)));
    assert!(lsx(&cell, &|| Some(0)));
    assert_eq!(cell.load(Ordering::Relaxed), PRESENT);
    let cell = fresh();
    assert!(!lasx(&cell, &|| None));
    assert!(!lasx(&cell, &|| Some(0x30)));
    assert_eq!(cell.load(Ordering::Relaxed), ABSENT);
}

#[test]
fn every_query_has_its_own_cell() {
    let (a, b) = (avx2(&fresh(), &read_xcr0), avx512(&fresh(), &read_xcr0));
    let (cell2, cell512) = (fresh(), fresh());
    for _ in 0..3 {
        assert_eq!(avx512(&cell512, &read_xcr0), b);
        assert_eq!(avx2(&cell2, &read_xcr0), a);
    }
    let state = |found| if found { PRESENT } else { ABSENT };
    assert_eq!(cell2.load(Ordering::Relaxed), state(a));
    assert_eq!(cell512.load(Ordering::Relaxed), state(b));
}

#[test]
fn the_probe_runs_once() {
    let runs = Cell::new(0);
    let probe = || {
        runs.set(runs.get() + 1);
        true
    };
    let cell = fresh();
    assert!(cached(&cell, &probe));
    assert!(cached(&cell, &probe));
    assert!(cached(&cell, &probe));
    assert_eq!(runs.get(), 1);
}

#[test]
fn a_race_stores_the_same_answer() {
    // Both queries see the empty cell, and both probe.
    for verdict in [false, true] {
        let first = cached_in(UNKNOWN, &|| verdict);
        let second = cached_in(UNKNOWN, &|| verdict);
        assert_eq!(first, second);
        let state = first.1.unwrap();
        assert_eq!(cached_in(state, &|| !verdict), (verdict, None));
    }
    assert_eq!(cached_in(UNKNOWN, &|| true), (true, Some(PRESENT)));
    assert_eq!(cached_in(UNKNOWN, &|| false), (false, Some(ABSENT)));
    assert_eq!(cached_in(77, &|| true), (true, Some(PRESENT)));
    assert_eq!(cached_in(PRESENT, &|| false), (true, None));
    assert_eq!(cached_in(ABSENT, &|| true), (false, None));
}

#[test]
fn leaf_seven_is_the_one_of_this_machine() {
    let expected = if __cpuid(0).eax < 7 {
        None
    } else {
        Some(__cpuid_count(7, 0).ebx)
    };
    assert_eq!(leaf7_ebx(), expected);
}

#[test]
fn leaf_seven_is_read_only_where_it_exists() {
    let untouched = || -> u32 { panic!("read") };
    assert_eq!(leaf7_ebx_in(6, &untouched), None);
    assert_eq!(leaf7_ebx_in(0, &untouched), None);
    assert_eq!(leaf7_ebx_in(7, &|| 0x20), Some(0x20));
    assert_eq!(leaf7_ebx_in(0x20, &|| 0), Some(0));
}

#[test]
fn xcr0_is_read_only_under_osxsave() {
    let untouched = || -> u64 { panic!("read") };
    assert!(!os_preserves_in(0, &untouched, XCR0_YMM));
    assert!(!os_preserves_in(!OSXSAVE, &untouched, XCR0_YMM));
    assert!(os_preserves_in(OSXSAVE, &|| 0x06, XCR0_YMM));
    assert!(os_preserves_in(OSXSAVE, &|| 0xe7, XCR0_YMM));
    assert!(!os_preserves_in(OSXSAVE, &|| 0x04, XCR0_YMM));
    assert!(!os_preserves_in(OSXSAVE, &|| 0x02, XCR0_YMM));
    assert!(!os_preserves_in(OSXSAVE, &|| 0x07, XCR0_ZMM));
    assert!(!os_preserves_in(OSXSAVE, &|| 0x66, XCR0_ZMM));
    assert!(os_preserves_in(OSXSAVE, &|| 0xe6, XCR0_ZMM));
}

#[test]
fn nothing_is_found_that_the_os_does_not_preserve() {
    assert!(!detect_avx2(&|| 0));
    assert!(!detect_avx512(&|| 0x07));
    assert!(!os_preserves(&|| 0x03, XCR0_YMM));
    assert_eq!(os_preserves(&|| u64::MAX, XCR0_ZMM), __cpuid(1).ecx & OSXSAVE != 0);
    assert_eq!(detect_avx2(&read_xcr0), avx2(&fresh(), &read_xcr0));
    assert_eq!(detect_avx512(&read_xcr0), avx512(&fresh(), &read_xcr0));
}

#[test]
fn avx2_is_one_bit() {
    assert!(avx2_in(true, Some(1 << 5)));
    assert!(!avx2_in(false, Some(1 << 5)));
    assert!(!avx2_in(true, Some(!(1 << 5))));
    assert!(!avx2_in(true, None));
}

#[test]
fn avx512_is_five_bits() {
    let all: u32 = 1 << 5 | 1 << 16 | 1 << 17 | 1 << 30 | 1 << 31;
    assert!(avx512_in(true, Some(all)));
    assert!(!avx512_in(false, Some(all)));
    assert!(!avx512_in(true, None));
    for bit in [5, 16, 17, 30, 31] {
        assert!(!avx512_in(true, Some(!(1u32 << bit))));
        assert!(!avx512_in(true, Some(all & !(1u32 << bit))));
    }
    // What has AVX-512 has AVX2.
    assert!(avx2_in(true, Some(all)));
    assert_eq!(XCR0_ZMM & XCR0_YMM, XCR0_YMM);
}

#[test]
fn hwcap_bits_decide_on_loongarch() {
    assert!(hwcap_has(0x30, HWCAP_LSX));
    assert!(!hwcap_has(0x20, HWCAP_LSX));
    assert!(hwcap_has(0x30, 0x30));
    assert!(!hwcap_has(0x10, 0x30));
    assert!(detect_lsx(Some(0x10)));
    assert!(!detect_lasx(Some(0x10)));
    assert!(detect_lasx(Some(0x30)));
    assert!(!detect_lsx(Some(0x20)));
    assert!(!detect_lasx(Some(0x20)));
    assert!(!lasx(&fresh(), &|| Some(0x20)));
    assert_eq!(HWCAP_LASX, 0x20);
    assert!(!detect_lsx(None));
    assert!(!detect_lasx(None));
}
