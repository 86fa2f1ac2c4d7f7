use kernel::errors::ErrNO;
use kernel::klib::bitmap::{first_idx, get_mask, last_idx, mask_bits, Bitmap};

fn bitmap(bits: usize) -> Bitmap {
    let mut b = Bitmap::new();
    b.storage_init(0x1000, (bits + 63) / 64 * 8);
    b.init(bits);
    b
}

#[test]
fn new_bitmap_is_empty() {
    let b = Bitmap::new();
    assert_eq!(b.size(), 0);
    assert_eq!(b.storage_num(), 0);
}

#[test]
fn storage_is_counted_in_words() {
    let b = bitmap(256);
    assert_eq!(b.storage_num(), 4);
    assert_eq!(b.size(), 256);
}

#[test]
fn mask_examples() {
    assert_eq!(get_mask(false, false, 16, 48), 0xffff_ffff_ffff_ffff);
    assert_eq!(get_mask(true, false, 16, 48), 0xffff_ffff_ffff_0000);
    assert_eq!(get_mask(false, true, 16, 48), 0x0000_ffff_ffff_ffff);
    assert_eq!(get_mask(true, true, 16, 48), 0x0000_ffff_ffff_0000);
}

#[test]
fn mask_at_word_end_keeps_all_bits() {
    assert_eq!(get_mask(false, true, 0, 64), 0xffff_ffff_ffff_ffff);
}

#[test]
fn word_indices() {
    assert_eq!(first_idx(0), 0);
    assert_eq!(first_idx(63), 0);
    assert_eq!(first_idx(64), 1);
    assert_eq!(last_idx(64), 0);
    assert_eq!(last_idx(65), 1);
}

#[test]
fn mask_bits_reports_mismatches() {
    // Bits 4..8 of the range 4..12 are set; looking for set bits reports
    // the clear ones inside the range.
    assert_eq!(mask_bits(0xf0, 0, 4, 12, true), 0xf00);
    assert_eq!(mask_bits(0xf0, 0, 4, 12, false), 0xf0);
}

#[test]
fn set_then_find_skips_the_set_bits() {
    let mut b = bitmap(256);
    assert!(b.set(0, 3).is_ok());
    assert_eq!(b.find(false, 0, 256, 4), Ok(3));
}

#[test]
fn set_and_clear_across_words() {
    let mut b = bitmap(256);
    assert_eq!(b.set(60, 130), Ok(()));
    let mut out = 0usize;
    assert!(b.scan(60, 130, true, &mut out));
    assert!(!b.scan(59, 130, true, &mut out));
    assert_eq!(out, 59);
    assert!(!b.scan(60, 131, true, &mut out));
    assert_eq!(out, 130);
    assert_eq!(b.clear(64, 128), Ok(()));
    assert!(!b.scan(60, 130, true, &mut out));
    assert_eq!(out, 64);
    assert!(b.scan(64, 128, false, &mut out));
    assert!(!b.reverse_scan(60, 130, false, &mut out));
    assert_eq!(out, 129);
}

#[test]
fn set_rejects_bad_ranges() {
    let mut b = bitmap(100);
    assert_eq!(b.set(5, 4), Err(ErrNO::InvalidArgs));
    assert_eq!(b.set(0, 101), Err(ErrNO::InvalidArgs));
    assert_eq!(b.clear(5, 4), Err(ErrNO::InvalidArgs));
    assert_eq!(b.clear(0, 101), Err(ErrNO::InvalidArgs));
    assert_eq!(b.set(7, 7), Ok(()));
    let mut out = 99usize;
    assert!(b.scan(0, 100, false, &mut out));
    assert_eq!(out, 99);
}

#[test]
fn scan_is_cut_off_at_the_domain() {
    let mut b = bitmap(100);
    assert_eq!(b.set(0, 100), Ok(()));
    let mut out = 0usize;
    assert!(b.scan(0, 1000, true, &mut out));
    assert!(b.scan(100, 1000, false, &mut out));
}

#[test]
fn reverse_scan_finds_the_last_mismatch() {
    let mut b = bitmap(200);
    assert_eq!(b.set(10, 20), Ok(()));
    assert_eq!(b.set(150, 160), Ok(()));
    let mut out = 0usize;
    assert!(!b.reverse_scan(0, 200, false, &mut out));
    assert_eq!(out, 159);
    assert!(!b.reverse_scan(0, 150, false, &mut out));
    assert_eq!(out, 19);
    assert!(b.reverse_scan(20, 150, false, &mut out));
    assert_eq!(out, 19);
}

#[test]
fn find_returns_the_first_run() {
    let mut b = bitmap(256);
    assert_eq!(b.set(0, 10), Ok(()));
    assert_eq!(b.set(12, 20), Ok(()));
    assert_eq!(b.set(25, 30), Ok(()));
    assert_eq!(b.find(false, 0, 256, 2), Ok(10));
    assert_eq!(b.find(false, 0, 256, 3), Ok(20));
    assert_eq!(b.find(false, 0, 256, 6), Ok(30));
    assert_eq!(b.find(true, 0, 256, 8), Ok(0));
    assert_eq!(b.find(true, 11, 256, 8), Ok(12));
    assert_eq!(b.find(true, 11, 256, 9), Err(ErrNO::NoResources));
}

#[test]
fn find_of_an_empty_run_stops_at_the_first_match() {
    let mut b = bitmap(64);
    assert_eq!(b.set(0, 5), Ok(()));
    assert_eq!(b.find(false, 0, 64, 0), Ok(5));
}

#[test]
fn find_fails_when_no_run_fits() {
    let mut b = bitmap(64);
    assert_eq!(b.set(30, 34), Ok(()));
    assert_eq!(b.find(false, 0, 64, 31), Err(ErrNO::NoResources));
    assert_eq!(b.find(false, 0, 64, 30), Ok(0));
    assert_eq!(b.find(false, 1, 64, 30), Ok(34));
    assert_eq!(b.find(false, 10, 10, 1), Err(ErrNO::InvalidArgs));
    assert_eq!(b.find(false, 11, 10, 1), Err(ErrNO::InvalidArgs));
}
