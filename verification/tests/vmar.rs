use kernel::vm::vmar::VmAddressRegion;

const PAGE: usize = 4096;
const BASE: usize = 0x1000_0000;

fn region(base: usize, size: usize) -> VmAddressRegion {
    let mut r = VmAddressRegion::new();
    r.init(base, size, 0);
    r
}

fn bases(r: &VmAddressRegion) -> Vec<usize> {
    r.children.iter().map(|c| c.base).collect()
}

#[test]
fn a_new_region_is_empty() {
    let r = VmAddressRegion::new();
    assert_eq!((r.base, r.size, r.flags), (0, 0, 0));
    assert!(r.children.is_empty());
    let mut r = r;
    r.init(BASE, 16 * PAGE, 7);
    assert_eq!((r.base, r.size, r.flags), (BASE, 16 * PAGE, 7));
}

#[test]
fn a_region_covers_what_starts_and_ends_inside_it() {
    let r = region(BASE, 16 * PAGE);
    assert!(r.cover_range(BASE, 16 * PAGE));
    assert!(r.cover_range(BASE + PAGE, 15 * PAGE));
    assert!(r.cover_range(BASE + 15 * PAGE, 0));
    assert!(!r.cover_range(BASE + PAGE, 16 * PAGE));
    assert!(!r.cover_range(BASE - PAGE, PAGE));
    // What starts at the end of the region is outside, also with no size.
    assert!(!r.cover_range(BASE + 16 * PAGE, 0));
    // A region up to the end of the address space.
    let top = region(usize::MAX - 0xfff, 0x1000);
    assert!(top.cover_range(usize::MAX - 0xfff, 0x1000));
    assert!(top.cover_range(usize::MAX, 1));
    assert!(!top.cover_range(usize::MAX, 2));
}

#[test]
fn children_are_kept_in_the_order_of_their_addresses() {
    let mut r = region(BASE, 64 * PAGE);
    r.insert_child(region(BASE + 8 * PAGE, 4 * PAGE));
    r.insert_child(region(BASE + 32 * PAGE, PAGE));
    r.insert_child(region(BASE, 2 * PAGE));
    r.insert_child(region(BASE + 16 * PAGE, 8 * PAGE));
    assert_eq!(
        bases(&r),
        vec![BASE, BASE + 8 * PAGE, BASE + 16 * PAGE, BASE + 32 * PAGE]
    );
    // A child goes before the first that starts at or behind its end.
    r.insert_child(region(BASE + 4 * PAGE, 4 * PAGE));
    assert_eq!(bases(&r)[1], BASE + 4 * PAGE);
    assert_eq!((r.base, r.size), (BASE, 64 * PAGE));
}

#[test]
fn a_spot_is_the_start_of_the_first_gap_with_room() {
    let mut r = region(BASE, 64 * PAGE);
    // With nothing inside the region is one gap.
    assert_eq!(r.find_alloc_spot_in_gaps(PAGE, 12, BASE, 64 * PAGE, usize::MAX), (BASE, true));
    assert_eq!(r.alloc_spot_locked(64 * PAGE, 12, 0, usize::MAX), BASE);
    assert_eq!(r.find_alloc_spot_in_gaps(65 * PAGE, 12, BASE, 64 * PAGE, usize::MAX), (0, false));
    r.insert_child(region(BASE, 2 * PAGE));
    r.insert_child(region(BASE + 4 * PAGE, 4 * PAGE));
    r.insert_child(region(BASE + 16 * PAGE, 8 * PAGE));
    // Gaps: two pages behind the first child, eight behind the second,
    // forty behind the third.
    assert_eq!(r.alloc_spot_locked(PAGE, 12, 0, usize::MAX), BASE + 2 * PAGE);
    assert_eq!(r.alloc_spot_locked(2 * PAGE, 0, 0, usize::MAX), BASE + 2 * PAGE);
    assert_eq!(r.alloc_spot_locked(3 * PAGE, 12, 0, usize::MAX), BASE + 8 * PAGE);
    assert_eq!(r.alloc_spot_locked(8 * PAGE, 12, 0, usize::MAX), BASE + 8 * PAGE);
    assert_eq!(r.alloc_spot_locked(9 * PAGE, 12, 0, usize::MAX), BASE + 24 * PAGE);
    assert_eq!(r.alloc_spot_locked(40 * PAGE, 12, 0, usize::MAX), BASE + 24 * PAGE);
    assert_eq!(r.find_alloc_spot_in_gaps(41 * PAGE, 12, BASE, 64 * PAGE, usize::MAX), (0, false));
    // Finding a spot changes nothing.
    assert_eq!(r.children.len(), 3);
}

#[test]
fn spots_are_aligned_and_lie_below_the_limit() {
    let mut r = region(BASE, 64 * PAGE);
    r.insert_child(region(BASE, PAGE));
    r.insert_child(region(BASE + 5 * PAGE, PAGE));
    // Gaps start at multiples of 16 KiB behind the children: at page 4,
    // which the second child follows, and at page 8.
    assert_eq!(r.alloc_spot_locked(PAGE, 14, 0, usize::MAX), BASE + 4 * PAGE);
    assert_eq!(r.alloc_spot_locked(2 * PAGE, 14, 0, usize::MAX), BASE + 8 * PAGE);
    assert_eq!(r.alloc_spot_locked(56 * PAGE, 14, 0, usize::MAX), BASE + 8 * PAGE);
    assert_eq!(r.find_alloc_spot_in_gaps(57 * PAGE, 14, BASE, 64 * PAGE, usize::MAX), (0, false));
    // The allocation must end at or below the limit.
    assert_eq!(
        r.find_alloc_spot_in_gaps(2 * PAGE, 14, BASE, 64 * PAGE, BASE + 10 * PAGE),
        (BASE + 8 * PAGE, true)
    );
    assert_eq!(
        r.find_alloc_spot_in_gaps(2 * PAGE, 14, BASE, 64 * PAGE, BASE + 10 * PAGE - 1),
        (0, false)
    );
    assert_eq!(
        r.find_alloc_spot_in_gaps(PAGE, 14, BASE, 64 * PAGE, BASE + 5 * PAGE),
        (BASE + 4 * PAGE, true)
    );
    assert_eq!(r.find_alloc_spot_in_gaps(PAGE, 14, BASE, 64 * PAGE, BASE + 4 * PAGE), (0, false));
}

#[test]
fn the_search_ends_at_a_child_that_reaches_the_end_of_the_address_space() {
    let top = usize::MAX - 64 * PAGE + 1;
    let mut r = region(top, 64 * PAGE);
    assert_eq!(r.find_alloc_spot_in_gaps(64 * PAGE, 12, top, 64 * PAGE, usize::MAX), (0, false));
    assert_eq!(
        r.find_alloc_spot_in_gaps(63 * PAGE, 12, top, 64 * PAGE, usize::MAX),
        (top, true)
    );
    r.insert_child(region(top + 60 * PAGE, 4 * PAGE));
    // The end of the child wraps around, so that it goes first.
    assert_eq!(bases(&r), vec![top + 60 * PAGE]);
    assert_eq!(r.alloc_spot_locked(60 * PAGE, 12, 0, usize::MAX), top);
    r.insert_child(region(top, PAGE));
    assert_eq!(bases(&r), vec![top, top + 60 * PAGE]);
    assert_eq!(
        r.find_alloc_spot_in_gaps(59 * PAGE, 12, top, 64 * PAGE, usize::MAX),
        (top + PAGE, true)
    );
    // Behind the child that reaches the end there is no gap.
    assert_eq!(r.find_alloc_spot_in_gaps(60 * PAGE, 12, top, 64 * PAGE, usize::MAX), (0, false));
}
